//! What is said to a tracker, and what is made of its answers.

use crate::common::error::TorrentError;
use crate::common::text::decimal;
use crate::common::text::decimal_digits;
use crate::common::text::hex_decode;
use crate::common::text::percent_encoded;
use crate::common::text::str_eq;
use crate::common::text::url_encode;
use crate::common::types::PeerId;
use crate::common::types::Statistics;
use vstd::prelude::*;
use vstd::std_specs::convert::FromSpecImpl;
use vstd::string::StringExecFns;
use vstd::string::StringSliceAdditionalSpecFns;

verus! {

/// Why a tracker is told of us.
#[derive(Debug, Clone, Copy, PartialEq, Eq, Structural)]
pub enum TrackerEvent {
    Started,
    Stopped,
    Completed,
    /// No event: a regular announce.
    NoEvent,
}

impl TrackerEvent {
    /// The word for the event; none for no event.
    pub open spec fn word(self) -> &'static str {
        match self {
            TrackerEvent::Started => "started",
            TrackerEvent::Stopped => "stopped",
            TrackerEvent::Completed => "completed",
            TrackerEvent::NoEvent => "",
        }
    }

    /// The event that a word stands for; no event for any other word.
    pub open spec fn of_word(s: Seq<char>) -> TrackerEvent {
        if s == "started"@ {
            TrackerEvent::Started
        } else if s == "stopped"@ {
            TrackerEvent::Stopped
        } else if s == "completed"@ {
            TrackerEvent::Completed
        } else {
            TrackerEvent::NoEvent
        }
    }
}

impl<'a> From<&'a str> for TrackerEvent {
    fn from(s: &'a str) -> (event: TrackerEvent) {
        if str_eq(s, "started") {
            TrackerEvent::Started
        } else if str_eq(s, "stopped") {
            TrackerEvent::Stopped
        } else if str_eq(s, "completed") {
            TrackerEvent::Completed
        } else {
            TrackerEvent::NoEvent
        }
    }
}

impl<'a> FromSpecImpl<&'a str> for TrackerEvent {
    open spec fn obeys_from_spec() -> bool {
        true
    }

    open spec fn from_spec(s: &'a str) -> TrackerEvent {
        TrackerEvent::of_word(s@)
    }
}

impl From<TrackerEvent> for &'static str {
    fn from(event: TrackerEvent) -> (word: &'static str) {
        match event {
            TrackerEvent::Started => "started",
            TrackerEvent::Stopped => "stopped",
            TrackerEvent::Completed => "completed",
            TrackerEvent::NoEvent => "",
        }
    }
}

impl FromSpecImpl<TrackerEvent> for &'static str {
    open spec fn obeys_from_spec() -> bool {
        true
    }

    open spec fn from_spec(event: TrackerEvent) -> &'static str {
        event.word()
    }
}

/// What a tracker is told.
#[derive(Debug, Clone)]
pub struct TrackerRequest {
    pub info_hash: crate::common::types::Hash,
    pub peer_id: PeerId,
    pub port: u16,
    pub uploaded: u64,
    pub downloaded: u64,
    pub left: u64,
    pub event: TrackerEvent,
    pub compact: bool,
    pub numwant: Option<u32>,
    pub key: Option<String>,
    pub tracker_id: Option<String>,
}

/// A part of a query that is there or not: its name and what it holds.
pub open spec fn optional_text(name: Seq<char>, value: Option<String>) -> Seq<char> {
    match value {
        Some(v) => name + v@,
        None => Seq::empty(),
    }
}

impl TrackerRequest {
    /// The request as the query of a URL: the parts joined by `&`, the two
    /// ids percent-encoded, the numbers in decimal; the event only where
    /// there is one, `compact=1` only where compact answers are asked for,
    /// and the wanted number of peers, the key and the tracker id only where
    /// they are set.
    pub open spec fn query(&self) -> Seq<char> {
        "info_hash="@ + percent_encoded(self.info_hash@) + "&peer_id="@ + percent_encoded(
            self.peer_id@,
        ) + "&port="@ + decimal_digits(self.port as nat) + "&uploaded="@ + decimal_digits(
            self.uploaded as nat,
        ) + "&downloaded="@ + decimal_digits(self.downloaded as nat) + "&left="@ + decimal_digits(
            self.left as nat,
        ) + (if self.event != TrackerEvent::NoEvent {
            "&event="@ + self.event.word()@
        } else {
            Seq::empty()
        }) + (if self.compact {
            "&compact=1"@
        } else {
            Seq::empty()
        }) + (match self.numwant {
            Some(n) => "&numwant="@ + decimal_digits(n as nat),
            None => Seq::empty(),
        }) + optional_text("&key="@, self.key) + optional_text("&trackerid="@, self.tracker_id)
    }

    /// A request for compact answers with up to 50 peers.
    pub fn new(
        info_hash: crate::common::types::Hash,
        peer_id: PeerId,
        port: u16,
        uploaded: u64,
        downloaded: u64,
        left: u64,
        event: TrackerEvent,
    ) -> (r: TrackerRequest)
        ensures
            r.info_hash == info_hash,
            r.peer_id == peer_id,
            r.port == port,
            r.uploaded == uploaded,
            r.downloaded == downloaded,
            r.left == left,
            r.event == event,
            r.compact,
            r.numwant == Some(50u32),
            r.key is None,
            r.tracker_id is None,
    {
        TrackerRequest {
            info_hash,
            peer_id,
            port,
            uploaded,
            downloaded,
            left,
            event,
            compact: true,
            numwant: Some(50),
            key: None,
            tracker_id: None,
        }
    }

    pub fn to_query_params(&self) -> (params: String)
        ensures
            params@ == self.query(),
    {
        let mut params = String::new();
        params.append("info_hash=");
        params.append(url_encode(self.info_hash.as_slice()).as_str());
        params.append("&peer_id=");
        params.append(url_encode(self.peer_id.as_slice()).as_str());
        params.append("&port=");
        params.append(decimal(self.port as u64).as_str());
        params.append("&uploaded=");
        params.append(decimal(self.uploaded).as_str());
        params.append("&downloaded=");
        params.append(decimal(self.downloaded).as_str());
        params.append("&left=");
        params.append(decimal(self.left).as_str());
        let ghost fixed = params@;
        if self.event != TrackerEvent::NoEvent {
            params.append("&event=");
            let word: &'static str = self.event.into();
            params.append(word);
        }
        let ghost with_event = params@;
        if self.compact {
            params.append("&compact=1");
        }
        let ghost with_compact = params@;
        match self.numwant {
            Some(numwant) => {
                params.append("&numwant=");
                params.append(decimal(numwant as u64).as_str());
            },
            None => {},
        }
        let ghost with_numwant = params@;
        match &self.key {
            Some(key) => {
                params.append("&key=");
                params.append(key.as_str());
            },
            None => {},
        }
        let ghost with_key = params@;
        match &self.tracker_id {
            Some(tracker_id) => {
                params.append("&trackerid=");
                params.append(tracker_id.as_str());
            },
            None => {},
        }
        proof {
            assert(with_event =~= fixed + (if self.event != TrackerEvent::NoEvent {
                "&event="@ + self.event.word()@
            } else {
                Seq::empty()
            }));
            assert(with_compact =~= with_event + (if self.compact {
                "&compact=1"@
            } else {
                Seq::empty()
            }));
            assert(with_numwant =~= with_compact + (match self.numwant {
                Some(n) => "&numwant="@ + decimal_digits(n as nat),
                None => Seq::empty(),
            }));
            assert(with_key =~= with_numwant + optional_text("&key="@, self.key));
            assert(params@ =~= with_key + optional_text("&trackerid="@, self.tracker_id));
        }
        params
    }
}

/// A peer as a tracker names it.
#[derive(Debug, Clone)]
pub struct PeerInfo {
    pub peer_id: Option<String>,
    pub ip: String,
    pub port: u16,
}

/// What a tracker answers.
#[derive(Debug, Clone)]
pub struct TrackerResponse {
    pub failure_reason: Option<String>,
    pub warning_message: Option<String>,
    pub interval: Option<u32>,
    pub min_interval: Option<u32>,
    pub tracker_id: Option<String>,
    pub complete: Option<u32>,
    pub incomplete: Option<u32>,
    pub peers: Option<Vec<PeerInfo>>,
    pub peers6: Option<Vec<PeerInfo>>,
}

/// What a tracker knows of one torrent.
#[derive(Debug, Clone)]
pub struct ScrapeInfo {
    pub complete: Option<u32>,
    pub downloaded: Option<u32>,
    pub incomplete: Option<u32>,
    pub name: Option<String>,
}

/// The seconds between two announces where a tracker names none.
pub const DEFAULT_INTERVAL: u32 = 1800;

/// Whether `needle` stands in `hay` at `at`.
pub open spec fn stands_at(hay: Seq<u8>, needle: Seq<u8>, at: int) -> bool {
    0 <= at && at + needle.len() <= hay.len() && hay.subrange(at, at + needle.len()) == needle
}

/// The first place from `from` on at which `needle` stands in `hay`, or the
/// length of `hay` where it stands at none.
pub open spec fn first_from(hay: Seq<u8>, needle: Seq<u8>, from: int) -> int
    decreases hay.len() - from,
{
    if from < 0 || from >= hay.len() {
        hay.len() as int
    } else if stands_at(hay, needle, from) {
        from
    } else {
        first_from(hay, needle, from + 1)
    }
}

/// The number that decimal digits spell, if they are digits, at least one,
/// and spell a number of 32 bits.
pub open spec fn digits_value(digits: Seq<u8>) -> Option<u32>
    decreases digits.len(),
{
    if digits.len() == 0 {
        None
    } else if !(48 <= digits.last() <= 57) {
        None
    } else if digits.len() == 1 {
        Some((digits.last() - 48) as u32)
    } else {
        match digits_value(digits.drop_last()) {
            Some(v) => if v * 10 + (digits.last() - 48) <= u32::MAX {
                Some((v * 10 + (digits.last() - 48)) as u32)
            } else {
                None
            },
            None => None,
        }
    }
}

/// The word before the interval of a tracker's answer.
pub open spec fn interval_word() -> Seq<u8> {
    seq![105u8, 110u8, 116u8, 101u8, 114u8, 118u8, 97u8, 108u8, 105u8]
}

/// Whether a text has the frame of a dictionary: it begins with `d` and
/// ends with `e`.
pub open spec fn framed(text: Seq<u8>) -> bool {
    text.len() >= 1 && text[0] == 100 && text[text.len() - 1] == 101
}

/// The interval that a tracker's answer names: the number between the
/// first `intervali` and the next `e`, if there is one that 32 bits hold;
/// else 1800 seconds.
pub open spec fn interval_of(text: Seq<u8>) -> u32 {
    let start = first_from(text, interval_word(), 0);
    let end = first_from(text, seq![101u8], start + 9);
    if start < text.len() && end < text.len() {
        match digits_value(text.subrange(start + 9, end)) {
            Some(v) => v,
            None => DEFAULT_INTERVAL,
        }
    } else {
        DEFAULT_INTERVAL
    }
}

/// The first place from `from` on at which `needle` stands in `hay`, or the
/// length of `hay`.
pub fn find_from(hay: &[u8], needle: &[u8], from: usize) -> (at: usize)
    requires
        needle@.len() > 0,
    ensures
        at == first_from(hay@, needle@, from as int),
        from <= at || at == hay@.len(),
        at <= hay@.len(),
        at < hay@.len() ==> stands_at(hay@, needle@, at as int),
{
    if from >= hay.len() {
        return hay.len();
    }
    let mut at: usize = from;
    while at < hay.len()
        invariant
            from <= at <= hay@.len(),
            needle@.len() > 0,
            first_from(hay@, needle@, from as int) == first_from(hay@, needle@, at as int),
        decreases hay@.len() - at,
    {
        if needle.len() <= hay.len() - at {
            let part = vstd::slice::slice_subrange(hay, at, at + needle.len());
            if crate::common::types::same_bytes(part, needle) {
                return at;
            }
        }
        at += 1;
    }
    hay.len()
}

/// The number that decimal digits spell, if they spell one of 32 bits.
pub fn parse_digits(digits: &[u8]) -> (value: Option<u32>)
    ensures
        value == digits_value(digits@),
{
    if digits.len() == 0 {
        return None;
    }
    let mut value: u32 = 0;
    let mut i: usize = 0;
    while i < digits.len()
        invariant
            i <= digits@.len(),
            i > 0 ==> digits_value(digits@.take(i as int)) == Some(value),
            i == 0 ==> value == 0,
        decreases digits@.len() - i,
    {
        let d = digits[i];
        proof {
            assert(digits@.take(i + 1).drop_last() =~= digits@.take(i as int));
            assert(digits@.take(i + 1).last() == d);
        }
        if d < 48 || d > 57 {
            proof {
                lemma_digits_prefix(digits@, i + 1);
            }
            return None;
        }
        let wide: u64 = value as u64 * 10 + (d - 48) as u64;
        if wide > u32::MAX as u64 {
            proof {
                lemma_digits_prefix(digits@, i + 1);
            }
            return None;
        }
        value = wide as u32;
        i += 1;
    }
    assert(digits@.take(i as int) =~= digits@);
    Some(value)
}

/// Digits spell no number where a beginning of them spells none.
pub proof fn lemma_digits_prefix(digits: Seq<u8>, k: int)
    requires
        0 < k <= digits.len(),
        digits_value(digits.take(k)) is None,
    ensures
        digits_value(digits) is None,
    decreases digits.len() - k,
{
    if k < digits.len() {
        assert(digits.take(k + 1).drop_last() =~= digits.take(k));
        lemma_digits_prefix(digits, k + 1);
    } else {
        assert(digits.take(k) =~= digits);
    }
}

/// Reads a tracker's answer given as a dictionary in plain text: the
/// interval is taken from it, and no peers are. A text without the frame of
/// a dictionary is refused.
pub fn parse_bencoded_response(response_text: &str) -> (r: Result<TrackerResponse, TorrentError>)
    ensures
        match r {
            Ok(response) => framed(response_text.spec_bytes()) && response.interval == Some(
                interval_of(response_text.spec_bytes()),
            ) && response.failure_reason is None && response.warning_message is None
                && response.min_interval is None && response.tracker_id is None
                && response.complete is None && response.incomplete is None
                && response.peers6 is None && (response.peers matches Some(peers) && peers@.len()
                == 0),
            Err(e) => !framed(response_text.spec_bytes()) && e == TorrentError::Network(
                crate::common::error::NetworkError::InvalidMessage,
            ),
        },
{
    let text = response_text.as_bytes();
    if text.len() == 0 || text[0] != 100 || text[text.len() - 1] != 101 {
        return Err(TorrentError::Network(crate::common::error::NetworkError::InvalidMessage));
    }
    let word: [u8; 9] = [105, 110, 116, 101, 114, 118, 97, 108, 105];
    assert(word@ =~= interval_word());
    let end_mark: [u8; 1] = [101];
    assert(end_mark@ =~= seq![101u8]);
    let mut interval: u32 = DEFAULT_INTERVAL;
    let start = find_from(text, word.as_slice(), 0);
    if start < text.len() {
        let end = find_from(text, end_mark.as_slice(), start + 9);
        if end < text.len() {
            match parse_digits(vstd::slice::slice_subrange(text, start + 9, end)) {
                Some(v) => {
                    interval = v;
                },
                None => {},
            }
        }
    }
    Ok(
        TrackerResponse {
            failure_reason: None,
            warning_message: None,
            interval: Some(interval),
            min_interval: None,
            tracker_id: None,
            complete: None,
            incomplete: None,
            peers: Some(Vec::new()),
            peers6: None,
        },
    )
}

/// The info hash that a key of a tracker's scrape spells in hexadecimal,
/// if it spells 20 bytes.
pub fn scrape_key(key: &str) -> (hash: Option<crate::common::types::Hash>)
    ensures
        match hash {
            Some(h) => key.spec_bytes().len() == 40 && crate::common::text::all_hex(
                key.spec_bytes(),
            ) && h@ == crate::common::text::hex_bytes(key.spec_bytes()),
            None => key.spec_bytes().len() != 40 || !crate::common::text::all_hex(key.spec_bytes()),
        },
{
    match hex_decode(key.as_bytes()) {
        Ok(bytes) => {
            if bytes.len() != 20 {
                return None;
            }
            let mut hash = [0u8; 20];
            let mut i: usize = 0;
            while i < 20
                invariant
                    i <= 20,
                    bytes@.len() == 20,
                    forall|j: int| 0 <= j < i ==> hash@[j] == bytes@[j],
                decreases 20 - i,
            {
                hash[i] = bytes[i];
                i += 1;
            }
            assert(hash@ =~= bytes@);
            Some(hash)
        },
        Err(_) => None,
    }
}

/// The request to announce with: what the counters say, for the event.
pub fn announce_request(
    info_hash: crate::common::types::Hash,
    peer_id: PeerId,
    port: u16,
    statistics: &Statistics,
    event: TrackerEvent,
) -> (r: TrackerRequest)
    ensures
        r.info_hash == info_hash,
        r.peer_id == peer_id,
        r.port == port,
        r.uploaded == statistics.uploaded,
        r.downloaded == statistics.downloaded,
        r.left == statistics.left,
        r.event == event,
        r.compact,
        r.numwant == Some(50u32),
        r.key is None,
        r.tracker_id is None,
{
    TrackerRequest::new(
        info_hash,
        peer_id,
        port,
        statistics.uploaded,
        statistics.downloaded,
        statistics.left,
        event,
    )
}

/// When a tracker was last announced to, in milliseconds, and the interval
/// that it asked for, in milliseconds, if it named one.
#[derive(Debug, Clone)]
pub struct AnnounceRecord {
    pub url: String,
    pub last_announce: u64,
    pub interval: Option<u64>,
}

/// The position of the record of a tracker, or the length where it has
/// none.
pub open spec fn record_of(records: Seq<AnnounceRecord>, url: Seq<char>) -> int
    decreases records.len(),
{
    if records.len() == 0 {
        0
    } else if records.first().url@ == url {
        0
    } else {
        1 + record_of(records.drop_first(), url)
    }
}

/// A position before which no record is of the tracker, and at which one
/// is unless it is the length, is what `record_of` finds.
pub proof fn lemma_record_is(records: Seq<AnnounceRecord>, url: Seq<char>, k: int)
    requires
        0 <= k <= records.len(),
        forall|j: int| 0 <= j < k ==> (#[trigger] records[j]).url@ != url,
        k < records.len() ==> records[k].url@ == url,
    ensures
        record_of(records, url) == k,
    decreases records.len(),
{
    if records.len() > 0 && k > 0 {
        assert(records[0].url@ != url);
        let rest = records.drop_first();
        assert forall|j: int| 0 <= j < k - 1 implies (#[trigger] rest[j]).url@ != url by {
            assert(rest[j] == records[j + 1]);
        }
        lemma_record_is(rest, url, k - 1);
    }
}

/// Whether a tracker is to be announced to at `now`: it is, unless it
/// named an interval that has not passed since the last announce.
pub open spec fn due(records: Seq<AnnounceRecord>, url: Seq<char>, now: u64) -> bool {
    let k = record_of(records, url);
    !(k < records.len() && records[k].interval is Some && now >= records[k].last_announce && now
        - records[k].last_announce < records[k].interval->0)
}

/// The texts of strings.
pub open spec fn texts(strings: Seq<String>) -> Seq<Seq<char>> {
    Seq::new(strings.len(), |i: int| strings[i]@)
}

/// The trackers of one torrent, and when each is to be announced to.
#[derive(Debug)]
pub struct TrackerManager {
    trackers: Vec<String>,
    records: Vec<AnnounceRecord>,
}

impl TrackerManager {
    /// The URLs of the trackers, in the order in which they were added.
    pub closed spec fn urls(&self) -> Seq<Seq<char>> {
        texts(self.trackers@)
    }

    /// The records of the announces made.
    pub closed spec fn history(&self) -> Seq<AnnounceRecord> {
        self.records@
    }

    pub fn new(trackers: Vec<String>) -> (m: TrackerManager)
        ensures
            m.urls() == texts(trackers@),
            m.history() == Seq::<AnnounceRecord>::empty(),
    {
        TrackerManager { trackers, records: Vec::new() }
    }

    pub fn trackers(&self) -> (trackers: &Vec<String>)
        ensures
            texts(trackers@) == self.urls(),
    {
        &self.trackers
    }

    /// Adds a tracker unless it is there already.
    pub fn add_tracker(&mut self, tracker_url: String)
        ensures
            final(self).urls() == if old(self).urls().contains(tracker_url@) {
                old(self).urls()
            } else {
                old(self).urls().push(tracker_url@)
            },
            final(self).history() == old(self).history(),
    {
        let ghost before = self.urls();
        let mut k: usize = 0;
        while k < self.trackers.len()
            invariant
                k <= self.trackers@.len(),
                self.urls() == before,
                self.records@ == old(self).records@,
                forall|j: int| 0 <= j < k ==> (#[trigger] before[j]) != tracker_url@,
            decreases self.trackers@.len() - k,
        {
            if str_eq(self.trackers[k].as_str(), tracker_url.as_str()) {
                assert(before[k as int] == tracker_url@);
                return;
            }
            k += 1;
        }
        self.trackers.push(tracker_url);
        assert(self.urls() =~= before.push(tracker_url@));
    }

    /// Takes a tracker out, with the record of its announces.
    pub fn remove_tracker(&mut self, tracker_url: &str)
        ensures
            final(self).urls() == old(self).urls().filter(|u: Seq<char>| u != tracker_url@),
            final(self).history() == old(self).history().filter(
                |r: AnnounceRecord| r.url@ != tracker_url@,
            ),
    {
        let ghost before = self.urls();
        let ghost other = |u: Seq<char>| u != tracker_url@;
        let mut kept: Vec<String> = Vec::new();
        let mut k: usize = 0;
        assert(before.take(0) =~= Seq::<Seq<char>>::empty());
        while k < self.trackers.len()
            invariant
                k <= self.trackers@.len(),
                self.urls() == before,
                self.records@ == old(self).records@,
                other == |u: Seq<char>| u != tracker_url@,
                texts(kept@) == before.take(k as int).filter(other),
            decreases self.trackers@.len() - k,
        {
            proof {
                assert(before.take(k + 1).drop_last() =~= before.take(k as int));
                assert(before.take(k + 1).last() == self.trackers@[k as int]@);
                reveal(Seq::filter);
            }
            if !str_eq(self.trackers[k].as_str(), tracker_url) {
                let ghost so_far = texts(kept@);
                kept.push(self.trackers[k].clone());
                assert(texts(kept@) =~= so_far.push(self.trackers@[k as int]@));
            }
            k += 1;
        }
        assert(before.take(k as int) =~= before);
        self.trackers = kept;
        let ghost records = self.records@;
        let ghost unrelated = |r: AnnounceRecord| r.url@ != tracker_url@;
        let mut left: Vec<AnnounceRecord> = Vec::new();
        let mut k: usize = 0;
        assert(records.take(0) =~= Seq::<AnnounceRecord>::empty());
        while k < self.records.len()
            invariant
                k <= self.records@.len(),
                self.records@ == records,
                self.urls() == before.filter(other),
                unrelated == |r: AnnounceRecord| r.url@ != tracker_url@,
                left@ == records.take(k as int).filter(unrelated),
            decreases self.records@.len() - k,
        {
            proof {
                assert(records.take(k + 1).drop_last() =~= records.take(k as int));
                assert(records.take(k + 1).last() == records[k as int]);
                reveal(Seq::filter);
            }
            if !str_eq(self.records[k].url.as_str(), tracker_url) {
                let r = &self.records[k];
                left.push(
                    AnnounceRecord {
                        url: r.url.clone(),
                        last_announce: r.last_announce,
                        interval: r.interval,
                    },
                );
            }
            k += 1;
        }
        assert(records.take(k as int) =~= records);
        self.records = left;
    }

    /// The position of the record of a tracker, or the number of records.
    fn find_record(&self, tracker_url: &str) -> (k: usize)
        ensures
            k == record_of(self.records@, tracker_url@),
            k <= self.records@.len(),
            k < self.records@.len() ==> self.records@[k as int].url@ == tracker_url@,
    {
        let mut k: usize = 0;
        while k < self.records.len()
            invariant
                k <= self.records@.len(),
                forall|j: int| 0 <= j < k ==> (#[trigger] self.records@[j]).url@ != tracker_url@,
            decreases self.records@.len() - k,
        {
            if str_eq(self.records[k].url.as_str(), tracker_url) {
                proof {
                    lemma_record_is(self.records@, tracker_url@, k as int);
                }
                return k;
            }
            k += 1;
        }
        proof {
            lemma_record_is(self.records@, tracker_url@, k as int);
        }
        k
    }

    /// Whether a tracker is to be announced to at `now`.
    pub fn announce_due(&self, tracker_url: &str, now: u64) -> (is_due: bool)
        ensures
            is_due == due(self.history(), tracker_url@, now),
    {
        let k = self.find_record(tracker_url);
        if k < self.records.len() {
            let r = &self.records[k];
            match r.interval {
                Some(interval) => !(now >= r.last_announce && now - r.last_announce < interval),
                None => true,
            }
        } else {
            true
        }
    }

    /// Takes the answer that a tracker gave at `now`. An answer that names
    /// a failure is an error and changes nothing. Else the announce is
    /// recorded, with the interval that the answer names, if it names one;
    /// and the peers of the answer are handed back, those of `peers` before
    /// those of `peers6`.
    pub fn record_response(&mut self, tracker_url: &str, now: u64, response: TrackerResponse) -> (r:
        Result<Vec<PeerInfo>, TorrentError>)
        ensures
            final(self).urls() == old(self).urls(),
            match r {
                Err(e) => response.failure_reason matches Some(reason) && e == TorrentError::Io(
                    reason,
                ) && final(self).history() == old(self).history(),
                Ok(peers) => {
                    let k = record_of(old(self).history(), tracker_url@);
                    &&& response.failure_reason is None
                    &&& peers@ == (match response.peers {
                        Some(list) => list@,
                        None => Seq::empty(),
                    }) + (match response.peers6 {
                        Some(list) => list@,
                        None => Seq::empty(),
                    })
                    &&& final(self).history().len() == if k < old(self).history().len() {
                        old(self).history().len()
                    } else {
                        old(self).history().len() + 1
                    }
                    &&& forall|j: int|
                        0 <= j < old(self).history().len() && j != k ==> final(self).history()[j]
                            == old(self).history()[j]
                    &&& final(self).history()[k].url@ == tracker_url@
                    &&& final(self).history()[k].last_announce == now
                    &&& final(self).history()[k].interval == (match response.interval {
                        Some(seconds) => Some((seconds * 1000) as u64),
                        None => if k < old(self).history().len() {
                            old(self).history()[k].interval
                        } else {
                            None
                        },
                    })
                },
            },
    {
        let TrackerResponse {
            failure_reason,
            warning_message: _,
            interval,
            min_interval: _,
            tracker_id: _,
            complete: _,
            incomplete: _,
            peers,
            peers6,
        } = response;
        match failure_reason {
            Some(reason) => {
                return Err(TorrentError::Io(reason));
            },
            None => {},
        }
        let k = self.find_record(tracker_url);
        let named: Option<u64> = match interval {
            Some(seconds) => Some(seconds as u64 * 1000),
            None => None,
        };
        if k < self.records.len() {
            self.records[k].last_announce = now;
            match named {
                Some(ms) => {
                    self.records[k].interval = Some(ms);
                },
                None => {},
            }
        } else {
            self.records.push(
                AnnounceRecord {
                    url: String::from_str(tracker_url),
                    last_announce: now,
                    interval: named,
                },
            );
        }
        let mut all: Vec<PeerInfo> = Vec::new();
        match peers {
            Some(mut list) => {
                all.append(&mut list);
            },
            None => {},
        }
        match peers6 {
            Some(mut list) => {
                all.append(&mut list);
            },
            None => {},
        }
        Ok(all)
    }
}

} // verus!
