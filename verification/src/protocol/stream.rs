//! Cutting a byte stream into messages, however the bytes arrive.

use crate::common::error::ProtocolError;
use crate::common::error::TorrentError;
use crate::protocol::decode_frame;
use crate::protocol::encode_frame;
use crate::protocol::well_formed;
use crate::protocol::wire::be_u32;
use crate::protocol::wire::buffer_advance;
use crate::protocol::wire::buffer_extend;
use crate::protocol::wire::buffer_from;
use crate::protocol::wire::buffer_len;
use crate::protocol::wire::buffer_new;
use crate::protocol::wire::buffer_prefix;
use crate::protocol::wire::get_u32;
use crate::protocol::wire::unread;
use crate::protocol::Frame;
use crate::protocol::Message;
use crate::protocol::MessageType;
use crate::protocol::MAX_MESSAGE_LENGTH;
use bytes::BytesMut;
use vstd::prelude::*;

verus! {

/// The number of bytes that the first frame of `buf` occupies, prefix
/// included.
pub open spec fn frame_len(buf: Seq<u8>) -> nat
    recommends
        buf.len() >= 4,
{
    4 + be_u32(buf) as nat
}

/// Whether `buf` holds the whole of an acceptable first frame.
pub open spec fn frame_ready(buf: Seq<u8>, limit: nat) -> bool {
    buf.len() >= 4 && be_u32(buf) <= limit && buf.len() - 4 >= be_u32(buf)
}

/// What one attempt to read a message from `buf` gives: nothing yet, a
/// frame, or an error. An announced length above `limit` is an error at
/// once; a frame of unknown kind is an error once it is complete.
pub open spec fn next_frame(buf: Seq<u8>, limit: nat) -> Result<Option<Frame>, TorrentError> {
    if buf.len() < 4 {
        Ok(None)
    } else if be_u32(buf) > limit {
        Err(TorrentError::Protocol(ProtocolError::MessageTooLarge { size: be_u32(buf) as usize }))
    } else if buf.len() - 4 < be_u32(buf) {
        Ok(None)
    } else {
        match decode_frame(buf, limit) {
            Ok(f) => Ok(Some(f)),
            Err(e) => Err(e),
        }
    }
}

/// What is left in `buf` after one attempt: a complete frame is taken out,
/// of unknown kind or not; anything else stays.
pub open spec fn after_frame(buf: Seq<u8>, limit: nat) -> Seq<u8> {
    if frame_ready(buf, limit) {
        buf.skip(frame_len(buf) as int)
    } else {
        buf
    }
}

/// The frames that repeated attempts read from `buf`, frames of unknown
/// kind left out.
pub open spec fn frames_of(buf: Seq<u8>, limit: nat) -> Seq<Frame>
    decreases buf.len(),
{
    if !frame_ready(buf, limit) {
        Seq::empty()
    } else {
        match decode_frame(buf, limit) {
            Ok(f) => seq![f] + frames_of(buf.skip(frame_len(buf) as int), limit),
            Err(_) => frames_of(buf.skip(frame_len(buf) as int), limit),
        }
    }
}

/// The bytes that repeated attempts leave in `buf`.
pub open spec fn rest_of(buf: Seq<u8>, limit: nat) -> Seq<u8>
    decreases buf.len(),
{
    if !frame_ready(buf, limit) {
        buf
    } else {
        rest_of(buf.skip(frame_len(buf) as int), limit)
    }
}

/// The bytes of a sequence of frames on the wire, one after the other.
pub open spec fn encode_all(frames: Seq<Frame>) -> Seq<u8>
    decreases frames.len(),
{
    if frames.len() == 0 {
        Seq::empty()
    } else {
        encode_frame(frames[0]) + encode_all(frames.skip(1))
    }
}

/// A complete first frame is read the same whatever follows it.
pub proof fn lemma_ready_prefix(a: Seq<u8>, b: Seq<u8>, limit: nat)
    requires
        frame_ready(a, limit),
    ensures
        frame_ready(a + b, limit),
        frame_len(a + b) == frame_len(a),
        decode_frame(a + b, limit) == decode_frame(a, limit),
        (a + b).skip(frame_len(a) as int) == a.skip(frame_len(a) as int) + b,
{
    let n = be_u32(a);
    assert(be_u32(a + b) == n);
    if n > 0 {
        assert((a + b)[4] == a[4]);
        assert((a + b).subrange(5, 4 + n) =~= a.subrange(5, 4 + n));
    }
    assert((a + b).skip(frame_len(a) as int) =~= a.skip(frame_len(a) as int) + b);
}

/// Chunking does not matter: reading all that can be read from `a`, then
/// appending `b` to what is left and reading on, gives the frames, and leaves
/// the bytes, that reading `a + b` at once does.
pub proof fn lemma_chunking(a: Seq<u8>, b: Seq<u8>, limit: nat)
    ensures
        frames_of(a + b, limit) == frames_of(a, limit) + frames_of(rest_of(a, limit) + b, limit),
        rest_of(a + b, limit) == rest_of(rest_of(a, limit) + b, limit),
    decreases a.len(),
{
    if !frame_ready(a, limit) {
        assert(frames_of(a, limit) + frames_of(a + b, limit) =~= frames_of(a + b, limit));
    } else {
        let k = frame_len(a) as int;
        lemma_ready_prefix(a, b, limit);
        lemma_chunking(a.skip(k), b, limit);
        let tail = frames_of(rest_of(a, limit) + b, limit);
        match decode_frame(a, limit) {
            Ok(f) => {
                assert(seq![f] + (frames_of(a.skip(k), limit) + tail) =~= (seq![f] + frames_of(
                    a.skip(k),
                    limit,
                )) + tail);
            },
            Err(_) => {},
        }
    }
}

/// A stream of encoded frames is read back as those frames, with nothing
/// left over.
pub proof fn lemma_stream_round_trip(frames: Seq<Frame>, limit: nat)
    requires
        forall|i: int| 0 <= i < frames.len() ==> well_formed(#[trigger] frames[i]),
        forall|i: int|
            0 <= i < frames.len() && (#[trigger] frames[i]).kind != MessageType::KeepAlive ==> 1
                + frames[i].payload.len() <= limit,
    ensures
        frames_of(encode_all(frames), limit) == frames,
        rest_of(encode_all(frames), limit) == Seq::<u8>::empty(),
    decreases frames.len(),
{
    if frames.len() == 0 {
        assert(frames_of(encode_all(frames), limit) =~= frames);
    } else {
        let f = frames[0];
        let tail = encode_all(frames.skip(1));
        let data = encode_all(frames);
        assert(well_formed(f));
        crate::protocol::lemma_frame_round_trip(f, tail, limit);
        if f.kind == MessageType::KeepAlive {
            assert(be_u32(data) == 0);
        } else {
            crate::protocol::wire::lemma_u32_be_round_trip((1 + f.payload.len()) as u32);
            assert(be_u32(data) == 1 + f.payload.len());
        }
        assert(encode_frame(f).len() == frame_len(data));
        assert(data.skip(frame_len(data) as int) =~= tail);
        assert forall|i: int| 0 <= i < frames.skip(1).len() implies well_formed(
            #[trigger] frames.skip(1)[i],
        ) by {
            assert(frames.skip(1)[i] == frames[i + 1]);
        }
        assert forall|i: int|
            0 <= i < frames.skip(1).len() && (#[trigger] frames.skip(1)[i]).kind
                != MessageType::KeepAlive implies 1 + frames.skip(1)[i].payload.len() <= limit by {
            assert(frames.skip(1)[i] == frames[i + 1]);
        }
        lemma_stream_round_trip(frames.skip(1), limit);
        assert(seq![f] + frames.skip(1) =~= frames);
    }
}

/// What one attempt gave, with the message replaced by what it is.
pub open spec fn attempted(r: Result<Option<Message>, TorrentError>) -> Result<
    Option<Frame>,
    TorrentError,
> {
    match r {
        Ok(Some(m)) => Ok(Some(m@)),
        Ok(None) => Ok(None),
        Err(e) => Err(e),
    }
}

/// The receiving side of a connection: bytes go in as they arrive, messages
/// come out as they are completed.
pub struct MessageBuffer {
    buffer: BytesMut,
    limit: usize,
}

impl View for MessageBuffer {
    type V = Seq<u8>;

    closed spec fn view(&self) -> Seq<u8> {
        unread(self.buffer)
    }
}

impl MessageBuffer {
    /// The largest length prefix that this buffer accepts.
    pub closed spec fn spec_limit(&self) -> nat {
        self.limit as nat
    }

    /// An empty buffer that accepts length prefixes up to
    /// `MAX_MESSAGE_LENGTH`.
    pub fn new() -> (b: MessageBuffer)
        ensures
            b@ == Seq::<u8>::empty(),
            b.spec_limit() == MAX_MESSAGE_LENGTH,
    {
        MessageBuffer { buffer: buffer_new(), limit: MAX_MESSAGE_LENGTH }
    }

    /// An empty buffer that accepts length prefixes up to `limit`.
    pub fn with_limit(limit: usize) -> (b: MessageBuffer)
        ensures
            b@ == Seq::<u8>::empty(),
            b.spec_limit() == limit,
    {
        MessageBuffer { buffer: buffer_new(), limit }
    }

    /// The number of bytes waiting.
    pub fn len(&self) -> (n: usize)
        ensures
            n == self@.len(),
    {
        buffer_len(&self.buffer)
    }

    /// Takes in bytes as they arrived.
    pub fn extend_from_slice(&mut self, chunk: &[u8])
        ensures
            final(self)@ == old(self)@ + chunk@,
            final(self).spec_limit() == old(self).spec_limit(),
    {
        buffer_extend(&mut self.buffer, chunk);
    }

    /// Reads one message if a whole one is waiting. A complete frame leaves the
    /// buffer, also when its kind is unknown and an error is returned for it;
    /// in every other case the buffer keeps what it held.
    pub fn try_parse_message(&mut self) -> (r: Result<Option<Message>, TorrentError>)
        ensures
            attempted(r) == next_frame(old(self)@, old(self).spec_limit()),
            final(self)@ == after_frame(old(self)@, old(self).spec_limit()),
            final(self).spec_limit() == old(self).spec_limit(),
    {
        let available = buffer_len(&self.buffer);
        if available < 4 {
            return Ok(None);
        }
        let head = buffer_prefix(&self.buffer, 4);
        let mut cursor = buffer_from(head.as_slice());
        let message_length = get_u32(&mut cursor) as usize;
        assert(message_length == be_u32(self@));
        if message_length == 0 {
            buffer_advance(&mut self.buffer, 4);
            return Ok(Some(Message::keep_alive()));
        }
        if message_length > self.limit {
            return Err(
                TorrentError::Protocol(ProtocolError::MessageTooLarge { size: message_length }),
            );
        }
        if available - 4 < message_length {
            return Ok(None);
        }
        let total_length = 4 + message_length;
        let message_data = buffer_prefix(&self.buffer, total_length);
        buffer_advance(&mut self.buffer, total_length);
        proof {
            let whole = old(self)@;
            assert(whole =~= message_data@ + whole.skip(total_length as int));
            lemma_ready_prefix(message_data@, whole.skip(total_length as int), self.limit as nat);
        }
        match Message::deserialize_with_limit(message_data.as_slice(), self.limit) {
            Ok(m) => Ok(Some(m)),
            Err(e) => Err(e),
        }
    }
}

} // verus!
