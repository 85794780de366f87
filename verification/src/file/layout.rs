//! The files of a torrent laid end to end: which bytes of which file a run
//! of the whole stands for.

use crate::common::types::total_length;
use crate::common::types::FileInfo;
use vstd::prelude::*;

verus! {

/// A run of bytes inside one file.
#[derive(Debug, Clone, Copy, PartialEq, Eq, Structural)]
pub struct FileSpan {
    pub file_index: usize,
    pub file_offset: u64,
    pub length: u64,
}

/// The spans that the bytes from `pos` up to `end` of the whole fall into,
/// looked for from file `k` on, where file `k` begins at `base`. Files that
/// hold none of the bytes give no span.
pub open spec fn spans_from(files: Seq<FileInfo>, k: int, base: nat, pos: nat, end: nat) -> Seq<
    FileSpan,
>
    decreases files.len() - k,
{
    if k < 0 || k >= files.len() || pos >= end {
        Seq::empty()
    } else if pos >= base + files[k].length {
        spans_from(files, k + 1, base + files[k].length as nat, pos, end)
    } else {
        let stop = if end <= base + files[k].length {
            end
        } else {
            base + files[k].length as nat
        };
        seq![
            FileSpan {
                file_index: k as usize,
                file_offset: (pos - base) as u64,
                length: (stop - pos) as u64,
            },
        ] + spans_from(files, k + 1, base + files[k].length as nat, stop, end)
    }
}

/// The spans that `length` bytes of the whole, from `start` on, fall into.
pub open spec fn spans_of(files: Seq<FileInfo>, start: nat, length: nat) -> Seq<FileSpan> {
    spans_from(files, 0, 0, start, start + length)
}

/// The lengths of the spans summed up.
pub open spec fn spans_length(spans: Seq<FileSpan>) -> nat
    decreases spans.len(),
{
    if spans.len() == 0 {
        0
    } else {
        spans.first().length as nat + spans_length(spans.drop_first())
    }
}

/// Where a file begins in the whole.
pub open spec fn file_start(files: Seq<FileInfo>, k: int) -> nat {
    total_length(files.take(k))
}

/// Whether the spans lie in files one after the other, each inside its file
/// and none empty.
pub open spec fn spans_ordered(files: Seq<FileInfo>, spans: Seq<FileSpan>) -> bool {
    &&& forall|j: int|
        0 <= j < spans.len() ==> (#[trigger] spans[j]).file_index < files.len() && spans[j].length
            > 0 && spans[j].file_offset + spans[j].length
            <= files[spans[j].file_index as int].length
    &&& forall|i: int, j: int|
        0 <= i < j < spans.len() ==> (#[trigger] spans[i]).file_index < (
        #[trigger] spans[j]).file_index
}

/// The spans found from file `k` on cover the bytes asked for, in order and
/// without a gap: each begins in the whole where the one before it ended.
pub proof fn lemma_spans_from(files: Seq<FileInfo>, k: int, pos: nat, end: nat)
    requires
        0 <= k <= files.len() <= usize::MAX,
        total_length(files) <= u64::MAX,
        file_start(files, k) <= pos <= end <= total_length(files) || pos >= end,
    ensures
        spans_length(spans_from(files, k, file_start(files, k), pos, end)) == if pos < end {
            (end - pos) as nat
        } else {
            0nat
        },
        spans_ordered(files, spans_from(files, k, file_start(files, k), pos, end)),
        forall|j: int|
            0 <= j < spans_from(files, k, file_start(files, k), pos, end).len() ==> (
            #[trigger] spans_from(files, k, file_start(files, k), pos, end)[j]).file_index >= k,
        forall|j: int|
            0 <= j < spans_from(files, k, file_start(files, k), pos, end).len() ==> file_start(
                files,
                (#[trigger] spans_from(files, k, file_start(files, k), pos, end)[j]).file_index as int,
            ) + spans_from(files, k, file_start(files, k), pos, end)[j].file_offset == pos
                + spans_length(spans_from(files, k, file_start(files, k), pos, end).take(j)),
    decreases files.len() - k,
{
    let base = file_start(files, k);
    let s = spans_from(files, k, base, pos, end);
    if k >= files.len() || pos >= end {
        if pos < end {
            assert(files.take(k) =~= files);
        }
    } else {
        assert(files.take(k + 1).drop_last() =~= files.take(k));
        let next = base + files[k].length as nat;
        assert(next == file_start(files, k + 1));
        crate::common::types::lemma_total_length_prefix(files, k + 1);
        if pos >= next {
            lemma_spans_from(files, k + 1, pos, end);
        } else {
            let stop = if end <= next {
                end
            } else {
                next
            };
            lemma_spans_from(files, k + 1, stop, end);
            let rest = spans_from(files, k + 1, next, stop, end);
            let head = FileSpan {
                file_index: k as usize,
                file_offset: (pos - base) as u64,
                length: (stop - pos) as u64,
            };
            assert(s == seq![head] + rest);
            assert(s.drop_first() =~= rest);
            assert(s[0] == head);
            assert(head.file_offset == pos - base);
            assert(head.length == stop - pos);
            assert(head.file_index == k);
            assert forall|j: int| 0 <= j < s.len() implies file_start(
                files,
                (#[trigger] s[j]).file_index as int,
            ) + s[j].file_offset == pos + spans_length(s.take(j)) by {
                if j == 0 {
                    assert(s.take(0) =~= Seq::<FileSpan>::empty());
                } else {
                    assert(s[j] == rest[j - 1]);
                    assert(s.take(j).drop_first() =~= rest.take(j - 1));
                    assert(s.take(j).first() == head);
                }
            }
            assert forall|i: int, j: int| 0 <= i < j < s.len() implies (#[trigger] s[i]).file_index
                < (#[trigger] s[j]).file_index by {
                assert(s[j] == rest[j - 1]);
                if i > 0 {
                    assert(s[i] == rest[i - 1]);
                }
            }
            assert forall|j: int| 0 <= j < s.len() implies (#[trigger] s[j]).file_index
                < files.len() && s[j].length > 0 && s[j].file_offset + s[j].length
                <= files[s[j].file_index as int].length by {
                if j > 0 {
                    assert(s[j] == rest[j - 1]);
                }
            }
        }
    }
}

/// The spans of a run inside the whole cover it: their lengths sum to its
/// length, each lies inside its file, and each begins in the whole where the
/// one before it ended.
pub proof fn lemma_spans_of(files: Seq<FileInfo>, start: nat, length: nat)
    requires
        start + length <= total_length(files) <= u64::MAX,
        files.len() <= usize::MAX,
    ensures
        spans_length(spans_of(files, start, length)) == length,
        spans_ordered(files, spans_of(files, start, length)),
        forall|j: int|
            0 <= j < spans_of(files, start, length).len() ==> file_start(
                files,
                (#[trigger] spans_of(files, start, length)[j]).file_index as int,
            ) + spans_of(files, start, length)[j].file_offset == start + spans_length(
                spans_of(files, start, length).take(j),
            ),
{
    assert(files.take(0) =~= Seq::<FileInfo>::empty());
    lemma_spans_from(files, 0, start, start + length);
}

/// The spans that `length` bytes of the whole, from `start` on, fall into.
pub fn file_spans(files: &Vec<FileInfo>, start: u64, length: u64) -> (spans: Vec<FileSpan>)
    requires
        start + length <= total_length(files@) <= u64::MAX,
    ensures
        spans@ == spans_of(files@, start as nat, length as nat),
{
    let end: u64 = start + length;
    let mut spans: Vec<FileSpan> = Vec::new();
    let mut k: usize = 0;
    let mut base: u64 = 0;
    let mut pos: u64 = start;
    assert(files@.take(0) =~= Seq::<FileInfo>::empty());
    while k < files.len() && pos < end
        invariant
            k <= files@.len(),
            end == start + length,
            end <= total_length(files@) <= u64::MAX,
            base == file_start(files@, k as int),
            pos <= end,
            pos < end ==> base <= pos,
            spans@ + spans_from(files@, k as int, base as nat, pos as nat, end as nat) == spans_of(
                files@,
                start as nat,
                length as nat,
            ),
        decreases files@.len() - k,
    {
        proof {
            assert(files@.take(k + 1).drop_last() =~= files@.take(k as int));
            crate::common::types::lemma_total_length_prefix(files@, k + 1);
        }
        let file_length = files[k].length;
        let file_end: u64 = base + file_length;
        if pos < file_end {
            let stop = if end <= file_end {
                end
            } else {
                file_end
            };
            let span = FileSpan { file_index: k, file_offset: pos - base, length: stop - pos };
            let ghost rest = spans_from(files@, k + 1, file_end as nat, stop as nat, end as nat);
            assert(spans@.push(span) + rest =~= spans@ + (seq![span] + rest));
            spans.push(span);
            pos = stop;
        }
        base = file_end;
        k += 1;
    }
    assert(spans_from(files@, k as int, base as nat, pos as nat, end as nat) =~= Seq::<
        FileSpan,
    >::empty());
    assert(spans@ + Seq::<FileSpan>::empty() =~= spans@);
    spans
}

/// The bytes that the spans stand for in the files' contents, one span after
/// the other.
pub open spec fn gathered(contents: Seq<Seq<u8>>, spans: Seq<FileSpan>) -> Seq<u8>
    decreases spans.len(),
{
    if spans.len() == 0 {
        Seq::empty()
    } else {
        gathered(contents, spans.drop_last()) + contents[spans.last().file_index as int].subrange(
            spans.last().file_offset as int,
            spans.last().file_offset + spans.last().length,
        )
    }
}

/// The files' contents after `data` was written over the spans, one span
/// after the other.
pub open spec fn scattered(contents: Seq<Seq<u8>>, spans: Seq<FileSpan>, data: Seq<u8>) -> Seq<
    Seq<u8>,
>
    decreases spans.len(),
{
    if spans.len() == 0 {
        contents
    } else {
        let before = scattered(contents, spans.drop_last(), data);
        let last = spans.last();
        let done = spans_length(spans.drop_last());
        before.update(
            last.file_index as int,
            before[last.file_index as int].subrange(0, last.file_offset as int) + data.subrange(
                done as int,
                done + last.length,
            ) + before[last.file_index as int].subrange(
                last.file_offset + last.length,
                before[last.file_index as int].len() as int,
            ),
        )
    }
}

/// Whether the spans lie inside the contents, in files one after the other.
pub open spec fn spans_fit(contents: Seq<Seq<u8>>, spans: Seq<FileSpan>) -> bool {
    &&& forall|j: int|
        0 <= j < spans.len() ==> (#[trigger] spans[j]).file_index < contents.len()
            && spans[j].file_offset + spans[j].length <= contents[spans[j].file_index as int].len()
    &&& forall|i: int, j: int|
        0 <= i < j < spans.len() ==> (#[trigger] spans[i]).file_index < (
        #[trigger] spans[j]).file_index
}

/// The length of the spans grows by the last span.
pub proof fn lemma_spans_length_last(spans: Seq<FileSpan>)
    requires
        spans.len() > 0,
    ensures
        spans_length(spans) == spans_length(spans.drop_last()) + spans.last().length,
    decreases spans.len(),
{
    if spans.len() > 1 {
        lemma_spans_length_last(spans.drop_first());
        assert(spans.drop_first().drop_last() =~= spans.drop_last().drop_first());
        assert(spans.drop_last().first() == spans.first());
    } else {
        assert(spans.drop_last() =~= Seq::<FileSpan>::empty());
        assert(spans.drop_first() =~= Seq::<FileSpan>::empty());
    }
}

/// Writing keeps every file as long as it was, and touches no file outside
/// the spans.
pub proof fn lemma_scattered_shape(contents: Seq<Seq<u8>>, spans: Seq<FileSpan>, data: Seq<u8>)
    requires
        spans_fit(contents, spans),
        data.len() == spans_length(spans),
    ensures
        scattered(contents, spans, data).len() == contents.len(),
        forall|f: int|
            0 <= f < contents.len() ==> (#[trigger] scattered(contents, spans, data)[f]).len()
                == contents[f].len(),
        forall|f: int|
            0 <= f < contents.len() && (forall|j: int|
                0 <= j < spans.len() ==> (#[trigger] spans[j]).file_index != f) ==> scattered(
                contents,
                spans,
                data,
            )[f] == contents[f],
    decreases spans.len(),
{
    if spans.len() > 0 {
        let init = spans.drop_last();
        lemma_spans_length_last(spans);
        assert forall|j: int| 0 <= j < init.len() implies (#[trigger] init[j]).file_index
            < contents.len() && init[j].file_offset + init[j].length
            <= contents[init[j].file_index as int].len() by {
            assert(init[j] == spans[j]);
        }
        assert forall|i: int, j: int| 0 <= i < j < init.len() implies (#[trigger] init[i]).file_index
            < (#[trigger] init[j]).file_index by {
            assert(init[i] == spans[i] && init[j] == spans[j]);
        }
        let prefix = data.subrange(0, spans_length(init) as int);
        lemma_scattered_prefix(contents, init, data, prefix);
        lemma_scattered_shape(contents, init, prefix);
        let after = scattered(contents, spans, data);
        assert forall|f: int|
            0 <= f < contents.len() && (forall|j: int|
                0 <= j < spans.len() ==> (#[trigger] spans[j]).file_index != f) implies after[f]
            == contents[f] by {
            assert(spans[spans.len() - 1].file_index != f);
            assert forall|j: int| 0 <= j < init.len() implies (#[trigger] init[j]).file_index
                != f by {
                assert(init[j] == spans[j]);
            }
        }
    }
}

/// Writing over spans reads only as much of the data as the spans are long.
pub proof fn lemma_scattered_prefix(
    contents: Seq<Seq<u8>>,
    spans: Seq<FileSpan>,
    data: Seq<u8>,
    prefix: Seq<u8>,
)
    requires
        prefix.len() >= spans_length(spans),
        data.len() >= prefix.len(),
        prefix == data.subrange(0, prefix.len() as int),
    ensures
        scattered(contents, spans, data) == scattered(contents, spans, prefix),
    decreases spans.len(),
{
    if spans.len() > 0 {
        lemma_spans_length_last(spans);
        lemma_scattered_prefix(contents, spans.drop_last(), data, prefix);
        let done = spans_length(spans.drop_last());
        assert(data.subrange(done as int, done + spans.last().length) =~= prefix.subrange(
            done as int,
            done + spans.last().length,
        ));
    }
}

/// What was written over the spans is what is read back from them.
pub proof fn lemma_gather_scattered(contents: Seq<Seq<u8>>, spans: Seq<FileSpan>, data: Seq<u8>)
    requires
        spans_fit(contents, spans),
        data.len() == spans_length(spans),
    ensures
        gathered(scattered(contents, spans, data), spans) == data,
    decreases spans.len(),
{
    if spans.len() == 0 {
        assert(data =~= Seq::<u8>::empty());
    } else {
        let init = spans.drop_last();
        let last = spans.last();
        lemma_spans_length_last(spans);
        let done = spans_length(init);
        let prefix = data.subrange(0, done as int);
        assert forall|j: int| 0 <= j < init.len() implies (#[trigger] init[j]).file_index
            < contents.len() && init[j].file_offset + init[j].length
            <= contents[init[j].file_index as int].len() by {
            assert(init[j] == spans[j]);
        }
        assert forall|i: int, j: int| 0 <= i < j < init.len() implies (#[trigger] init[i]).file_index
            < (#[trigger] init[j]).file_index by {
            assert(init[i] == spans[i] && init[j] == spans[j]);
        }
        lemma_scattered_prefix(contents, init, data, prefix);
        lemma_gather_scattered(contents, init, prefix);
        lemma_scattered_shape(contents, init, prefix);
        let before = scattered(contents, init, data);
        let after = scattered(contents, spans, data);
        assert(spans[spans.len() - 1] == last);
        lemma_gathered_same(before, after, init, last.file_index as int);
        assert(after[last.file_index as int].subrange(
            last.file_offset as int,
            last.file_offset + last.length,
        ) =~= data.subrange(done as int, done + last.length));
        assert(prefix + data.subrange(done as int, done + last.length) =~= data);
    }
}

/// Reading spans gives the same from contents that differ only in a file
/// behind all of them.
proof fn lemma_gathered_same(a: Seq<Seq<u8>>, b: Seq<Seq<u8>>, spans: Seq<FileSpan>, f: int)
    requires
        a.len() == b.len(),
        forall|g: int| 0 <= g < a.len() && g != f ==> a[g] == b[g],
        forall|j: int|
            0 <= j < spans.len() ==> (#[trigger] spans[j]).file_index < a.len()
                && spans[j].file_index != f,
    ensures
        gathered(a, spans) == gathered(b, spans),
    decreases spans.len(),
{
    if spans.len() > 0 {
        assert forall|j: int| 0 <= j < spans.drop_last().len() implies (
        #[trigger] spans.drop_last()[j]).file_index < a.len() && spans.drop_last()[j].file_index
            != f by {
            assert(spans.drop_last()[j] == spans[j]);
        }
        lemma_gathered_same(a, b, spans.drop_last(), f);
        assert(spans[spans.len() - 1].file_index != f);
    }
}

/// Where every file is as long as it is declared, the spans of a run inside
/// the whole lie inside the contents.
pub proof fn lemma_spans_fit(files: Seq<FileInfo>, contents: Seq<Seq<u8>>, spans: Seq<FileSpan>)
    requires
        contents.len() == files.len(),
        forall|k: int| 0 <= k < files.len() ==> (#[trigger] contents[k]).len() == files[k].length,
        spans_ordered(files, spans),
    ensures
        spans_fit(contents, spans),
{
}

/// What is written to a run inside the whole is what is read back from it:
/// where every file is as long as it is declared, writing `data` to the
/// bytes from `start` on and reading as many bytes from `start` on gives
/// `data`.
pub proof fn lemma_layout_round_trip(
    files: Seq<FileInfo>,
    contents: Seq<Seq<u8>>,
    start: nat,
    data: Seq<u8>,
)
    requires
        files.len() <= usize::MAX,
        contents.len() == files.len(),
        forall|k: int| 0 <= k < files.len() ==> (#[trigger] contents[k]).len() == files[k].length,
        start + data.len() <= total_length(files) <= u64::MAX,
    ensures
        gathered(
            scattered(contents, spans_of(files, start, data.len()), data),
            spans_of(files, start, data.len()),
        ) == data,
{
    let spans = spans_of(files, start, data.len());
    lemma_spans_of(files, start, data.len());
    lemma_spans_fit(files, contents, spans);
    lemma_gather_scattered(contents, spans, data);
}

/// The contents of the files, each as the bytes it holds.
pub open spec fn contents_of(files: &Vec<Vec<u8>>) -> Seq<Seq<u8>> {
    Seq::new(files@.len(), |f: int| files@[f]@)
}

/// Reads the bytes that the spans stand for from files held in memory.
pub fn gather(files: &Vec<Vec<u8>>, spans: &Vec<FileSpan>) -> (data: Vec<u8>)
    requires
        spans_fit(contents_of(files), spans@),
    ensures
        data@ == gathered(contents_of(files), spans@),
{
    let mut data: Vec<u8> = Vec::new();
    let mut j: usize = 0;
    assert(spans@.take(0) =~= Seq::<FileSpan>::empty());
    while j < spans.len()
        invariant
            j <= spans@.len(),
            spans_fit(contents_of(files), spans@),
            data@ == gathered(contents_of(files), spans@.take(j as int)),
        decreases spans@.len() - j,
    {
        let span = spans[j];
        assert(spans@[j as int].file_index < contents_of(files).len());
        let file = &files[span.file_index];
        assert(contents_of(files)[span.file_index as int] == file@);
        let file_length = file.len();
        assert(span.file_offset + span.length <= file_length <= usize::MAX);
        let from = span.file_offset as usize;
        let to = (span.file_offset + span.length) as usize;
        let part = vstd::slice::slice_subrange(file.as_slice(), from, to);
        let ghost before = data@;
        data.extend_from_slice(part);
        assert(data@ =~= before + part@);
        assert(spans@.take(j + 1).drop_last() =~= spans@.take(j as int));
        assert(spans@.take(j + 1).last() == span);
        j += 1;
    }
    assert(spans@.take(j as int) =~= spans@);
    data
}

/// Writes `data` over the spans in files held in memory.
pub fn scatter(files: &mut Vec<Vec<u8>>, spans: &Vec<FileSpan>, data: &[u8])
    requires
        spans_fit(contents_of(old(files)), spans@),
        data@.len() == spans_length(spans@),
    ensures
        contents_of(final(files)) == scattered(contents_of(old(files)), spans@, data@),
{
    let mut j: usize = 0;
    let mut done: usize = 0;
    assert(spans@.take(0) =~= Seq::<FileSpan>::empty());
    while j < spans.len()
        invariant
            j <= spans@.len(),
            spans_fit(contents_of(old(files)), spans@),
            data@.len() == spans_length(spans@),
            done == spans_length(spans@.take(j as int)),
            done <= data@.len(),
            files@.len() == old(files)@.len(),
            forall|f: int| 0 <= f < files@.len() ==> (#[trigger] files@[f])@.len() == old(files)@[f]@.len(),
            contents_of(files) == scattered(contents_of(old(files)), spans@.take(j as int), data@),
        decreases spans@.len() - j,
    {
        let span = spans[j];
        let ghost before = contents_of(files);
        proof {
            assert(spans@.take(j + 1).drop_last() =~= spans@.take(j as int));
            assert(spans@.take(j + 1).last() == span);
            lemma_spans_length_last(spans@.take(j + 1));
            lemma_spans_length_take(spans@, j + 1);
        }
        assert(spans@[j as int].file_index < contents_of(old(files)).len());
        assert(span.file_offset + span.length <= contents_of(old(files))[span.file_index as int].len());
        assert(before[span.file_index as int] == files@[span.file_index as int]@);
        let old_file = &files[span.file_index];
        let file_length = old_file.len();
        let data_length = data.len();
        assert(span.file_offset + span.length <= file_length <= usize::MAX);
        assert(done + span.length <= data_length <= usize::MAX);
        let from = span.file_offset as usize;
        let length = span.length as usize;
        let mut written: Vec<u8> = Vec::new();
        written.extend_from_slice(vstd::slice::slice_subrange(old_file.as_slice(), 0, from));
        written.extend_from_slice(vstd::slice::slice_subrange(data, done, done + length));
        written.extend_from_slice(
            vstd::slice::slice_subrange(old_file.as_slice(), from + length, old_file.len()),
        );
        assert(written@ =~= before[span.file_index as int].subrange(0, from as int) + data@.subrange(
            done as int,
            done + length,
        ) + before[span.file_index as int].subrange(
            from + length,
            before[span.file_index as int].len() as int,
        ));
        files[span.file_index] = written;
        assert(contents_of(files) =~= before.update(span.file_index as int, written@));
        done = done + length;
        j += 1;
    }
    assert(spans@.take(j as int) =~= spans@);
}

/// The spans up to a position are no longer than all of them.
pub proof fn lemma_spans_length_take(spans: Seq<FileSpan>, j: int)
    requires
        0 <= j <= spans.len(),
    ensures
        spans_length(spans.take(j)) <= spans_length(spans),
    decreases spans.len() - j,
{
    if j < spans.len() {
        lemma_spans_length_take(spans, j + 1);
        lemma_spans_length_last(spans.take(j + 1));
        assert(spans.take(j + 1).drop_last() =~= spans.take(j));
    } else {
        assert(spans.take(j) =~= spans);
    }
}

} // verus!
