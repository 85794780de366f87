//! The files of a torrent seen as one run of bytes: reading and writing
//! through spans is reading and writing that run, so that what was written
//! to a part of it is read back from that part until it is written over.

use crate::common::types::total_length;
use crate::common::types::FileInfo;
use crate::file::layout::file_start;
use crate::file::layout::gathered;
use crate::file::layout::lemma_spans_length_last;
use crate::file::layout::lemma_spans_length_take;
use crate::file::layout::lemma_spans_of;
use crate::file::layout::scattered;
use crate::file::layout::spans_length;
use crate::file::layout::spans_of;
use crate::file::layout::spans_ordered;
use crate::file::layout::FileSpan;
use vstd::prelude::*;

verus! {

/// The contents of the files laid end to end.
pub open spec fn joined(contents: Seq<Seq<u8>>) -> Seq<u8>
    decreases contents.len(),
{
    if contents.len() == 0 {
        Seq::empty()
    } else {
        joined(contents.drop_last()) + contents.last()
    }
}

/// Whether every file holds as many bytes as it is declared to hold.
pub open spec fn sized(files: Seq<FileInfo>, contents: Seq<Seq<u8>>) -> bool {
    &&& contents.len() == files.len()
    &&& forall|k: int| 0 <= k < files.len() ==> (#[trigger] contents[k]).len() == files[k].length
}

/// The whole after `data` was written over it from `start` on.
pub open spec fn spliced(whole: Seq<u8>, start: nat, data: Seq<u8>) -> Seq<u8> {
    whole.subrange(0, start as int) + data + whole.subrange(
        (start + data.len()) as int,
        whole.len() as int,
    )
}

/// The files before a file hold as many bytes as lie before it in the
/// whole.
pub proof fn lemma_joined_start(files: Seq<FileInfo>, contents: Seq<Seq<u8>>, f: int)
    requires
        sized(files, contents),
        0 <= f <= files.len(),
    ensures
        joined(contents.take(f)).len() == file_start(files, f),
    decreases f,
{
    if f > 0 {
        lemma_joined_start(files, contents, f - 1);
        assert(contents.take(f).drop_last() =~= contents.take(f - 1));
        assert(files.take(f).drop_last() =~= files.take(f - 1));
        assert(contents.take(f).last() == contents[f - 1]);
        assert(files.take(f).last() == files[f - 1]);
    } else {
        assert(contents.take(0) =~= Seq::<Seq<u8>>::empty());
        assert(files.take(0) =~= Seq::<FileInfo>::empty());
    }
}

/// A file's contents are the part of the whole that begins where the files
/// before it end.
pub proof fn lemma_joined_file(contents: Seq<Seq<u8>>, f: int)
    requires
        0 <= f < contents.len(),
    ensures
        joined(contents.take(f)).len() + contents[f].len() <= joined(contents).len(),
        joined(contents).subrange(
            joined(contents.take(f)).len() as int,
            (joined(contents.take(f)).len() + contents[f].len()) as int,
        ) == contents[f],
    decreases contents.len(),
{
    let rest = contents.drop_last();
    if f == contents.len() - 1 {
        assert(contents.take(f) =~= rest);
        assert(joined(contents).subrange(
            joined(rest).len() as int,
            (joined(rest).len() + contents[f].len()) as int,
        ) =~= contents[f]);
    } else {
        lemma_joined_file(rest, f);
        assert(rest.take(f) =~= contents.take(f));
        assert(rest[f] == contents[f]);
        let s = joined(contents.take(f)).len() as int;
        assert(joined(contents).subrange(s, s + contents[f].len()) =~= joined(rest).subrange(
            s,
            s + contents[f].len(),
        ));
    }
}

/// Writing over a part of one file is writing over the part of the whole
/// that it stands for.
pub proof fn lemma_joined_update(contents: Seq<Seq<u8>>, f: int, offset: nat, part: Seq<u8>)
    requires
        0 <= f < contents.len(),
        offset + part.len() <= contents[f].len(),
    ensures
        joined(contents.take(f)).len() + contents[f].len() <= joined(contents).len(),
        joined(
            contents.update(
                f,
                contents[f].subrange(0, offset as int) + part + contents[f].subrange(
                    (offset + part.len()) as int,
                    contents[f].len() as int,
                ),
            ),
        ) == spliced(joined(contents), joined(contents.take(f)).len() + offset, part),
    decreases contents.len(),
{
    let rest = contents.drop_last();
    let new_file = contents[f].subrange(0, offset as int) + part + contents[f].subrange(
        (offset + part.len()) as int,
        contents[f].len() as int,
    );
    let after = contents.update(f, new_file);
    let s = joined(contents.take(f)).len();
    if f == contents.len() - 1 {
        assert(contents.take(f) =~= rest);
        assert(after.drop_last() =~= rest);
        assert(after.last() == new_file);
        assert(joined(after) =~= spliced(joined(contents), s + offset, part));
    } else {
        lemma_joined_update(rest, f, offset, part);
        assert(rest.take(f) =~= contents.take(f));
        assert(rest[f] == contents[f]);
        assert(after.drop_last() =~= rest.update(f, new_file));
        assert(after.last() == contents.last());
        assert(joined(after) =~= spliced(joined(contents), s + offset, part));
    }
}

/// Whether each span begins in the whole where the one before it ended,
/// the first at `start`.
pub open spec fn spans_follow(files: Seq<FileInfo>, spans: Seq<FileSpan>, start: nat) -> bool {
    forall|j: int|
        0 <= j < spans.len() ==> file_start(files, (#[trigger] spans[j]).file_index as int)
            + spans[j].file_offset == start + spans_length(spans.take(j))
}

/// The bytes read from the first `j` spans of a run are the part of the
/// whole that they cover.
proof fn lemma_gathered_run(
    files: Seq<FileInfo>,
    contents: Seq<Seq<u8>>,
    spans: Seq<FileSpan>,
    start: nat,
    j: int,
)
    requires
        sized(files, contents),
        spans_ordered(files, spans),
        spans_follow(files, spans, start),
        0 <= j <= spans.len(),
    ensures
        start + spans_length(spans.take(j)) <= joined(contents).len() || j == 0,
        gathered(contents, spans.take(j)) == joined(contents).subrange(
            start as int,
            (start + spans_length(spans.take(j))) as int,
        ) || (j == 0 && gathered(contents, spans.take(j)) == Seq::<u8>::empty()),
    decreases j,
{
    if j == 0 {
        assert(spans.take(0) =~= Seq::<FileSpan>::empty());
    } else {
        lemma_gathered_run(files, contents, spans, start, j - 1);
        let t = spans.take(j);
        let span = spans[j - 1];
        let f = span.file_index as int;
        assert(t.drop_last() =~= spans.take(j - 1));
        assert(t.last() == span);
        lemma_spans_length_last(t);
        lemma_joined_file(contents, f);
        lemma_joined_start(files, contents, f);
        let whole = joined(contents);
        let s = file_start(files, f);
        let done = spans_length(spans.take(j - 1));
        assert(s + span.file_offset == start + done);
        assert(contents[f].subrange(
            span.file_offset as int,
            span.file_offset + span.length,
        ) =~= whole.subrange(s + span.file_offset, s + span.file_offset + span.length));
        if j == 1 {
            assert(spans.take(0) =~= Seq::<FileSpan>::empty());
            assert(done == 0);
            assert(gathered(contents, t) =~= whole.subrange(start as int, start + span.length));
        } else {
            assert(gathered(contents, t) =~= whole.subrange(
                start as int,
                start + done + span.length,
            ));
        }
    }
}

/// Reading a run inside the whole through its spans gives that part of the
/// whole.
pub proof fn lemma_read_is_run(
    files: Seq<FileInfo>,
    contents: Seq<Seq<u8>>,
    start: nat,
    length: nat,
)
    requires
        files.len() <= usize::MAX,
        sized(files, contents),
        start + length <= total_length(files) <= u64::MAX,
    ensures
        joined(contents).len() == total_length(files),
        gathered(contents, spans_of(files, start, length)) == joined(contents).subrange(
            start as int,
            (start + length) as int,
        ),
{
    let spans = spans_of(files, start, length);
    lemma_spans_of(files, start, length);
    lemma_gathered_run(files, contents, spans, start, spans.len() as int);
    lemma_joined_start(files, contents, files.len() as int);
    assert(contents.take(files.len() as int) =~= contents);
    assert(files.take(files.len() as int) =~= files);
    assert(spans.take(spans.len() as int) =~= spans);
    if spans.len() == 0 {
        assert(length == 0);
        assert(joined(contents).subrange(start as int, (start + length) as int) =~= Seq::<u8>::empty());
    }
}

/// Writing over the first `j` spans of a run writes the bytes meant for them
/// over the part of the whole that they cover, and keeps every file as long
/// as it is declared.
proof fn lemma_scattered_run(
    files: Seq<FileInfo>,
    contents: Seq<Seq<u8>>,
    spans: Seq<FileSpan>,
    start: nat,
    data: Seq<u8>,
    j: int,
)
    requires
        sized(files, contents),
        spans_ordered(files, spans),
        spans_follow(files, spans, start),
        data.len() == spans_length(spans),
        start + data.len() <= total_length(files),
        0 <= j <= spans.len(),
    ensures
        sized(files, scattered(contents, spans.take(j), data)),
        spans_length(spans.take(j)) <= data.len(),
        joined(scattered(contents, spans.take(j), data)) == spliced(
            joined(contents),
            start,
            data.subrange(0, spans_length(spans.take(j)) as int),
        ),
    decreases j,
{
    lemma_joined_start(files, contents, files.len() as int);
    assert(contents.take(files.len() as int) =~= contents);
    assert(files.take(files.len() as int) =~= files);
    lemma_spans_length_take(spans, j);
    let whole = joined(contents);
    if j == 0 {
        assert(spans.take(0) =~= Seq::<FileSpan>::empty());
        assert(spliced(whole, start, data.subrange(0, 0)) =~= whole);
    } else {
        lemma_scattered_run(files, contents, spans, start, data, j - 1);
        let t = spans.take(j);
        let span = spans[j - 1];
        let f = span.file_index as int;
        assert(t.drop_last() =~= spans.take(j - 1));
        assert(t.last() == span);
        lemma_spans_length_last(t);
        let before = scattered(contents, spans.take(j - 1), data);
        let done = spans_length(spans.take(j - 1));
        let part = data.subrange(done as int, done + span.length);
        lemma_joined_start(files, before, f);
        lemma_joined_update(before, f, span.file_offset as nat, part);
        let after = scattered(contents, t, data);
        assert(after == before.update(
            f,
            before[f].subrange(0, span.file_offset as int) + part + before[f].subrange(
                span.file_offset + span.length,
                before[f].len() as int,
            ),
        ));
        assert(file_start(files, f) + span.file_offset == start + done);
        assert(joined(after) == spliced(joined(before), start + done, part));
        assert(spliced(
            spliced(whole, start, data.subrange(0, done as int)),
            start + done,
            part,
        ) =~= spliced(whole, start, data.subrange(0, done + span.length)));
    }
}

/// Writing a run inside the whole through its spans writes it over that
/// part of the whole, and keeps every file as long as it is declared.
pub proof fn lemma_write_is_splice(
    files: Seq<FileInfo>,
    contents: Seq<Seq<u8>>,
    start: nat,
    data: Seq<u8>,
)
    requires
        files.len() <= usize::MAX,
        sized(files, contents),
        start + data.len() <= total_length(files) <= u64::MAX,
    ensures
        sized(files, scattered(contents, spans_of(files, start, data.len()), data)),
        joined(scattered(contents, spans_of(files, start, data.len()), data)) == spliced(
            joined(contents),
            start,
            data,
        ),
{
    let spans = spans_of(files, start, data.len());
    lemma_spans_of(files, start, data.len());
    lemma_scattered_run(files, contents, spans, start, data, spans.len() as int);
    assert(spans.take(spans.len() as int) =~= spans);
    assert(data.subrange(0, data.len() as int) =~= data);
}

/// A run of bytes to write: where it begins in the whole, and the bytes.
pub struct Run {
    pub start: nat,
    pub data: Seq<u8>,
}

/// Whether two runs share no byte of the whole.
pub open spec fn apart(a: Run, b: Run) -> bool {
    a.start + a.data.len() <= b.start || b.start + b.data.len() <= a.start
}

/// The files' contents after the runs were written, one after the other.
pub open spec fn written(files: Seq<FileInfo>, contents: Seq<Seq<u8>>, runs: Seq<Run>) -> Seq<
    Seq<u8>,
>
    decreases runs.len(),
{
    if runs.len() == 0 {
        contents
    } else {
        scattered(
            written(files, contents, runs.drop_last()),
            spans_of(files, runs.last().start, runs.last().data.len()),
            runs.last().data,
        )
    }
}

/// Whether every run lies inside the whole.
pub open spec fn runs_inside(files: Seq<FileInfo>, runs: Seq<Run>) -> bool {
    forall|j: int|
        0 <= j < runs.len() ==> (#[trigger] runs[j]).start + runs[j].data.len() <= total_length(
            files,
        )
}

/// Writing runs inside the whole keeps every file as long as it is
/// declared; and a run that none of the later ones touches is still there
/// in the whole.
proof fn lemma_written_whole(
    files: Seq<FileInfo>,
    contents: Seq<Seq<u8>>,
    runs: Seq<Run>,
    i: int,
)
    requires
        files.len() <= usize::MAX,
        total_length(files) <= u64::MAX,
        sized(files, contents),
        runs_inside(files, runs),
        0 <= i < runs.len() ==> forall|j: int| i < j < runs.len() ==> apart(runs[i], #[trigger] runs[j]),
    ensures
        sized(files, written(files, contents, runs)),
        0 <= i < runs.len() ==> joined(written(files, contents, runs)).subrange(
            runs[i].start as int,
            (runs[i].start + runs[i].data.len()) as int,
        ) == runs[i].data,
    decreases runs.len(),
{
    if runs.len() > 0 {
        let init = runs.drop_last();
        let last = runs.last();
        assert forall|j: int| 0 <= j < init.len() implies (#[trigger] init[j]).start
            + init[j].data.len() <= total_length(files) by {
            assert(init[j] == runs[j]);
        }
        if 0 <= i < init.len() {
            assert forall|j: int| i < j < init.len() implies apart(init[i], #[trigger] init[j]) by {
                assert(init[j] == runs[j]);
                assert(apart(runs[i], runs[j]));
            }
        }
        lemma_written_whole(files, contents, init, i);
        let before = written(files, contents, init);
        assert(runs[runs.len() - 1] == last);
        lemma_write_is_splice(files, before, last.start, last.data);
        lemma_read_is_run(files, before, last.start, last.data.len());
        let after = written(files, contents, runs);
        if 0 <= i < runs.len() {
            if i == runs.len() - 1 {
                assert(joined(after).subrange(
                    last.start as int,
                    (last.start + last.data.len()) as int,
                ) =~= last.data);
            } else {
                assert(init[i] == runs[i]);
                assert(apart(runs[i], runs[runs.len() - 1]));
                assert(joined(after).subrange(
                    runs[i].start as int,
                    (runs[i].start + runs[i].data.len()) as int,
                ) =~= joined(before).subrange(
                    runs[i].start as int,
                    (runs[i].start + runs[i].data.len()) as int,
                ));
            }
        }
    }
}

/// What is written is what is read back, whatever else was written before
/// and after: where runs inside the whole were written one after the
/// other, reading where one of them was written gives its bytes, so long as
/// none of the later runs touches it. Pieces are such runs, and no two
/// pieces share a byte.
pub proof fn lemma_writes_read_back(
    files: Seq<FileInfo>,
    contents: Seq<Seq<u8>>,
    runs: Seq<Run>,
    i: int,
)
    requires
        files.len() <= usize::MAX,
        total_length(files) <= u64::MAX,
        sized(files, contents),
        runs_inside(files, runs),
        0 <= i < runs.len(),
        forall|j: int| i < j < runs.len() ==> apart(runs[i], #[trigger] runs[j]),
    ensures
        gathered(
            written(files, contents, runs),
            spans_of(files, runs[i].start, runs[i].data.len()),
        ) == runs[i].data,
{
    lemma_written_whole(files, contents, runs, i);
    lemma_read_is_run(files, written(files, contents, runs), runs[i].start, runs[i].data.len());
}

} // verus!
