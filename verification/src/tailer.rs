//! Following log files: from where each is read next, and which of its lines count.

use vstd::prelude::*;

use crate::journald::{entries_view, EntryView, LogEntry};
use crate::text::{
    chars_of, is_blank, is_space, line_stands_alone, lines, lines_of, lines_of_joined, pieces, same,
    string_of, trim, trim_end_of, trim_of, trim_undoes_padding, trimmed_ends,
};

verus! {

/// How far a file has been read.
pub struct Mark {
    path: String,
    offset: u64,
}

impl View for Mark {
    type V = (Seq<char>, u64);

    closed spec fn view(&self) -> (Seq<char>, u64) {
        (self.path@, self.offset)
    }
}

/// The mathematical form of a list of marks.
pub open spec fn marks_view(marks: Seq<Mark>) -> Seq<(Seq<char>, u64)> {
    marks.map_values(|m: Mark| m@)
}

/// The log files that are followed, and how far each has been read.
pub struct LogTailer {
    marks: Vec<Mark>,
}

impl View for LogTailer {
    type V = Seq<(Seq<char>, u64)>;

    closed spec fn view(&self) -> Seq<(Seq<char>, u64)> {
        marks_view(self.marks@)
    }
}

/// A file and its length in bytes, where that is known.
pub struct FileLength {
    pub path: String,
    pub len: Option<u64>,
}

/// What was read of a file: its length in bytes, and the text from where it was
/// to be read on, where that could be read.
pub struct FileRead {
    pub path: String,
    pub len: u64,
    pub text: Option<String>,
}

/// How far the file at `path` has been read.
pub open spec fn offset_of(marks: Seq<(Seq<char>, u64)>, path: Seq<char>) -> Option<u64>
    decreases marks.len(),
{
    if marks.len() == 0 {
        None
    } else if marks.first().0 == path {
        Some(marks.first().1)
    } else {
        offset_of(marks.drop_first(), path)
    }
}

/// The marks when the file at `path` has been read up to `offset`.
pub open spec fn with_offset(marks: Seq<(Seq<char>, u64)>, path: Seq<char>, offset: u64) -> Seq<
    (Seq<char>, u64),
>
    decreases marks.len(),
{
    if marks.len() == 0 {
        seq![(path, offset)]
    } else if marks.first().0 == path {
        marks.update(0, (path, offset))
    } else {
        seq![marks.first()] + with_offset(marks.drop_first(), path, offset)
    }
}

/// The marks at the start: every file whose length is known counts as read.
pub open spec fn marks_of(files: Seq<FileLength>) -> Seq<(Seq<char>, u64)>
    decreases files.len(),
{
    if files.len() == 0 {
        Seq::empty()
    } else {
        let before = marks_of(files.drop_last());
        match files.last().len {
            Some(len) => with_offset(before, files.last().path@, len),
            None => before,
        }
    }
}

/// From where a file of `len` bytes is read next: from where it was left, or
/// from its start where it has become shorter than that.
pub open spec fn resume_of(marks: Seq<(Seq<char>, u64)>, path: Seq<char>, len: u64) -> u64 {
    match offset_of(marks, path) {
        Some(offset) => if len < offset {
            0
        } else {
            offset
        },
        None => 0,
    }
}

/// The lines of a text that count: trimmed, and not empty.
pub open spec fn tailed_of(text: Seq<char>) -> Seq<Seq<char>> {
    lines_of(text).map_values(|line: Seq<char>| trim_of(line)).filter(
        |line: Seq<char>| line.len() > 0,
    )
}

/// The entries that were read, file by file.
pub open spec fn entries_of(reads: Seq<FileRead>) -> Seq<(Seq<char>, Seq<char>)>
    decreases reads.len(),
{
    if reads.len() == 0 {
        Seq::empty()
    } else {
        let before = entries_of(reads.drop_last());
        match reads.last().text {
            Some(text) => before + tailed_of(text@).map_values(
                |line: Seq<char>| (reads.last().path@, line),
            ),
            None => before,
        }
    }
}

/// The marks after files were read: those that could be read are read to their end.
pub open spec fn marks_after(marks: Seq<(Seq<char>, u64)>, reads: Seq<FileRead>) -> Seq<
    (Seq<char>, u64),
>
    decreases reads.len(),
{
    if reads.len() == 0 {
        marks
    } else {
        let before = marks_after(marks, reads.drop_last());
        match reads.last().text {
            Some(_) => with_offset(before, reads.last().path@, reads.last().len),
            None => before,
        }
    }
}

/// A list of entries as pairs of texts.
pub open spec fn pairs_view(entries: Seq<(String, String)>) -> Seq<(Seq<char>, Seq<char>)> {
    entries.map_values(|e: (String, String)| (e.0@, e.1@))
}

proof fn lemma_with_offset(
    marks: Seq<(Seq<char>, u64)>,
    path: Seq<char>,
    offset: u64,
    i: int,
)
    requires
        0 <= i <= marks.len(),
        forall|k: int| 0 <= k < i ==> (#[trigger] marks[k]).0 != path,
        i < marks.len() ==> marks[i].0 == path,
    ensures
        with_offset(marks, path, offset) == if i < marks.len() {
            marks.update(i, (path, offset))
        } else {
            marks.push((path, offset))
        },
        offset_of(marks, path) == if i < marks.len() {
            Some(marks[i].1)
        } else {
            None
        },
    decreases marks.len(),
{
    if i > 0 {
        assert(marks[0].0 != path);
        let rest = marks.drop_first();
        assert forall|k: int| 0 <= k < i - 1 implies (#[trigger] rest[k]).0 != path by {
            assert(marks[k + 1] == rest[k]);
        }
        lemma_with_offset(rest, path, offset, i - 1);
        assert(with_offset(marks, path, offset) =~= if i < marks.len() {
            marks.update(i, (path, offset))
        } else {
            marks.push((path, offset))
        });
    } else if marks.len() == 0 {
        assert(marks.push((path, offset)) =~= seq![(path, offset)]);
    }
}

fn push_lines(out: &mut Vec<(String, String)>, path: &str, text: &str)
    ensures
        pairs_view(final(out)@) == pairs_view(old(out)@) + tailed_of(text@).map_values(
            |line: Seq<char>| (path@, line),
        ),
{
    let chars = chars_of(text);
    let all = lines(chars.as_slice());
    let ghost start = pairs_view(out@);
    let ghost trimmed = lines_of(text@).map_values(|line: Seq<char>| trim_of(line));
    let ghost keep = |line: Seq<char>| line.len() > 0;
    let ghost named = |line: Seq<char>| (path@, line);
    let mut i: usize = 0;
    reveal(Seq::filter);
    assert(pieces(all@).len() == all@.len());
    assert(pairs_view(out@) =~= start + trimmed.take(0).filter(keep).map_values(named));
    while i < all.len()
        invariant
            i <= all.len(),
            pieces(all@) == lines_of(text@),
            trimmed == lines_of(text@).map_values(|line: Seq<char>| trim_of(line)),
            keep == (|line: Seq<char>| line.len() > 0),
            named == (|line: Seq<char>| (path@, line)),
            pairs_view(out@) == start + trimmed.take(i as int).filter(keep).map_values(named),
        decreases all.len() - i,
    {
        reveal(Seq::filter);
        let line = trim(all[i]);
        let ghost before = out@;
        let ghost kept = trimmed.take(i as int).filter(keep);
        assert(pieces(all@)[i as int] == all@[i as int]@);
        assert(trimmed[i as int] == line@);
        assert(trimmed.take(i + 1).drop_last() =~= trimmed.take(i as int));
        assert(trimmed.take(i + 1).last() == line@);
        if line.len() > 0 {
            out.push((path.to_string(), string_of(line)));
            assert(trimmed.take(i + 1).filter(keep) == kept.push(line@));
            assert(pairs_view(out@) =~= pairs_view(before).push((path@, line@)));
            assert(kept.push(line@).map_values(named) =~= kept.map_values(named).push(
                (path@, line@),
            ));
            assert(pairs_view(out@) =~= start + kept.push(line@).map_values(named));
        } else {
            assert(trimmed.take(i + 1).filter(keep) == kept);
        }
        i += 1;
    }
    assert(trimmed.take(all@.len() as int) =~= trimmed);
}

impl LogTailer {
    /// Follows the given files from where they end now.
    pub fn new(files: &[FileLength]) -> (tailer: LogTailer)
        ensures
            tailer@ == marks_of(files@),
    {
        let mut tailer = LogTailer { marks: Vec::new() };
        let mut i: usize = 0;
        assert(files@.take(0) =~= Seq::empty());
        assert(tailer@ =~= Seq::empty());
        while i < files.len()
            invariant
                i <= files.len(),
                tailer@ == marks_of(files@.take(i as int)),
            decreases files.len() - i,
        {
            assert(files@.take(i + 1).drop_last() =~= files@.take(i as int));
            if let Some(len) = files[i].len {
                tailer.put(files[i].path.as_str(), len);
            }
            i += 1;
        }
        assert(files@.take(files@.len() as int) =~= files@);
        tailer
    }

    fn position(&self, path: &str) -> (at: usize)
        ensures
            at <= self.marks@.len(),
            forall|k: int| 0 <= k < at ==> (#[trigger] self@[k]).0 != path@,
            at < self.marks@.len() ==> self@[at as int].0 == path@,
    {
        let mut i: usize = 0;
        while i < self.marks.len()
            invariant
                i <= self.marks.len(),
                forall|k: int| 0 <= k < i ==> (#[trigger] self@[k]).0 != path@,
            decreases self.marks.len() - i,
        {
            assert(self@[i as int] == self.marks@[i as int]@);
            if same(self.marks[i].path.as_str(), path) {
                return i;
            }
            i += 1;
        }
        i
    }

    fn put(&mut self, path: &str, offset: u64)
        ensures
            final(self)@ == with_offset(old(self)@, path@, offset),
    {
        let at: usize = self.position(path);
        let ghost before = self@;
        assert(before.len() == self.marks@.len());
        proof {
            lemma_with_offset(before, path@, offset, at as int);
        }
        let mark = Mark { path: path.to_string(), offset };
        if at < self.marks.len() {
            self.marks.set(at, mark);
            assert(self@ =~= before.update(at as int, (path@, offset)));
        } else {
            self.marks.push(mark);
            assert(self@ =~= before.push((path@, offset)));
        }
    }

    /// The files that are followed.
    pub fn paths(&self) -> (out: Vec<String>)
        ensures
            out@.map_values(|s: String| s@) == self@.map_values(|m: (Seq<char>, u64)| m.0),
    {
        let mut out: Vec<String> = Vec::new();
        let mut i: usize = 0;
        while i < self.marks.len()
            invariant
                i <= self.marks.len(),
                out@.len() == i,
                forall|k: int| 0 <= k < i ==> (#[trigger] out@[k])@ == self@[k].0,
            decreases self.marks.len() - i,
        {
            assert(self@[i as int] == self.marks@[i as int]@);
            out.push(self.marks[i].path.clone());
            i += 1;
        }
        assert(out@.map_values(|s: String| s@) =~= self@.map_values(
            |m: (Seq<char>, u64)| m.0,
        ));
        out
    }

    /// From where a file of `len` bytes is to be read.
    pub fn resume(&self, path: &str, len: u64) -> (at: u64)
        ensures
            at == resume_of(self@, path@, len),
    {
        let at: usize = self.position(path);
        assert(self@.len() == self.marks@.len());
        proof {
            lemma_with_offset(self@, path@, 0, at as int);
        }
        if at < self.marks.len() {
            assert(self@[at as int] == self.marks@[at as int]@);
            let offset: u64 = self.marks[at].offset;
            if len < offset {
                0
            } else {
                offset
            }
        } else {
            0
        }
    }

    /// Takes in what was read of the files, and gives the new lines, each with
    /// the file that it comes from.
    pub fn read_new_lines(&mut self, reads: &[FileRead]) -> (entries: Vec<(String, String)>)
        ensures
            final(self)@ == marks_after(old(self)@, reads@),
            pairs_view(entries@) == entries_of(reads@),
    {
        let ghost start = self@;
        let mut entries: Vec<(String, String)> = Vec::new();
        let mut i: usize = 0;
        assert(reads@.take(0) =~= Seq::empty());
        assert(pairs_view(entries@) =~= Seq::empty());
        while i < reads.len()
            invariant
                i <= reads.len(),
                self@ == marks_after(start, reads@.take(i as int)),
                pairs_view(entries@) == entries_of(reads@.take(i as int)),
            decreases reads.len() - i,
        {
            assert(reads@.take(i + 1).drop_last() =~= reads@.take(i as int));
            let read = &reads[i];
            if let Some(text) = &read.text {
                push_lines(&mut entries, read.path.as_str(), text.as_str());
                self.put(read.path.as_str(), read.len);
            }
            i += 1;
        }
        assert(reads@.take(reads@.len() as int) =~= reads@);
        entries
    }
}

/// Entries that came in at `now`.
pub open spec fn stamped_of(entries: Seq<(Seq<char>, Seq<char>)>, now: i64) -> Seq<EntryView> {
    entries.map_values(
        |e: (Seq<char>, Seq<char>)| EntryView { source: e.0, line: e.1, ts: now },
    )
}

/// Gives every entry the time at which it came in.
pub fn stamp(entries: &[(String, String)], now: i64) -> (out: Vec<LogEntry>)
    ensures
        entries_view(out@) == stamped_of(pairs_view(entries@), now),
{
    let mut out: Vec<LogEntry> = Vec::new();
    let mut i: usize = 0;
    while i < entries.len()
        invariant
            i <= entries.len(),
            out@.len() == i,
            forall|k: int|
                0 <= k < i ==> (#[trigger] out@[k])@ == stamped_of(pairs_view(entries@), now)[k],
        decreases entries.len() - i,
    {
        out.push(LogEntry { source: entries[i].0.clone(), line: entries[i].1.clone(), ts: now });
        i += 1;
    }
    assert(entries_view(out@) =~= stamped_of(pairs_view(entries@), now));
    out
}

/// How far a file was read stands, and nothing changes of the others.
pub proof fn last_offset_stands(
    marks: Seq<(Seq<char>, u64)>,
    path: Seq<char>,
    offset: u64,
    other: Seq<char>,
)
    ensures
        offset_of(with_offset(marks, path, offset), other) == if other == path {
            Some(offset)
        } else {
            offset_of(marks, other)
        },
    decreases marks.len(),
{
    if marks.len() == 0 {
        assert(offset_of(seq![(path, offset)].drop_first(), other) is None);
    } else if marks.first().0 == path {
        assert(marks.update(0, (path, offset)).drop_first() =~= marks.drop_first());
    } else {
        let rest = with_offset(marks.drop_first(), path, offset);
        assert((seq![marks.first()] + rest).drop_first() =~= rest);
        last_offset_stands(marks.drop_first(), path, offset, other);
    }
}

/// A file of which nothing could be read is left where it was, and gives no entry,
/// whatever else was read.
pub proof fn unread_file_is_kept(
    marks: Seq<(Seq<char>, u64)>,
    reads: Seq<FileRead>,
    path: Seq<char>,
)
    requires
        forall|i: int|
            0 <= i < reads.len() && (#[trigger] reads[i]).path@ == path ==> reads[i].text is None,
    ensures
        offset_of(marks_after(marks, reads), path) == offset_of(marks, path),
        forall|k: int|
            0 <= k < entries_of(reads).len() ==> (#[trigger] entries_of(reads)[k]).0 != path,
    decreases reads.len(),
{
    if reads.len() > 0 {
        let before = reads.drop_last();
        let read = reads.last();
        assert forall|i: int|
            0 <= i < before.len() && (#[trigger] before[i]).path@
                == path implies before[i].text is None by {
            assert(reads[i] == before[i]);
        }
        unread_file_is_kept(marks, before, path);
        assert(reads[reads.len() - 1] == read);
        if let Some(text) = read.text {
            last_offset_stands(marks_after(marks, before), read.path@, read.len, path);
            let earlier = entries_of(before);
            assert forall|k: int| 0 <= k < entries_of(reads).len() implies (
            #[trigger] entries_of(reads)[k]).0 != path by {
                if k < earlier.len() {
                    assert(entries_of(reads)[k] == earlier[k]);
                }
            }
        }
    }
}

/// A file that has been read is next read from where it ended, and from its start
/// where it has become shorter since, whatever else was read. Where it was read
/// more than once, the last time counts.
pub proof fn file_is_read_on_from_its_end(
    marks: Seq<(Seq<char>, u64)>,
    reads: Seq<FileRead>,
    at: int,
    len: u64,
)
    requires
        0 <= at < reads.len(),
        reads[at].text is Some,
        forall|i: int|
            at < i < reads.len() && (#[trigger] reads[i]).path@ == reads[at].path@
                ==> reads[i].text is None,
    ensures
        offset_of(marks_after(marks, reads), reads[at].path@) == Some(reads[at].len),
        resume_of(marks_after(marks, reads), reads[at].path@, len) == if len < reads[at].len {
            0
        } else {
            reads[at].len
        },
    decreases reads.len(),
{
    let before = reads.drop_last();
    let read = reads.last();
    let path = reads[at].path@;
    if at == reads.len() - 1 {
        last_offset_stands(marks_after(marks, before), path, read.len, path);
    } else {
        assert(before[at] == reads[at]);
        assert forall|i: int|
            at < i < before.len() && (#[trigger] before[i]).path@
                == path implies before[i].text is None by {
            assert(reads[i] == before[i]);
        }
        file_is_read_on_from_its_end(marks, before, at, len);
        assert(reads[reads.len() - 1] == read);
        if read.text is Some {
            last_offset_stands(marks_after(marks, before), read.path@, read.len, path);
        }
    }
}

/// A file is followed from where it ended when the tailer was made: only what
/// comes later counts. Where it is listed more than once, the last time that its
/// length was known counts.
pub proof fn old_lines_are_skipped(files: Seq<FileLength>, at: int, len: u64)
    requires
        0 <= at < files.len(),
        files[at].len is Some,
        forall|i: int|
            at < i < files.len() && (#[trigger] files[i]).path@ == files[at].path@
                ==> files[i].len is None,
    ensures
        offset_of(marks_of(files), files[at].path@) == files[at].len,
        resume_of(marks_of(files), files[at].path@, len) == if len < files[at].len->0 {
            0
        } else {
            files[at].len->0
        },
    decreases files.len(),
{
    let before = files.drop_last();
    let file = files.last();
    let path = files[at].path@;
    if at == files.len() - 1 {
        last_offset_stands(marks_of(before), path, file.len->0, path);
    } else {
        assert(before[at] == files[at]);
        assert forall|i: int|
            at < i < before.len() && (#[trigger] before[i]).path@
                == path implies before[i].len is None by {
            assert(files[i] == before[i]);
        }
        old_lines_are_skipped(before, at, len);
        assert(files[files.len() - 1] == file);
        if let Some(n) = file.len {
            last_offset_stands(marks_of(before), file.path@, n, path);
        }
    }
}

/// A file whose length was not known when the tailer was made is not followed.
pub proof fn missing_file_is_not_followed(files: Seq<FileLength>, path: Seq<char>)
    requires
        forall|i: int|
            0 <= i < files.len() && (#[trigger] files[i]).path@ == path ==> files[i].len is None,
    ensures
        offset_of(marks_of(files), path) is None,
    decreases files.len(),
{
    if files.len() > 0 {
        let before = files.drop_last();
        let file = files.last();
        assert forall|i: int|
            0 <= i < before.len() && (#[trigger] before[i]).path@
                == path implies before[i].len is None by {
            assert(files[i] == before[i]);
        }
        missing_file_is_not_followed(before, path);
        assert(files[files.len() - 1] == file);
        if let Some(n) = file.len {
            last_offset_stands(marks_of(before), file.path@, n, path);
        }
    }
}

/// The lines of every file that was read are all among the entries, under its
/// name, together and in order.
pub proof fn lines_of_a_file_stay_together(reads: Seq<FileRead>, at: int)
    requires
        0 <= at < reads.len(),
        reads[at].text is Some,
    ensures
        ({
            let start = entries_of(reads.take(at)).len() as int;
            let lines = tailed_of(reads[at].text->0@);
            &&& start + lines.len() <= entries_of(reads).len()
            &&& forall|k: int|
                0 <= k < lines.len() ==> entries_of(reads)[start + k] == (
                    reads[at].path@,
                    #[trigger] lines[k],
                )
        }),
    decreases reads.len(),
{
    let before = reads.drop_last();
    let lines = tailed_of(reads[at].text->0@);
    let start = entries_of(reads.take(at)).len() as int;
    if at == reads.len() - 1 {
        assert(reads.take(at) =~= before);
    } else {
        lines_of_a_file_stay_together(before, at);
        assert(before.take(at) =~= reads.take(at));
        assert forall|k: int| 0 <= k < lines.len() implies entries_of(reads)[start + k] == (
            reads[at].path@,
            #[trigger] lines[k],
        ) by {
            assert(entries_of(before)[start + k] == (reads[at].path@, lines[k]));
        }
    }
}

/// No entry is empty, and none has white space at either end.
pub proof fn entries_are_trimmed(text: Seq<char>, i: int)
    requires
        0 <= i < tailed_of(text).len(),
    ensures
        tailed_of(text)[i].len() > 0,
        trim_of(tailed_of(text)[i]) == tailed_of(text)[i],
{
    let trimmed = lines_of(text).map_values(|line: Seq<char>| trim_of(line));
    let keep = |line: Seq<char>| line.len() > 0;
    let line = trimmed.filter(keep)[i];
    trimmed.lemma_filter_pred(keep, i);
    assert(trimmed.filter(keep).contains(line));
    trimmed.lemma_filter_contains_rev(keep, line);
    let k = choose|k: int| 0 <= k < trimmed.len() && trimmed[k] == line;
    trimmed_ends(lines_of(text)[k]);
}

/// Every line that is not blank becomes an entry.
pub proof fn no_line_is_lost(text: Seq<char>, k: int)
    requires
        0 <= k < lines_of(text).len(),
        trim_of(lines_of(text)[k]).len() > 0,
    ensures
        tailed_of(text).contains(trim_of(lines_of(text)[k])),
{
    let trimmed = lines_of(text).map_values(|line: Seq<char>| trim_of(line));
    let keep = |line: Seq<char>| line.len() > 0;
    assert(keep(trimmed[k]));
    trimmed.lemma_filter_contains(keep, k);
}

/// How many of the lines are not blank.
pub open spec fn told_lines(lines: Seq<Seq<char>>) -> nat
    decreases lines.len(),
{
    if lines.len() == 0 {
        0
    } else {
        told_lines(lines.drop_last()) + if is_blank(lines.last()) {
            0nat
        } else {
            1nat
        }
    }
}

proof fn lemma_blank_trims(line: Seq<char>)
    ensures
        is_blank(line) == (trim_of(line).len() == 0),
{
    if is_blank(line) {
        trim_undoes_padding(line, Seq::empty(), Seq::empty());
        assert(line + Seq::<char>::empty() + Seq::<char>::empty() =~= line);
    } else if trim_of(line).len() == 0 {
        lemma_trim_to_nothing(line);
    }
}

proof fn lemma_trim_to_nothing(line: Seq<char>)
    requires
        trim_of(line).len() == 0,
    ensures
        is_blank(line),
    decreases line.len(),
{
    if line.len() > 0 {
        if is_space(line.first()) {
            let rest = line.drop_first();
            lemma_trim_to_nothing(rest);
            assert forall|i: int| 0 <= i < line.len() implies is_space(#[trigger] line[i]) by {
                if i > 0 {
                    assert(is_space(rest[i - 1]));
                }
            }
        } else {
            lemma_trim_end_stops(line);
        }
    }
}

proof fn lemma_trim_end_stops(s: Seq<char>)
    requires
        s.len() > 0,
        !is_space(s.first()),
    ensures
        trim_end_of(s).len() > 0,
    decreases s.len(),
{
    if is_space(s.last()) {
        lemma_trim_end_stops(s.drop_last());
    }
}

/// The entries of a text are as many as its lines that are not blank, and the
/// entry of such a line has as many before it as there are such lines before it.
/// Equal lines are entries of their own.
pub proof fn every_line_has_its_entry(text: Seq<char>, k: int)
    requires
        0 <= k < lines_of(text).len(),
    ensures
        tailed_of(text).len() == told_lines(lines_of(text)),
        !is_blank(lines_of(text)[k]) ==> told_lines(lines_of(text).take(k)) < tailed_of(text).len()
            && tailed_of(text)[told_lines(lines_of(text).take(k)) as int] == trim_of(
            lines_of(text)[k],
        ),
{
    lemma_told(lines_of(text), k);
}

proof fn lemma_told(lines: Seq<Seq<char>>, k: int)
    requires
        0 <= k < lines.len(),
    ensures
        ({
            let kept = lines.map_values(|line: Seq<char>| trim_of(line)).filter(
                |line: Seq<char>| line.len() > 0,
            );
            &&& kept.len() == told_lines(lines)
            &&& !is_blank(lines[k]) ==> told_lines(lines.take(k)) < kept.len() && kept[told_lines(
                lines.take(k),
            ) as int] == trim_of(lines[k])
        }),
    decreases lines.len(),
{
    reveal(Seq::filter);
    let f = |line: Seq<char>| trim_of(line);
    let p = |line: Seq<char>| line.len() > 0;
    let before = lines.drop_last();
    assert(lines.map_values(f).drop_last() =~= before.map_values(f));
    lemma_blank_trims(lines.last());
    if before.len() > 0 {
        if k < before.len() {
            lemma_told(before, k);
            assert(before.take(k) =~= lines.take(k));
            assert(before[k] == lines[k]);
        } else {
            lemma_told(before, 0);
        }
    } else {
        assert(before.map_values(f).filter(p) =~= Seq::empty());
    }
    if k == before.len() {
        assert(lines.take(k) =~= before);
    }
}

/// A text that is read in two parts, cut behind a line feed, gives the entries of
/// both parts and no others.
pub proof fn parts_give_their_entries(a: Seq<char>, b: Seq<char>)
    ensures
        tailed_of(a.push('\n') + b) == tailed_of(a.push('\n')) + tailed_of(b),
{
    lines_of_joined(a, b);
    let f = |line: Seq<char>| trim_of(line);
    let p = |line: Seq<char>| line.len() > 0;
    let la = lines_of(a.push('\n'));
    let lb = lines_of(b);
    assert((la + lb).map_values(f) =~= la.map_values(f) + lb.map_values(f));
    Seq::filter_distributes_over_add(la.map_values(f), lb.map_values(f), p);
}

/// A line gives one entry, whatever white space stands round it, and a blank one
/// gives none.
pub proof fn line_gives_one_entry(pad: Seq<char>, line: Seq<char>, end: Seq<char>)
    requires
        is_blank(pad),
        is_blank(end),
        !pad.contains('\n'),
        !line.contains('\n'),
        !end.contains('\n'),
        line.len() > 0 ==> !is_space(line.first()) && !is_space(line.last()),
    ensures
        tailed_of((pad + line + end).push('\n')) == if line.len() > 0 {
            seq![line]
        } else {
            Seq::empty()
        },
{
    let all = pad + line + end;
    reveal(Seq::filter);
    assert forall|i: int| 0 <= i < all.len() implies all[i] != '\n' by {
        if i < pad.len() {
            assert(all[i] == pad[i]);
        } else if i < pad.len() + line.len() {
            assert(all[i] == line[i - pad.len()]);
        } else {
            assert(all[i] == end[i - pad.len() - line.len()]);
        }
    }
    trim_undoes_padding(pad, line, end);
    let f = |l: Seq<char>| trim_of(l);
    let p = |l: Seq<char>| l.len() > 0;
    if all.len() > 0 && all.last() == '\r' {
        let shorter = all.drop_last();
        assert(shorter.push('\r') =~= all);
        assert forall|i: int| 0 <= i < shorter.len() implies shorter[i] != '\n' by {
            assert(all[i] == shorter[i]);
        }
        line_stands_alone(shorter);
        lemma_trim_ignores_return(shorter);
        lemma_one_told(shorter);
    } else {
        line_stands_alone(all);
        lemma_one_told(all);
    }
}

proof fn lemma_trim_ignores_return(s: Seq<char>)
    ensures
        trim_of(s.push('\r')) == trim_of(s),
    decreases s.len(),
{
    let all = s.push('\r');
    assert(is_space('\r'));
    if s.len() > 0 && is_space(s.first()) {
        assert(all.drop_first() =~= s.drop_first().push('\r'));
        lemma_trim_ignores_return(s.drop_first());
    } else if s.len() == 0 {
        assert(all.drop_first() =~= s);
    } else {
        assert(all.first() == s.first());
        assert(all.drop_last() =~= s);
    }
}

proof fn lemma_one_told(line: Seq<char>)
    ensures
        seq![line].map_values(|l: Seq<char>| trim_of(l)).filter(|l: Seq<char>| l.len() > 0)
            == if trim_of(line).len() > 0 {
            seq![trim_of(line)]
        } else {
            Seq::<Seq<char>>::empty()
        },
{
    reveal(Seq::filter);
    let f = |l: Seq<char>| trim_of(l);
    let p = |l: Seq<char>| l.len() > 0;
    let one = seq![line].map_values(f);
    assert(one.drop_last() =~= Seq::empty());
    assert(one.drop_last().filter(p) =~= Seq::empty());
    assert(one.filter(p) =~= if trim_of(line).len() > 0 {
        seq![trim_of(line)]
    } else {
        Seq::<Seq<char>>::empty()
    });
}

/// Files that are read in two rounds give the entries of both rounds, and how far
/// they were read goes on from the one to the other.
pub proof fn rounds_add_up(
    marks: Seq<(Seq<char>, u64)>,
    a: Seq<FileRead>,
    b: Seq<FileRead>,
)
    ensures
        entries_of(a + b) == entries_of(a) + entries_of(b),
        marks_after(marks, a + b) == marks_after(marks_after(marks, a), b),
    decreases b.len(),
{
    if b.len() == 0 {
        assert(a + b =~= a);
        assert(entries_of(a) + entries_of(b) =~= entries_of(a));
    } else {
        rounds_add_up(marks, a, b.drop_last());
        assert((a + b).drop_last() =~= a + b.drop_last());
        assert((a + b).last() == b.last());
        assert(entries_of(a + b) =~= entries_of(a) + entries_of(b));
    }
}

/// A file that was read gives its lines under its own name, and one that could not
/// be read gives none.
pub proof fn one_file_gives_its_lines(read: FileRead)
    ensures
        entries_of(seq![read]) == match read.text {
            Some(text) => tailed_of(text@).map_values(|line: Seq<char>| (read.path@, line)),
            None => Seq::empty(),
        },
{
    assert(seq![read].drop_last() =~= Seq::empty());
    assert(entries_of(seq![read].drop_last()) =~= Seq::empty());
    assert(entries_of(seq![read]) =~= match read.text {
        Some(text) => tailed_of(text@).map_values(|line: Seq<char>| (read.path@, line)),
        None => Seq::empty(),
    });
}

/// Entries are stamped one by one, in order, each with the given moment.
pub proof fn stamping_changes_nothing_else(
    entries: Seq<(Seq<char>, Seq<char>)>,
    now: i64,
    i: int,
)
    requires
        0 <= i < entries.len(),
    ensures
        stamped_of(entries, now).len() == entries.len(),
        stamped_of(entries, now)[i].source == entries[i].0,
        stamped_of(entries, now)[i].line == entries[i].1,
        stamped_of(entries, now)[i].ts == now,
{
}

/// A file is read from where it was left, from its start where it has become shorter, and
/// one that was never read from its start.
pub proof fn reading_goes_on_where_it_was_left(
    marks: Seq<(Seq<char>, u64)>,
    path: Seq<char>,
    len: u64,
)
    ensures
        offset_of(marks, path) is None ==> resume_of(marks, path, len) == 0,
        offset_of(marks, path) matches Some(offset) ==> resume_of(marks, path, len) == if len
            >= offset {
            offset
        } else {
            0
        },
        resume_of(marks, path, len) <= len,
{
}

/// The mathematical form of a list of pairs holds each in its place, the path first and
/// the line behind it.
pub proof fn form_of_the_pairs_is_whole(entries: Seq<(String, String)>, i: int)
    requires
        0 <= i < entries.len(),
    ensures
        pairs_view(entries).len() == entries.len(),
        pairs_view(entries)[i].0 == entries[i].0@,
        pairs_view(entries)[i].1 == entries[i].1@,
{
}

} // verus!
