//! Reading the body of one marked block, line by line.
//!
//! The body lies between the line that opens the block and the line that
//! closes it. A `-------` line opens a removed side and a `+++++++` line an
//! added side. While only one kind of side is open, the lines that follow
//! are its content as they stand. While both are open, the lines form an
//! embedded diff: each starts with `-`, `+` or a space and, without that
//! byte, goes to the removed side, the added side or both.

use vstd::prelude::*;
use crate::hunks::{buffers, HunkModel, MergeHunk};
use crate::lines::{find_line_end, lemma_split_step, split_lines};
use crate::markers::{is_marker_line, minus_line, plus_line, MINUS_BYTE, PLUS_BYTE, SPACE_BYTE};

verus! {

/// Which kinds of side are open for content.
#[derive(Clone, Copy, Debug, PartialEq, Eq)]
pub enum Section {
    /// No side was opened yet.
    Closed,
    /// A removed side takes the lines as they stand.
    Minus,
    /// An added side takes the lines as they stand.
    Plus,
    /// A removed and an added side share an embedded diff.
    Both,
}

impl Section {
    /// A removed side is open.
    pub open spec fn has_minus(self) -> bool {
        self is Minus || self is Both
    }

    /// An added side is open.
    pub open spec fn has_plus(self) -> bool {
        self is Plus || self is Both
    }

    /// This section with a removed side opened in it.
    pub open spec fn with_minus(self) -> Section {
        if self.has_plus() {
            Section::Both
        } else {
            Section::Minus
        }
    }

    /// This section with an added side opened in it.
    pub open spec fn with_plus(self) -> Section {
        if self.has_minus() {
            Section::Both
        } else {
            Section::Plus
        }
    }
}

/// The state of reading a block body.
pub ghost struct HunkScan {
    /// The sides that take content now.
    pub section: Section,
    /// A content line was read since the last marker line.
    pub body_seen: bool,
    /// The removed sides read so far.
    pub removes: Seq<Seq<u8>>,
    /// The added sides read so far.
    pub adds: Seq<Seq<u8>>,
    /// A line was read that no block body can hold.
    pub malformed: bool,
}

/// `bufs` with `bytes` appended to its last buffer.
pub open spec fn append_last(bufs: Seq<Seq<u8>>, bytes: Seq<u8>) -> Seq<Seq<u8>> {
    if bufs.len() == 0 {
        bufs
    } else {
        bufs.update(bufs.len() - 1, bufs.last() + bytes)
    }
}

/// The state before the first line.
pub open spec fn scan_start() -> HunkScan {
    HunkScan {
        section: Section::Closed,
        body_seen: false,
        removes: Seq::empty(),
        adds: Seq::empty(),
        malformed: false,
    }
}

/// The state after a content line, one that is no marker line.
pub open spec fn content_step(st: HunkScan, line: Seq<u8>) -> HunkScan {
    match st.section {
        Section::Closed => HunkScan { malformed: true, ..st },
        Section::Minus => HunkScan {
            body_seen: true,
            removes: append_last(st.removes, line),
            ..st
        },
        Section::Plus => HunkScan { body_seen: true, adds: append_last(st.adds, line), ..st },
        Section::Both => if line.len() > 0 && line[0] == MINUS_BYTE {
            HunkScan { body_seen: true, removes: append_last(st.removes, line.skip(1)), ..st }
        } else if line.len() > 0 && line[0] == PLUS_BYTE {
            HunkScan { body_seen: true, adds: append_last(st.adds, line.skip(1)), ..st }
        } else if line.len() > 0 && line[0] == SPACE_BYTE {
            HunkScan {
                body_seen: true,
                removes: append_last(st.removes, line.skip(1)),
                adds: append_last(st.adds, line.skip(1)),
                ..st
            }
        } else {
            HunkScan { malformed: true, ..st }
        },
    }
}

/// The state after one more line. A marker line opens a new, empty side;
/// when content was read since the last marker line, it also closes the
/// sides of the other kind. Once malformed, the state stays as it is.
pub open spec fn hunk_step(st: HunkScan, line: Seq<u8>) -> HunkScan {
    if st.malformed {
        st
    } else if line == minus_line() {
        HunkScan {
            section: if st.body_seen {
                Section::Minus
            } else {
                st.section.with_minus()
            },
            body_seen: false,
            removes: st.removes.push(Seq::empty()),
            ..st
        }
    } else if line == plus_line() {
        HunkScan {
            section: if st.body_seen {
                Section::Plus
            } else {
                st.section.with_plus()
            },
            body_seen: false,
            adds: st.adds.push(Seq::empty()),
            ..st
        }
    } else {
        content_step(st, line)
    }
}

/// The state after `lines`, read in order from the state `st`.
pub open spec fn hunk_scan(st: HunkScan, lines: Seq<Seq<u8>>) -> HunkScan
    decreases lines.len(),
{
    if lines.len() == 0 {
        st
    } else {
        hunk_step(hunk_scan(st, lines.drop_last()), lines.last())
    }
}

/// What a finished scan gives: the sides that were read, or, for a
/// malformed body, empty resolved text.
pub open spec fn scan_result(st: HunkScan) -> HunkModel {
    if st.malformed {
        HunkModel::Resolved(Seq::empty())
    } else {
        HunkModel::Conflict { removes: st.removes, adds: st.adds }
    }
}

/// The hunk that the block body `body` stands for.
pub open spec fn parse_hunk(body: Seq<u8>) -> HunkModel {
    scan_result(hunk_scan(scan_start(), split_lines(body)))
}

/// A side that is open has a buffer to take its content.
pub open spec fn sides_present(st: HunkScan) -> bool {
    &&& st.section.has_minus() ==> st.removes.len() > 0
    &&& st.section.has_plus() ==> st.adds.len() > 0
}

/// Reading lines one list after the other is reading them all in order.
pub proof fn lemma_hunk_scan_concat(st: HunkScan, xs: Seq<Seq<u8>>, ys: Seq<Seq<u8>>)
    ensures
        hunk_scan(st, xs + ys) == hunk_scan(hunk_scan(st, xs), ys),
    decreases ys.len(),
{
    if ys.len() == 0 {
        assert(xs + ys =~= xs);
    } else {
        lemma_hunk_scan_concat(st, xs, ys.drop_last());
        assert((xs + ys).drop_last() =~= xs + ys.drop_last());
    }
}

/// Reading one line is one step.
pub proof fn lemma_hunk_scan_one(st: HunkScan, line: Seq<u8>)
    ensures
        hunk_scan(st, seq![line]) == hunk_step(st, line),
{
    assert(seq![line].drop_last() =~= Seq::<Seq<u8>>::empty());
    assert(hunk_scan(st, seq![line].drop_last()) == st);
}

/// No line brings a malformed scan back.
pub proof fn lemma_malformed_stays(st: HunkScan, lines: Seq<Seq<u8>>)
    requires
        st.malformed,
    ensures
        hunk_scan(st, lines) == st,
    decreases lines.len(),
{
    if lines.len() != 0 {
        lemma_malformed_stays(st, lines.drop_last());
    }
}

/// The reader of a block body: the scan state with its buffers.
pub struct HunkReader {
    section: Section,
    body_seen: bool,
    removes: Vec<Vec<u8>>,
    adds: Vec<Vec<u8>>,
}

impl View for HunkReader {
    type V = HunkScan;

    closed spec fn view(&self) -> HunkScan {
        HunkScan {
            section: self.section,
            body_seen: self.body_seen,
            removes: buffers(self.removes@),
            adds: buffers(self.adds@),
            malformed: false,
        }
    }
}

/// Appends `bytes` to the last of `bufs`.
fn append_to_last(bufs: &mut Vec<Vec<u8>>, bytes: &[u8])
    requires
        old(bufs)@.len() > 0,
    ensures
        buffers(final(bufs)@) == append_last(buffers(old(bufs)@), bytes@),
{
    let n = bufs.len();
    bufs[n - 1].extend_from_slice(bytes);
    assert(bufs@.len() == n);
    assert(bufs@[n - 1]@ == old(bufs)@[n - 1]@ + bytes@);
    assert(forall|i: int| 0 <= i < n - 1 ==> bufs@[i] == old(bufs)@[i]);
    assert(buffers(bufs@) =~= append_last(buffers(old(bufs)@), bytes@));
}

/// Adds an empty buffer at the end of `bufs`.
fn push_empty(bufs: &mut Vec<Vec<u8>>)
    ensures
        buffers(final(bufs)@) == buffers(old(bufs)@).push(Seq::empty()),
{
    bufs.push(Vec::new());
    assert(buffers(bufs@) =~= buffers(old(bufs)@).push(Seq::empty()));
}

impl HunkReader {
    /// A reader that has read no line. It never holds a malformed state:
    /// `feed` refuses the line that would make one.
    pub fn new() -> (reader: HunkReader)
        ensures
            reader@ == scan_start(),
    {
        let reader = HunkReader {
            section: Section::Closed,
            body_seen: false,
            removes: Vec::new(),
            adds: Vec::new(),
        };
        assert(buffers(reader.removes@) =~= Seq::empty());
        assert(buffers(reader.adds@) =~= Seq::empty());
        reader
    }

    /// Reads one line. Returns `false`, and leaves the reader as it was,
    /// when the line makes the body malformed: a content line before any
    /// side was opened, or a line of an embedded diff that starts with
    /// none of `-`, `+` and a space.
    pub fn feed(&mut self, line: &[u8]) -> (ok: bool)
        requires
            sides_present(old(self)@),
        ensures
            ok == !hunk_step(old(self)@, line@).malformed,
            ok ==> final(self)@ == hunk_step(old(self)@, line@),
            !ok ==> final(self)@ == old(self)@,
            sides_present(final(self)@),
    {
        if is_marker_line(line, MINUS_BYTE) {
            self.section =
            if self.body_seen {
                Section::Minus
            } else {
                match self.section {
                    Section::Closed | Section::Minus => Section::Minus,
                    Section::Plus | Section::Both => Section::Both,
                }
            };
            self.body_seen = false;
            push_empty(&mut self.removes);
            true
        } else if is_marker_line(line, PLUS_BYTE) {
            self.section =
            if self.body_seen {
                Section::Plus
            } else {
                match self.section {
                    Section::Closed | Section::Plus => Section::Plus,
                    Section::Minus | Section::Both => Section::Both,
                }
            };
            self.body_seen = false;
            push_empty(&mut self.adds);
            true
        } else {
            match self.section {
                Section::Closed => false,
                Section::Minus => {
                    self.body_seen = true;
                    append_to_last(&mut self.removes, line);
                    true
                },
                Section::Plus => {
                    self.body_seen = true;
                    append_to_last(&mut self.adds, line);
                    true
                },
                Section::Both => {
                    if line.len() == 0 {
                        return false;
                    }
                    let rest = &line[1..line.len()];
                    assert(rest@ == line@.skip(1));
                    if line[0] == MINUS_BYTE {
                        self.body_seen = true;
                        append_to_last(&mut self.removes, rest);
                        true
                    } else if line[0] == PLUS_BYTE {
                        self.body_seen = true;
                        append_to_last(&mut self.adds, rest);
                        true
                    } else if line[0] == SPACE_BYTE {
                        self.body_seen = true;
                        append_to_last(&mut self.removes, rest);
                        append_to_last(&mut self.adds, rest);
                        true
                    } else {
                        false
                    }
                },
            }
        }
    }

    /// Ends the reading and gives the sides that were read.
    pub fn finish(self) -> (hunk: MergeHunk)
        ensures
            hunk@ == scan_result(self@),
    {
        MergeHunk::Conflict { removes: self.removes, adds: self.adds }
    }
}

/// Reads the body of a marked block: the bytes between the line that opens
/// it and the line that closes it. Gives the removed and added sides found
/// in it, however many, or empty resolved text for a malformed body.
pub fn parse_conflict_hunk(input: &[u8]) -> (hunk: MergeHunk)
    ensures
        hunk@ == parse_hunk(input@),
{
    let mut reader = HunkReader::new();
    let mut pos: usize = 0;
    let ghost mut done: Seq<Seq<u8>> = Seq::empty();
    proof {
        assert(input@.skip(0) =~= input@);
        assert(done + split_lines(input@) =~= split_lines(input@));
    }
    while pos < input.len()
        invariant
            pos <= input@.len(),
            sides_present(reader@),
            split_lines(input@) == done + split_lines(input@.skip(pos as int)),
            reader@ == hunk_scan(scan_start(), done),
        decreases input@.len() - pos,
    {
        let end = find_line_end(input, pos);
        let line = &input[pos..end];
        let ghost rest = split_lines(input@.skip(end as int));
        proof {
            lemma_split_step(input@, pos as int);
            assert(done + (seq![line@] + rest) =~= done.push(line@) + rest);
            assert(done.push(line@).drop_last() =~= done);
        }
        if !reader.feed(line) {
            proof {
                let bad = hunk_scan(scan_start(), done.push(line@));
                lemma_hunk_scan_concat(scan_start(), done.push(line@), rest);
                lemma_malformed_stays(bad, rest);
            }
            return MergeHunk::Resolved(Vec::new());
        }
        proof {
            done = done.push(line@);
        }
        pos = end;
    }
    proof {
        assert(input@.skip(pos as int) =~= Seq::<u8>::empty());
        assert(done + split_lines(Seq::<u8>::empty()) =~= done);
    }
    reader.finish()
}

} // verus!
