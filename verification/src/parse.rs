//! Reading text with marked blocks back into merge hunks.
//!
//! The text is read line by line. A `<<<<<<<` line opens a block, also
//! inside a block that is still open: the block then starts anew at that
//! line, and what the abandoned block held is ordinary text. A `>>>>>>>`
//! line closes the open block. The block counts only when its body reads as
//! a conflict with the expected number of removed and of added sides; a
//! block that does not is ordinary text as well.

use vstd::prelude::*;
use crate::hunk_reader::{parse_conflict_hunk, parse_hunk};
use crate::hunks::{hunk_models, HunkModel, MergeHunk};
use crate::lines::{
    find_line_end, is_full_line, is_terminated, join, lemma_join_split, lemma_split_concat,
    lemma_split_full_line, lemma_split_step, split_lines,
};
use crate::markers::{end_line, is_marker_line, start_line, END_BYTE, START_BYTE};

verus! {

/// A block that was opened and not closed yet.
pub ghost struct OpenBlock {
    /// The text between the last accepted block and the line that opened
    /// this one.
    pub before: Seq<u8>,
    /// The lines read since the line that opened this block.
    pub body: Seq<u8>,
}

/// The state of reading a text.
pub ghost struct TextScan {
    /// The text read since the last accepted block.
    pub pending: Seq<u8>,
    /// The block that is open, if one is.
    pub open: Option<OpenBlock>,
    /// The hunks found so far.
    pub hunks: Seq<HunkModel>,
}

/// `hunk` is a conflict with `num_removes` removed and `num_adds` added
/// sides.
pub open spec fn has_arity(hunk: HunkModel, num_removes: nat, num_adds: nat) -> bool {
    match hunk {
        HunkModel::Conflict { removes, adds } => removes.len() == num_removes && adds.len()
            == num_adds,
        HunkModel::Resolved(_) => false,
    }
}

/// `hunks`, after resolved text `text` if there is any.
pub open spec fn push_resolved(hunks: Seq<HunkModel>, text: Seq<u8>) -> Seq<HunkModel> {
    if text.len() > 0 {
        hunks.push(HunkModel::Resolved(text))
    } else {
        hunks
    }
}

/// The state before the first line.
pub open spec fn text_start() -> TextScan {
    TextScan { pending: Seq::empty(), open: None, hunks: Seq::empty() }
}

/// The state after the line that closes the block `block`.
pub open spec fn close_step(
    st: TextScan,
    block: OpenBlock,
    num_removes: nat,
    num_adds: nat,
) -> TextScan {
    let hunk = parse_hunk(block.body);
    if has_arity(hunk, num_removes, num_adds) {
        TextScan {
            pending: Seq::empty(),
            open: None,
            hunks: push_resolved(st.hunks, block.before).push(hunk),
        }
    } else {
        TextScan { pending: st.pending + end_line(), open: None, hunks: st.hunks }
    }
}

/// The state after one more line.
pub open spec fn text_step(st: TextScan, line: Seq<u8>, num_removes: nat, num_adds: nat) -> TextScan {
    if line == start_line() {
        TextScan {
            pending: st.pending + line,
            open: Some(OpenBlock { before: st.pending, body: Seq::empty() }),
            hunks: st.hunks,
        }
    } else if st.open is Some && line == end_line() {
        close_step(st, st.open->0, num_removes, num_adds)
    } else {
        TextScan {
            pending: st.pending + line,
            open: match st.open {
                Some(block) => Some(OpenBlock { before: block.before, body: block.body + line }),
                None => None,
            },
            hunks: st.hunks,
        }
    }
}

/// The state after `lines`, read in order from the state `st`.
pub open spec fn text_scan(
    st: TextScan,
    lines: Seq<Seq<u8>>,
    num_removes: nat,
    num_adds: nat,
) -> TextScan
    decreases lines.len(),
{
    if lines.len() == 0 {
        st
    } else {
        text_step(
            text_scan(st, lines.drop_last(), num_removes, num_adds),
            lines.last(),
            num_removes,
            num_adds,
        )
    }
}

/// What a finished scan gives: nothing when no block was accepted, else
/// the hunks found and, as a last resolved hunk, the text after the last
/// block.
pub open spec fn scan_outcome(st: TextScan) -> Option<Seq<HunkModel>> {
    if st.hunks.len() == 0 {
        None
    } else {
        Some(push_resolved(st.hunks, st.pending))
    }
}

/// The hunks that `input` stands for when each block is to have
/// `num_removes` removed and `num_adds` added sides, or `None` when it
/// holds no such block.
pub open spec fn parse_text(input: Seq<u8>, num_removes: nat, num_adds: nat) -> Option<
    Seq<HunkModel>,
> {
    scan_outcome(text_scan(text_start(), split_lines(input), num_removes, num_adds))
}

/// Reading lines one list after the other is reading them all in order.
pub proof fn lemma_text_scan_concat(
    st: TextScan,
    xs: Seq<Seq<u8>>,
    ys: Seq<Seq<u8>>,
    num_removes: nat,
    num_adds: nat,
)
    ensures
        text_scan(st, xs + ys, num_removes, num_adds) == text_scan(
            text_scan(st, xs, num_removes, num_adds),
            ys,
            num_removes,
            num_adds,
        ),
    decreases ys.len(),
{
    if ys.len() == 0 {
        assert(xs + ys =~= xs);
    } else {
        lemma_text_scan_concat(st, xs, ys.drop_last(), num_removes, num_adds);
        assert((xs + ys).drop_last() =~= xs + ys.drop_last());
    }
}

/// Reading one line is one step.
pub proof fn lemma_text_scan_one(st: TextScan, line: Seq<u8>, num_removes: nat, num_adds: nat)
    ensures
        text_scan(st, seq![line], num_removes, num_adds) == text_step(
            st,
            line,
            num_removes,
            num_adds,
        ),
{
    assert(seq![line].drop_last() =~= Seq::<Seq<u8>>::empty());
    assert(text_scan(st, seq![line].drop_last(), num_removes, num_adds) == st);
}

/// A copy of the bytes of `input` from `from` up to `to`.
fn copy_range(input: &[u8], from: usize, to: usize) -> (out: Vec<u8>)
    requires
        from <= to <= input@.len(),
    ensures
        out@ == input@.subrange(from as int, to as int),
{
    let mut out: Vec<u8> = Vec::new();
    out.extend_from_slice(&input[from..to]);
    out
}

/// Tells whether `hunk` is a conflict with the expected number of sides.
fn arity_matches(hunk: &MergeHunk, num_removes: usize, num_adds: usize) -> (b: bool)
    ensures
        b == has_arity(hunk@, num_removes as nat, num_adds as nat),
{
    match hunk {
        MergeHunk::Conflict { removes, adds } => removes.len() == num_removes && adds.len()
            == num_adds,
        MergeHunk::Resolved(_) => false,
    }
}

/// Reads conflict markers from `input`. The caller gives the number of
/// removed and of added sides that each block must have; a block that is
/// otherwise well formed but has other numbers does not count. Returns
/// `None` when no block counts, in particular for empty input. Otherwise
/// returns the accepted blocks in order, with the text between them, before
/// the first and after the last as resolved hunks, none of them empty.
pub fn parse_conflict(input: &[u8], num_removes: usize, num_adds: usize) -> (result: Option<
    Vec<MergeHunk>,
>)
    ensures
        match result {
            Some(hunks) => parse_text(input@, num_removes as nat, num_adds as nat) == Some(
                hunk_models(hunks@),
            ),
            None => parse_text(input@, num_removes as nat, num_adds as nat) is None,
        },
{
    let mut hunks: Vec<MergeHunk> = Vec::new();
    let mut pos: usize = 0;
    let mut resolved_start: usize = 0;
    let mut conflict_start: Option<usize> = None;
    let ghost nr = num_removes as nat;
    let ghost na = num_adds as nat;
    let ghost mut done: Seq<Seq<u8>> = Seq::empty();
    let ghost mut st = text_start();
    proof {
        assert(input@.skip(0) =~= input@);
        assert(done + split_lines(input@) =~= split_lines(input@));
        assert(hunk_models(hunks@) =~= st.hunks);
        assert(input@.subrange(0, 0) =~= st.pending);
    }
    while pos < input.len()
        invariant
            resolved_start <= pos <= input@.len(),
            nr == num_removes,
            na == num_adds,
            split_lines(input@) == done + split_lines(input@.skip(pos as int)),
            st == text_scan(text_start(), done, nr, na),
            st.hunks == hunk_models(hunks@),
            st.pending == input@.subrange(resolved_start as int, pos as int),
            match conflict_start {
                Some(start) => {
                    &&& resolved_start <= start
                    &&& start + 8 <= pos
                    &&& st.open == Some(
                        OpenBlock {
                            before: input@.subrange(resolved_start as int, start as int),
                            body: input@.subrange(start + 8, pos as int),
                        },
                    )
                },
                None => st.open is None,
            },
        decreases input@.len() - pos,
    {
        let end = find_line_end(input, pos);
        let line = &input[pos..end];
        let ghost before = st;
        proof {
            lemma_split_step(input@, pos as int);
            let rest = split_lines(input@.skip(end as int));
            assert(done + (seq![line@] + rest) =~= done.push(line@) + rest);
            assert(done.push(line@).drop_last() =~= done);
            done = done.push(line@);
            st = text_step(before, line@, nr, na);
            assert(before.pending + line@ =~= input@.subrange(resolved_start as int, end as int));
        }
        if is_marker_line(line, START_BYTE) {
            conflict_start = Some(pos);
            proof {
                assert(input@.subrange(pos + 8, end as int) =~= Seq::<u8>::empty());
            }
        } else if conflict_start.is_some() && is_marker_line(line, END_BYTE) {
            let start = conflict_start.unwrap();
            let hunk = parse_conflict_hunk(&input[start + 8..pos]);
            if arity_matches(&hunk, num_removes, num_adds) {
                if resolved_start < start {
                    hunks.push(MergeHunk::Resolved(copy_range(input, resolved_start, start)));
                }
                hunks.push(hunk);
                resolved_start = end;
                proof {
                    assert(hunk_models(hunks@) =~= st.hunks);
                    assert(input@.subrange(end as int, end as int) =~= st.pending);
                }
            }
            conflict_start = None;
        } else {
            proof {
                if let Some(start) = conflict_start {
                    assert(input@.subrange(start + 8, pos as int) + line@ =~= input@.subrange(
                        start + 8,
                        end as int,
                    ));
                }
            }
        }
        pos = end;
    }
    proof {
        assert(input@.skip(pos as int) =~= Seq::<u8>::empty());
        assert(done + split_lines(Seq::<u8>::empty()) =~= done);
    }
    if hunks.len() == 0 {
        None
    } else {
        if resolved_start < input.len() {
            hunks.push(MergeHunk::Resolved(copy_range(input, resolved_start, input.len())));
        }
        proof {
            assert(hunk_models(hunks@) =~= push_resolved(st.hunks, st.pending));
        }
        Some(hunks)
    }
}

/// No line of `lines` opens a block.
pub open spec fn no_start_line(lines: Seq<Seq<u8>>) -> bool {
    forall|i: int| 0 <= i < lines.len() ==> #[trigger] lines[i] != start_line()
}

/// No line of `lines` opens or closes a block.
pub open spec fn no_block_line(lines: Seq<Seq<u8>>) -> bool {
    forall|i: int|
        0 <= i < lines.len() ==> #[trigger] lines[i] != start_line() && lines[i] != end_line()
}

/// Outside a block, lines that open none are gathered as text.
pub proof fn lemma_scan_text_lines(
    st: TextScan,
    lines: Seq<Seq<u8>>,
    num_removes: nat,
    num_adds: nat,
)
    requires
        st.open is None,
        no_start_line(lines),
    ensures
        text_scan(st, lines, num_removes, num_adds) == (TextScan {
            pending: st.pending + join(lines),
            open: None,
            hunks: st.hunks,
        }),
    decreases lines.len(),
{
    if lines.len() == 0 {
        assert(st.pending + join(lines) =~= st.pending);
    } else {
        let front = lines.drop_last();
        assert(no_start_line(front)) by {
            assert forall|i: int| 0 <= i < front.len() implies #[trigger] front[i]
                != start_line() by {
                assert(front[i] == lines[i]);
            }
        }
        lemma_scan_text_lines(st, front, num_removes, num_adds);
        assert(lines.last() == lines[lines.len() - 1]);
        assert(st.pending + join(front) + lines.last() =~= st.pending + join(lines));
    }
}

/// Inside a block, lines that neither open nor close one are gathered as
/// its body.
pub proof fn lemma_scan_body_lines(
    st: TextScan,
    lines: Seq<Seq<u8>>,
    num_removes: nat,
    num_adds: nat,
)
    requires
        st.open is Some,
        no_block_line(lines),
    ensures
        text_scan(st, lines, num_removes, num_adds) == (TextScan {
            pending: st.pending + join(lines),
            open: Some(
                OpenBlock { before: st.open->0.before, body: st.open->0.body + join(lines) },
            ),
            hunks: st.hunks,
        }),
    decreases lines.len(),
{
    if lines.len() == 0 {
        assert(st.pending + join(lines) =~= st.pending);
        assert(st.open->0.body + join(lines) =~= st.open->0.body);
    } else {
        let front = lines.drop_last();
        assert(no_block_line(front)) by {
            assert forall|i: int| 0 <= i < front.len() implies #[trigger] front[i] != start_line()
                && front[i] != end_line() by {
                assert(front[i] == lines[i]);
            }
        }
        lemma_scan_body_lines(st, front, num_removes, num_adds);
        assert(lines.last() == lines[lines.len() - 1]);
        assert(st.pending + join(front) + lines.last() =~= st.pending + join(lines));
        assert(st.open->0.body + join(front) + lines.last() =~= st.open->0.body + join(lines));
    }
}

/// A scan never loses a hunk that it has found.
pub proof fn lemma_scan_keeps_hunks(
    st: TextScan,
    lines: Seq<Seq<u8>>,
    num_removes: nat,
    num_adds: nat,
)
    ensures
        st.hunks.len() <= text_scan(st, lines, num_removes, num_adds).hunks.len(),
    decreases lines.len(),
{
    if lines.len() != 0 {
        lemma_scan_keeps_hunks(st, lines.drop_last(), num_removes, num_adds);
    }
}

/// Lines in which a scan from the start finds no block are gathered as
/// text after any state in which no block is open. A block may stay open
/// at their end.
pub proof fn lemma_scan_unmarked_lines(
    st: TextScan,
    lines: Seq<Seq<u8>>,
    num_removes: nat,
    num_adds: nat,
)
    requires
        st.open is None,
        text_scan(text_start(), lines, num_removes, num_adds).hunks.len() == 0,
    ensures
        ({
            let alone = text_scan(text_start(), lines, num_removes, num_adds);
            let end = text_scan(st, lines, num_removes, num_adds);
            &&& end.hunks == st.hunks
            &&& end.pending == st.pending + join(lines)
            &&& alone.pending == join(lines)
            &&& end.open is Some <==> alone.open is Some
            &&& end.open is Some ==> end.open->0.body == alone.open->0.body
        }),
    decreases lines.len(),
{
    if lines.len() == 0 {
        assert(st.pending + join(lines) =~= st.pending);
    } else {
        let front = lines.drop_last();
        let last = lines.last();
        lemma_scan_keeps_hunks(
            text_scan(text_start(), front, num_removes, num_adds),
            seq![last],
            num_removes,
            num_adds,
        );
        lemma_text_scan_one(
            text_scan(text_start(), front, num_removes, num_adds),
            last,
            num_removes,
            num_adds,
        );
        lemma_scan_unmarked_lines(st, front, num_removes, num_adds);
        assert(st.pending + join(front) + last =~= st.pending + join(lines));
        assert(Seq::<u8>::empty() + join(front) =~= join(front));
    }
}

/// The state after a whole block: the line that opens it, the lines of its
/// body, the line that closes it. The block is closed as its body asks.
pub proof fn lemma_scan_block(
    st: TextScan,
    body: Seq<Seq<u8>>,
    num_removes: nat,
    num_adds: nat,
)
    requires
        no_block_line(body),
    ensures
        text_scan(st, seq![start_line()] + body + seq![end_line()], num_removes, num_adds)
            == close_step(
            TextScan {
                pending: st.pending + start_line() + join(body),
                open: Some(OpenBlock { before: st.pending, body: join(body) }),
                hunks: st.hunks,
            },
            OpenBlock { before: st.pending, body: join(body) },
            num_removes,
            num_adds,
        ),
{
    let opened = text_step(st, start_line(), num_removes, num_adds);
    lemma_text_scan_one(st, start_line(), num_removes, num_adds);
    lemma_scan_body_lines(opened, body, num_removes, num_adds);
    lemma_text_scan_concat(st, seq![start_line()], body, num_removes, num_adds);
    let inside = text_scan(opened, body, num_removes, num_adds);
    assert(Seq::<u8>::empty() + join(body) =~= join(body));
    lemma_text_scan_concat(st, seq![start_line()] + body, seq![end_line()], num_removes, num_adds);
    lemma_text_scan_one(inside, end_line(), num_removes, num_adds);
    assert(start_line()[0] != end_line()[0]);
}

/// Text without a line that opens a block holds no block.
pub proof fn lemma_text_without_start_line(input: Seq<u8>, num_removes: nat, num_adds: nat)
    requires
        no_start_line(split_lines(input)),
    ensures
        parse_text(input, num_removes, num_adds) is None,
{
    lemma_scan_text_lines(text_start(), split_lines(input), num_removes, num_adds);
}

/// A block whose body has other numbers of sides than expected, or is no
/// conflict at all, is ordinary text, however well formed it is: where the
/// text around it holds no line that opens a block, the whole text holds
/// no block.
pub proof fn lemma_arity_mismatch_is_text(
    before: Seq<u8>,
    body: Seq<u8>,
    after: Seq<u8>,
    num_removes: nat,
    num_adds: nat,
)
    requires
        is_terminated(before),
        is_terminated(body),
        no_start_line(split_lines(before)),
        no_block_line(split_lines(body)),
        no_start_line(split_lines(after)),
        !has_arity(parse_hunk(body), num_removes, num_adds),
    ensures
        parse_text(before + start_line() + body + end_line() + after, num_removes, num_adds)
            is None,
{
    let block = seq![start_line()] + split_lines(body) + seq![end_line()];
    let text = before + start_line() + body + end_line() + after;
    assert(is_full_line(start_line()));
    assert(is_full_line(end_line()));
    lemma_split_full_line(start_line());
    lemma_split_full_line(end_line());
    lemma_split_concat(before, start_line() + body + end_line() + after);
    lemma_split_concat(start_line(), body + end_line() + after);
    lemma_split_concat(body, end_line() + after);
    lemma_split_concat(end_line(), after);
    assert(text =~= before + (start_line() + body + end_line() + after));
    assert(start_line() + body + end_line() + after =~= start_line() + (body + end_line() + after));
    assert(body + end_line() + after =~= body + (end_line() + after));
    assert(split_lines(text) =~= split_lines(before) + block + split_lines(after));
    let st0 = text_start();
    let st1 = text_scan(st0, split_lines(before), num_removes, num_adds);
    lemma_scan_text_lines(st0, split_lines(before), num_removes, num_adds);
    lemma_scan_block(st1, split_lines(body), num_removes, num_adds);
    lemma_join_split(body);
    let st2 = text_scan(st1, block, num_removes, num_adds);
    lemma_scan_text_lines(st2, split_lines(after), num_removes, num_adds);
    lemma_text_scan_concat(st0, split_lines(before), block, num_removes, num_adds);
    lemma_text_scan_concat(
        st0,
        split_lines(before) + block,
        split_lines(after),
        num_removes,
        num_adds,
    );
}

} // verus!
