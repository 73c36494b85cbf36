//! The text that stands for merge hunks: resolved text as it is, and each
//! conflict as a marked block.
//!
//! A marked block opens with a `<<<<<<<` line and closes with a `>>>>>>>`
//! line. The first removed side is paired with the first added side, the
//! second with the second, as far as both exist. Each pair takes a
//! `-------` line, a `+++++++` line and the line diff of its two sides.
//! Each side that finds no partner takes its marker line and its content as
//! it stands: first the removed sides, then the added ones.

use vstd::prelude::*;
use crate::hunks::{
    diff_models, is_line_diff, left_side, regions_hold_lines, right_side, DiffHunk, DiffModel,
    HunkModel,
};
use crate::lines::{
    find_line_end, is_terminated, join, lemma_join_concat, lemma_split_concat, lemma_split_step,
    split_lines,
};
use crate::markers::{end_line, minus_line, plus_line, start_line, MINUS_BYTE, PLUS_BYTE, SPACE_BYTE};

verus! {

/// Each of `lines` after the byte `prefix`.
pub open spec fn prefixed(prefix: u8, lines: Seq<Seq<u8>>) -> Seq<Seq<u8>> {
    Seq::new(lines.len(), |i: int| seq![prefix] + lines[i])
}

/// The lines that stand for one region of a diff: shared lines after a
/// space; else the left lines after `-`, then the right lines after `+`.
pub open spec fn diff_hunk_lines(hunk: DiffModel) -> Seq<Seq<u8>> {
    match hunk {
        DiffModel::Matching(content) => prefixed(SPACE_BYTE, split_lines(content)),
        DiffModel::Different(left, right) => prefixed(MINUS_BYTE, split_lines(left)) + prefixed(
            PLUS_BYTE,
            split_lines(right),
        ),
    }
}

/// The lines that stand for a diff, region by region.
pub open spec fn diff_lines(hunks: Seq<DiffModel>) -> Seq<Seq<u8>>
    decreases hunks.len(),
{
    if hunks.len() == 0 {
        Seq::empty()
    } else {
        diff_lines(hunks.drop_last()) + diff_hunk_lines(hunks.last())
    }
}

/// The text of an embedded diff.
pub open spec fn diff_text(hunks: Seq<DiffModel>) -> Seq<u8> {
    join(diff_lines(hunks))
}

/// The lines of the first `count` pairs of a block: for each pair the two
/// marker lines, then its diff.
pub open spec fn paired_lines(diffs: Seq<Seq<DiffModel>>, count: int) -> Seq<Seq<u8>>
    decreases count,
{
    if count <= 0 {
        Seq::empty()
    } else {
        paired_lines(diffs, count - 1) + seq![minus_line(), plus_line()] + diff_lines(
            diffs[count - 1],
        )
    }
}

/// The lines of sides without a partner: for each side the marker line
/// `marker`, then the lines of the side.
pub open spec fn lone_lines(marker: Seq<u8>, sides: Seq<Seq<u8>>) -> Seq<Seq<u8>>
    decreases sides.len(),
{
    if sides.len() == 0 {
        Seq::empty()
    } else {
        lone_lines(marker, sides.drop_last()) + seq![marker] + split_lines(sides.last())
    }
}

/// How many sides of a block are paired.
pub open spec fn pair_count(removes: Seq<Seq<u8>>, adds: Seq<Seq<u8>>) -> int {
    if removes.len() <= adds.len() {
        removes.len() as int
    } else {
        adds.len() as int
    }
}

/// The lines between the line that opens a block and the line that closes
/// it. `diffs` holds the line diff of each pair.
pub open spec fn body_lines(
    removes: Seq<Seq<u8>>,
    adds: Seq<Seq<u8>>,
    diffs: Seq<Seq<DiffModel>>,
) -> Seq<Seq<u8>> {
    let pairs = pair_count(removes, adds);
    paired_lines(diffs, pairs) + lone_lines(minus_line(), removes.skip(pairs)) + lone_lines(
        plus_line(),
        adds.skip(pairs),
    )
}

/// The text of a marked block.
pub open spec fn block_text(
    removes: Seq<Seq<u8>>,
    adds: Seq<Seq<u8>>,
    diffs: Seq<Seq<DiffModel>>,
) -> Seq<u8> {
    start_line() + join(body_lines(removes, adds, diffs)) + end_line()
}

/// The text of one hunk. `diffs` holds the line diff of each pair of a
/// conflict and is not looked at for resolved text.
pub open spec fn hunk_text(hunk: HunkModel, diffs: Seq<Seq<DiffModel>>) -> Seq<u8> {
    match hunk {
        HunkModel::Resolved(content) => content,
        HunkModel::Conflict { removes, adds } => block_text(removes, adds, diffs),
    }
}

/// The text of `hunks`, one after the other. `diffs` holds, at the place
/// of each hunk, the line diffs of its pairs.
pub open spec fn hunks_text(hunks: Seq<HunkModel>, diffs: Seq<Seq<Seq<DiffModel>>>) -> Seq<u8>
    decreases hunks.len(),
{
    if hunks.len() == 0 {
        Seq::empty()
    } else {
        hunks_text(hunks.drop_last(), diffs) + hunk_text(hunks.last(), diffs[hunks.len() - 1])
    }
}

/// What lists of diff hunks stand for.
pub open spec fn diff_model_lists(diffs: Seq<Vec<DiffHunk>>) -> Seq<Seq<DiffModel>> {
    Seq::new(diffs.len(), |i: int| diff_models(diffs[i]@))
}

/// Appends each line of `content` to `output`, after the byte `prefix`.
/// Empty content adds nothing.
pub fn write_prefixed_lines(prefix: u8, content: &[u8], output: &mut Vec<u8>)
    ensures
        final(output)@ == old(output)@ + join(prefixed(prefix, split_lines(content@))),
{
    let mut pos: usize = 0;
    let ghost mut done: Seq<Seq<u8>> = Seq::empty();
    proof {
        assert(content@.skip(0) =~= content@);
        assert(done + split_lines(content@) =~= split_lines(content@));
        assert(prefixed(prefix, done) =~= Seq::<Seq<u8>>::empty());
        assert(output@ =~= old(output)@ + join(prefixed(prefix, done)));
    }
    while pos < content.len()
        invariant
            pos <= content@.len(),
            split_lines(content@) == done + split_lines(content@.skip(pos as int)),
            output@ == old(output)@ + join(prefixed(prefix, done)),
        decreases content@.len() - pos,
    {
        let end = find_line_end(content, pos);
        let line = &content[pos..end];
        let ghost before = output@;
        output.push(prefix);
        output.extend_from_slice(line);
        proof {
            lemma_split_step(content@, pos as int);
            let rest = split_lines(content@.skip(end as int));
            assert(done + (seq![line@] + rest) =~= done.push(line@) + rest);
            let next = prefixed(prefix, done.push(line@));
            assert(next.drop_last() =~= prefixed(prefix, done));
            assert(next.last() == seq![prefix] + line@);
            assert(output@ =~= before + (seq![prefix] + line@));
            done = done.push(line@);
        }
        pos = end;
    }
    proof {
        assert(content@.skip(pos as int) =~= Seq::<u8>::empty());
        assert(done + split_lines(Seq::<u8>::empty()) =~= done);
    }
}

/// Appends the text of a line diff to `output`: each shared line after a
/// space; for each region that differs, the left lines after `-`, then the
/// right lines after `+`.
pub fn render_diff(hunks: &Vec<DiffHunk>, output: &mut Vec<u8>)
    ensures
        final(output)@ == old(output)@ + diff_text(diff_models(hunks@)),
{
    let mut i: usize = 0;
    let ghost models = diff_models(hunks@);
    proof {
        assert(models.take(0) =~= Seq::<DiffModel>::empty());
        assert(output@ =~= old(output)@ + diff_text(models.take(0)));
    }
    while i < hunks.len()
        invariant
            i <= hunks@.len(),
            models == diff_models(hunks@),
            output@ == old(output)@ + diff_text(models.take(i as int)),
        decreases hunks@.len() - i,
    {
        let ghost before = output@;
        match &hunks[i] {
            DiffHunk::Matching(content) => {
                write_prefixed_lines(SPACE_BYTE, content.as_slice(), output);
            },
            DiffHunk::Different(left, right) => {
                write_prefixed_lines(MINUS_BYTE, left.as_slice(), output);
                write_prefixed_lines(PLUS_BYTE, right.as_slice(), output);
                proof {
                    lemma_join_concat(
                        prefixed(MINUS_BYTE, split_lines(left@)),
                        prefixed(PLUS_BYTE, split_lines(right@)),
                    );
                }
            },
        }
        proof {
            let next = models.take(i + 1);
            assert(next.drop_last() =~= models.take(i as int));
            assert(next.last() == hunks@[i as int]@);
            assert(output@ =~= before + join(diff_hunk_lines(next.last())));
            lemma_join_concat(diff_lines(next.drop_last()), diff_hunk_lines(next.last()));
        }
        i = i + 1;
    }
    proof {
        assert(models.take(i as int) =~= models);
    }
}

/// A prefix goes before the lines of two lists as before each list.
pub proof fn lemma_prefixed_concat(prefix: u8, xs: Seq<Seq<u8>>, ys: Seq<Seq<u8>>)
    ensures
        prefixed(prefix, xs + ys) == prefixed(prefix, xs) + prefixed(prefix, ys),
{
    assert(prefixed(prefix, xs + ys) =~= prefixed(prefix, xs) + prefixed(prefix, ys));
}

/// Regions that hold whole lines make up a buffer that ends in a newline.
pub proof fn lemma_whole_regions_end_a_line(hunks: Seq<DiffModel>)
    requires
        forall|i: int|
            0 <= i < hunks.len() ==> is_terminated((#[trigger] hunks[i]).left()) && is_terminated(
                hunks[i].right(),
            ),
    ensures
        is_terminated(left_side(hunks)),
        is_terminated(right_side(hunks)),
    decreases hunks.len(),
{
    if hunks.len() != 0 {
        let front = hunks.drop_last();
        assert forall|i: int| 0 <= i < front.len() implies is_terminated(
            (#[trigger] front[i]).left(),
        ) && is_terminated(front[i].right()) by {
            assert(front[i] == hunks[i]);
        }
        lemma_whole_regions_end_a_line(front);
    }
}

/// The diff of a buffer with itself, when no region of it differs, is
/// written as the lines of the buffer, each after a space.
pub proof fn lemma_matching_regions_are_context(hunks: Seq<DiffModel>)
    requires
        regions_hold_lines(hunks),
        forall|i: int| 0 <= i < hunks.len() ==> #[trigger] hunks[i] is Matching,
    ensures
        diff_lines(hunks) == prefixed(SPACE_BYTE, split_lines(left_side(hunks))),
    decreases hunks.len(),
{
    if hunks.len() == 0 {
        assert(prefixed(SPACE_BYTE, split_lines(left_side(hunks))) =~= Seq::<Seq<u8>>::empty());
    } else {
        let front = hunks.drop_last();
        let last = hunks.last();
        assert forall|i: int| 0 <= i < front.len() implies is_terminated(
            (#[trigger] front[i]).left(),
        ) && is_terminated(front[i].right()) && front[i] is Matching by {
            assert(front[i] == hunks[i]);
        }
        lemma_matching_regions_are_context(front);
        lemma_whole_regions_end_a_line(front);
        lemma_split_concat(left_side(front), last.left());
        lemma_prefixed_concat(SPACE_BYTE, split_lines(left_side(front)), split_lines(last.left()));
    }
}

/// For two sides that are the same, the embedded diff holds the lines of
/// the side, each after a space, and nothing else.
pub proof fn lemma_identical_sides_render_as_context(hunks: Seq<DiffModel>, side: Seq<u8>)
    requires
        is_line_diff(hunks, side, side),
    ensures
        diff_lines(hunks) == prefixed(SPACE_BYTE, split_lines(side)),
        diff_text(hunks) == join(prefixed(SPACE_BYTE, split_lines(side))),
{
    lemma_matching_regions_are_context(hunks);
}

} // verus!
