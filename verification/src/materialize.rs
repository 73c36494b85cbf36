//! Writing a conflict as text that a person can edit.
//!
//! A conflict whose sides are all plain files is merged line by line and
//! written with markers. Any other conflict is described in words. The
//! store that holds the content, the line merge and the line diff are the
//! caller's: they are handed in as functions, and what is written is stated
//! over what they returned.

use vstd::prelude::*;
use itertools::Itertools;
use crate::backend::{all_files, Conflict, ConflictPart, ObjectId, TreeValue};
use crate::describe::{ascii_bytes, conflict_description, describe_conflict};
use crate::hunks::{
    buffers, diff_models, hunk_models, DiffHunk, DiffModel, HunkModel, MergeHunk, MergeResult,
};
use crate::lines::{join, lemma_join_concat, lemma_join_one, lemma_join_split, split_lines};
use crate::markers::{
    marker_line, minus_line, plus_line, write_marker_line, END_BYTE, MINUS_BYTE, PLUS_BYTE,
    START_BYTE,
};
use crate::render::{
    block_text, body_lines, diff_lines, diff_model_lists, diff_text, hunk_text, hunks_text,
    lone_lines, pair_count, paired_lines, render_diff,
};

verus! {

/// The parts of `parts` that are plain files, in their order.
pub open spec fn files_among(parts: Seq<ConflictPart>) -> Seq<ConflictPart>
    decreases parts.len(),
{
    if parts.len() == 0 {
        Seq::empty()
    } else if parts.last().is_file() {
        files_among(parts.drop_last()).push(parts.last())
    } else {
        files_among(parts.drop_last())
    }
}

/// The parts that a list of references points to.
pub open spec fn pointees(refs: Seq<&ConflictPart>) -> Seq<ConflictPart> {
    Seq::new(refs.len(), |i: int| *refs[i])
}

/// Picking the plain files drops a part unless all parts are plain files,
/// and then keeps them as they are.
pub proof fn lemma_files_among(parts: Seq<ConflictPart>)
    ensures
        files_among(parts).len() <= parts.len(),
        files_among(parts).len() == parts.len() <==> all_files(parts),
        all_files(parts) ==> files_among(parts) == parts,
        all_files(files_among(parts)),
    decreases parts.len(),
{
    if parts.len() != 0 {
        let front = parts.drop_last();
        lemma_files_among(front);
        if all_files(parts) {
            assert forall|i: int| 0 <= i < front.len() implies (#[trigger] front[i]).is_file() by {
                assert(front[i] == parts[i]);
            }
            assert(files_among(parts) =~= parts);
        }
        if files_among(parts).len() == parts.len() {
            assert forall|i: int| 0 <= i < parts.len() implies (#[trigger] parts[i]).is_file() by {
                if i < front.len() {
                    assert(front[i] == parts[i]);
                }
            }
        }
    }
}

/// Collects a reference to each element of `items`, in order, with
/// `Itertools::collect_vec`. That method gathers every item of the
/// iterator into a vector, as `Iterator::collect` does, and the iterator of
/// a slice yields a reference to each element from first to last.
#[verifier::external_body]
fn collect_refs<'a, T>(items: &'a [T]) -> (refs: Vec<&'a T>)
    ensures
        refs@.len() == items@.len(),
        forall|i: int| 0 <= i < items@.len() ==> *refs@[i] == items@[i],
{
    items.iter().collect_vec()
}

/// Picks the parts that are plain files: regular files that cannot be run.
pub fn file_parts<'a>(parts: &'a [ConflictPart]) -> (files: Vec<&'a ConflictPart>)
    ensures
        pointees(files@) == files_among(parts@),
{
    let all = collect_refs(parts);
    let mut files: Vec<&'a ConflictPart> = Vec::new();
    let mut i: usize = 0;
    proof {
        assert(parts@.take(0) =~= Seq::<ConflictPart>::empty());
        assert(pointees(files@) =~= files_among(parts@.take(0)));
    }
    while i < all.len()
        invariant
            i <= all@.len(),
            all@.len() == parts@.len(),
            forall|j: int| 0 <= j < parts@.len() ==> *all@[j] == parts@[j],
            pointees(files@) == files_among(parts@.take(i as int)),
        decreases all@.len() - i,
    {
        let part: &'a ConflictPart = all[i];
        let ghost before = files@;
        if part.is_file_part() {
            files.push(part);
        }
        proof {
            let next = parts@.take(i + 1);
            assert(next.drop_last() =~= parts@.take(i as int));
            assert(next.last() == parts@[i as int]);
            if part.is_file() {
                assert(pointees(files@) =~= pointees(before).push(*part));
            }
        }
        i = i + 1;
    }
    proof {
        assert(parts@.take(i as int) =~= parts@);
    }
    files
}

/// Reads the content of a part that is a plain file.
pub fn get_file_contents<R>(part: &ConflictPart, read: &R) -> (content: Vec<u8>) where
    R: Fn(&ObjectId) -> Vec<u8>,

    requires
        part.is_file(),
        call_requires(*read, (&part.file_id(),)),
    ensures
        call_ensures(*read, (&part.file_id(),), content),
{
    match &part.value {
        TreeValue::Normal { id, executable } => read(id),
        _ => vstd::pervasive::unreached(),
    }
}

/// `contents` holds, for each of `parts`, what `read` returned for its id.
pub open spec fn contents_read<R: Fn(&ObjectId) -> Vec<u8>>(
    read: &R,
    parts: Seq<ConflictPart>,
    contents: Seq<Vec<u8>>,
) -> bool {
    &&& contents.len() == parts.len()
    &&& forall|i: int|
        0 <= i < parts.len() ==> call_ensures(*read, (&parts[i].file_id(),), #[trigger] contents[i])
}

/// `diffs` holds, for each pair of sides, what `diff` returned for it.
pub open spec fn pair_diffs<D: Fn(&Vec<u8>, &Vec<u8>) -> Vec<DiffHunk>>(
    diff: &D,
    removes: Seq<Vec<u8>>,
    adds: Seq<Vec<u8>>,
    diffs: Seq<Vec<DiffHunk>>,
) -> bool {
    &&& diffs.len() == pair_count(buffers(removes), buffers(adds))
    &&& forall|i: int|
        0 <= i < diffs.len() ==> call_ensures(*diff, (&removes[i], &adds[i]), #[trigger] diffs[i])
}

/// `diffs` holds, at the place of each conflict in `hunks`, what `diff`
/// returned for each of its pairs.
pub open spec fn hunk_diffs<D: Fn(&Vec<u8>, &Vec<u8>) -> Vec<DiffHunk>>(
    diff: &D,
    hunks: Seq<MergeHunk>,
    diffs: Seq<Seq<Vec<DiffHunk>>>,
) -> bool {
    &&& diffs.len() == hunks.len()
    &&& forall|j: int|
        0 <= j < hunks.len() ==> match #[trigger] hunks[j] {
            MergeHunk::Conflict { removes, adds } => pair_diffs(diff, removes@, adds@, diffs[j]),
            MergeHunk::Resolved(_) => true,
        }
}

/// What lists of lists of diff hunks stand for.
pub open spec fn diff_model_tables(diffs: Seq<Seq<Vec<DiffHunk>>>) -> Seq<Seq<Seq<DiffModel>>> {
    Seq::new(diffs.len(), |j: int| diff_model_lists(diffs[j]))
}

/// The text of a merge: resolved content as it is, or the text of the
/// hunks with `diffs` at the places of the conflicts.
pub open spec fn merge_text(merged: MergeResult, diffs: Seq<Seq<Vec<DiffHunk>>>) -> Seq<u8> {
    match merged {
        MergeResult::Resolved(content) => content@,
        MergeResult::Conflict(hunks) => hunks_text(hunk_models(hunks@), diff_model_tables(diffs)),
    }
}

/// `diffs` holds what `diff` returned for the pairs of each conflict of the
/// merge. A merge without conflict asks for no diff.
pub open spec fn merge_diffs<D: Fn(&Vec<u8>, &Vec<u8>) -> Vec<DiffHunk>>(
    diff: &D,
    merged: MergeResult,
    diffs: Seq<Seq<Vec<DiffHunk>>>,
) -> bool {
    match merged {
        MergeResult::Resolved(_) => true,
        MergeResult::Conflict(hunks) => hunk_diffs(diff, hunks@, diffs),
    }
}

/// What the outside functions returned while a conflict of plain files was
/// written.
pub ghost struct Materialization {
    /// The content read for each removed side.
    pub removed: Vec<Vec<u8>>,
    /// The content read for each added side.
    pub added: Vec<Vec<u8>>,
    /// The line merge of these contents.
    pub merged: MergeResult,
    /// For a merge in hunks: at the place of each conflict, the line diff
    /// of each of its pairs.
    pub diffs: Seq<Seq<Vec<DiffHunk>>>,
}

impl Materialization {
    /// The text that stands for the merge.
    pub open spec fn text(self) -> Seq<u8> {
        merge_text(self.merged, self.diffs)
    }

    /// Each entry is what `read`, `merge` and `diff` returned for the
    /// sides of `conflict`: the contents for the ids of the sides, the
    /// merge for these contents, the diffs for the pairs of each conflict
    /// in the merge.
    pub open spec fn is_outcome_of<R, M, D>(
        self,
        conflict: Conflict,
        read: &R,
        merge: &M,
        diff: &D,
    ) -> bool where
        R: Fn(&ObjectId) -> Vec<u8>,
        M: Fn(&Vec<Vec<u8>>, &Vec<Vec<u8>>) -> MergeResult,
        D: Fn(&Vec<u8>, &Vec<u8>) -> Vec<DiffHunk>,
     {
        &&& contents_read(read, conflict.removes@, self.removed@)
        &&& contents_read(read, conflict.adds@, self.added@)
        &&& call_ensures(*merge, (&self.removed, &self.added), self.merged)
        &&& merge_diffs(diff, self.merged, self.diffs)
    }
}

/// The lines of the first pairs depend on the diffs of these pairs only.
proof fn lemma_paired_lines_agree(a: Seq<Seq<DiffModel>>, b: Seq<Seq<DiffModel>>, count: int)
    requires
        0 <= count <= a.len(),
        count <= b.len(),
        forall|i: int| 0 <= i < count ==> a[i] == b[i],
    ensures
        paired_lines(a, count) == paired_lines(b, count),
    decreases count,
{
    if count > 0 {
        lemma_paired_lines_agree(a, b, count - 1);
    }
}

/// The text of hunks depends on the diffs at the places of these hunks
/// only.
proof fn lemma_hunks_text_agree(
    hunks: Seq<HunkModel>,
    a: Seq<Seq<Seq<DiffModel>>>,
    b: Seq<Seq<Seq<DiffModel>>>,
)
    requires
        hunks.len() <= a.len(),
        hunks.len() <= b.len(),
        forall|j: int| 0 <= j < hunks.len() ==> a[j] == b[j],
    ensures
        hunks_text(hunks, a) == hunks_text(hunks, b),
    decreases hunks.len(),
{
    if hunks.len() > 0 {
        lemma_hunks_text_agree(hunks.drop_last(), a, b);
    }
}

/// Joining two lines gives the one after the other.
proof fn lemma_join_two(first: Seq<u8>, second: Seq<u8>)
    ensures
        join(seq![first, second]) == first + second,
{
    lemma_join_one(first);
    assert(seq![first, second].drop_last() =~= seq![first]);
}

/// Writes the line diff of `left` and `right` to `output`: each shared
/// line after a space; for each region that differs, the left lines after
/// `-`, then the right lines after `+`. An empty region writes nothing.
pub fn write_diff_hunks<D>(left: &Vec<u8>, right: &Vec<u8>, diff: &D, output: &mut Vec<u8>) where
    D: Fn(&Vec<u8>, &Vec<u8>) -> Vec<DiffHunk>,

    requires
        call_requires(*diff, (left, right)),
    ensures
        exists|hunks: Vec<DiffHunk>| #[trigger]
            call_ensures(*diff, (left, right), hunks) && final(output)@ == old(output)@
                + diff_text(diff_models(hunks@)),
{
    let hunks = diff(left, right);
    render_diff(&hunks, output);
}

/// Appends each of `sides`, from index `from` on, to `output`, each after
/// the marker line made of `marker`.
fn write_lone_sides(sides: &Vec<Vec<u8>>, from: usize, marker: u8, output: &mut Vec<u8>)
    requires
        from <= sides@.len(),
    ensures
        final(output)@ == old(output)@ + join(
            lone_lines(marker_line(marker), buffers(sides@).skip(from as int)),
        ),
{
    let ghost line = marker_line(marker);
    let ghost rest = buffers(sides@).skip(from as int);
    let mut i: usize = from;
    proof {
        assert(rest.take(0) =~= Seq::<Seq<u8>>::empty());
        assert(output@ =~= old(output)@ + join(lone_lines(line, rest.take(0))));
    }
    while i < sides.len()
        invariant
            from <= i <= sides@.len(),
            line == marker_line(marker),
            rest == buffers(sides@).skip(from as int),
            output@ == old(output)@ + join(lone_lines(line, rest.take(i - from))),
        decreases sides@.len() - i,
    {
        let ghost before = output@;
        write_marker_line(output, marker);
        output.extend_from_slice(sides[i].as_slice());
        proof {
            let next = rest.take(i + 1 - from);
            assert(next.drop_last() =~= rest.take(i - from));
            assert(next.last() == sides@[i as int]@);
            let front = lone_lines(line, next.drop_last());
            lemma_join_concat(front + seq![line], split_lines(next.last()));
            lemma_join_concat(front, seq![line]);
            lemma_join_one(line);
            lemma_join_split(next.last());
            assert(output@ =~= before + line + sides@[i as int]@);
        }
        i = i + 1;
    }
    proof {
        assert(rest.take(i - from) =~= rest);
    }
}

/// Writes one conflict as a marked block, and tells what `diff` returned
/// for each pair.
fn write_block<D>(
    removes: &Vec<Vec<u8>>,
    adds: &Vec<Vec<u8>>,
    diff: &D,
    output: &mut Vec<u8>,
) -> (diffs: Ghost<Seq<Vec<DiffHunk>>>) where D: Fn(&Vec<u8>, &Vec<u8>) -> Vec<DiffHunk>
    requires
        forall|l: &Vec<u8>, r: &Vec<u8>| call_requires(*diff, (l, r)),
    ensures
        pair_diffs(diff, removes@, adds@, diffs@),
        final(output)@ == old(output)@ + block_text(
            buffers(removes@),
            buffers(adds@),
            diff_model_lists(diffs@),
        ),
{
    let num_diffs = if removes.len() <= adds.len() {
        removes.len()
    } else {
        adds.len()
    };
    write_marker_line(output, START_BYTE);
    let ghost opened = output@;
    let ghost mut diffs: Seq<Vec<DiffHunk>> = Seq::empty();
    let mut i: usize = 0;
    proof {
        assert(output@ =~= opened + join(paired_lines(diff_model_lists(diffs), 0)));
    }
    while i < num_diffs
        invariant
            i <= num_diffs,
            num_diffs == pair_count(buffers(removes@), buffers(adds@)),
            forall|l: &Vec<u8>, r: &Vec<u8>| call_requires(*diff, (l, r)),
            diffs.len() == i,
            forall|j: int|
                0 <= j < i ==> call_ensures(*diff, (&removes@[j], &adds@[j]), #[trigger] diffs[j]),
            output@ == opened + join(paired_lines(diff_model_lists(diffs), i as int)),
        decreases num_diffs - i,
    {
        let ghost before = output@;
        let ghost models = diff_model_lists(diffs);
        write_marker_line(output, MINUS_BYTE);
        write_marker_line(output, PLUS_BYTE);
        let ghost marked = output@;
        write_diff_hunks(&removes[i], &adds[i], diff, output);
        proof {
            let found = choose|hunks: Vec<DiffHunk>| #[trigger]
                call_ensures(*diff, (&removes@[i as int], &adds@[i as int]), hunks) && output@
                    == marked + diff_text(diff_models(hunks@));
            diffs = diffs.push(found);
            let next = diff_model_lists(diffs);
            lemma_paired_lines_agree(models, next, i as int);
            let front = paired_lines(next, i as int);
            let markers = seq![minus_line(), plus_line()];
            lemma_join_concat(front + markers, diff_lines(next[i as int]));
            lemma_join_concat(front, markers);
            lemma_join_two(minus_line(), plus_line());
            assert(output@ =~= before + (minus_line() + plus_line()) + diff_text(next[i as int]));
        }
        i = i + 1;
    }
    write_lone_sides(removes, num_diffs, MINUS_BYTE, output);
    write_lone_sides(adds, num_diffs, PLUS_BYTE, output);
    let ghost body = output@;
    write_marker_line(output, END_BYTE);
    proof {
        let r = buffers(removes@);
        let a = buffers(adds@);
        let models = diff_model_lists(diffs);
        let pairs = paired_lines(models, num_diffs as int);
        let lone_r = lone_lines(minus_line(), r.skip(num_diffs as int));
        let lone_a = lone_lines(plus_line(), a.skip(num_diffs as int));
        lemma_join_concat(pairs + lone_r, lone_a);
        lemma_join_concat(pairs, lone_r);
        assert(body =~= opened + join(body_lines(r, a, models)));
        assert(output@ =~= old(output)@ + block_text(r, a, models));
    }
    Ghost(diffs)
}

/// Writes the hunks of a merge, one after the other, and tells what `diff`
/// returned for the pairs of each conflict.
fn write_hunks<D>(hunks: &Vec<MergeHunk>, diff: &D, output: &mut Vec<u8>) -> (diffs: Ghost<
    Seq<Seq<Vec<DiffHunk>>>,
>) where D: Fn(&Vec<u8>, &Vec<u8>) -> Vec<DiffHunk>
    requires
        forall|l: &Vec<u8>, r: &Vec<u8>| call_requires(*diff, (l, r)),
    ensures
        hunk_diffs(diff, hunks@, diffs@),
        final(output)@ == old(output)@ + hunks_text(hunk_models(hunks@), diff_model_tables(diffs@)),
{
    let ghost models = hunk_models(hunks@);
    let ghost mut diffs: Seq<Seq<Vec<DiffHunk>>> = Seq::empty();
    let mut i: usize = 0;
    proof {
        assert(models.take(0) =~= Seq::<HunkModel>::empty());
        assert(output@ =~= old(output)@ + hunks_text(models.take(0), diff_model_tables(diffs)));
    }
    while i < hunks.len()
        invariant
            i <= hunks@.len(),
            models == hunk_models(hunks@),
            forall|l: &Vec<u8>, r: &Vec<u8>| call_requires(*diff, (l, r)),
            hunk_diffs(diff, hunks@.take(i as int), diffs),
            output@ == old(output)@ + hunks_text(models.take(i as int), diff_model_tables(diffs)),
        decreases hunks@.len() - i,
    {
        let ghost before = output@;
        let ghost tables = diff_model_tables(diffs);
        let ghost mut found: Seq<Vec<DiffHunk>> = Seq::empty();
        match &hunks[i] {
            MergeHunk::Resolved(content) => {
                output.extend_from_slice(content.as_slice());
            },
            MergeHunk::Conflict { removes, adds } => {
                let block = write_block(removes, adds, diff, output);
                proof {
                    found = block@;
                }
            },
        }
        proof {
            let old_diffs = diffs;
            diffs = diffs.push(found);
            let next = models.take(i + 1);
            assert(next.drop_last() =~= models.take(i as int));
            assert(next.last() == hunks@[i as int]@);
            lemma_hunks_text_agree(next.drop_last(), tables, diff_model_tables(diffs));
            assert(diff_model_tables(diffs)[i as int] == diff_model_lists(found));
            assert(output@ =~= before + hunk_text(next.last(), diff_model_lists(found)));
            assert forall|j: int| 0 <= j < i + 1 implies match #[trigger] hunks@.take(i + 1)[j] {
                MergeHunk::Conflict { removes, adds } => pair_diffs(
                    diff,
                    removes@,
                    adds@,
                    diffs[j],
                ),
                MergeHunk::Resolved(_) => true,
            } by {
                if j < i {
                    assert(hunks@.take(i + 1)[j] == hunks@.take(i as int)[j]);
                    assert(diffs[j] == old_diffs[j]);
                }
            }
        }
        i = i + 1;
    }
    proof {
        assert(models.take(i as int) =~= models);
        assert(hunks@.take(i as int) =~= hunks@);
    }
    Ghost(diffs)
}

/// Reads the content of each of `parts`, all of which are plain files.
fn read_contents<R>(parts: &Vec<ConflictPart>, read: &R) -> (contents: Vec<Vec<u8>>) where
    R: Fn(&ObjectId) -> Vec<u8>,

    requires
        all_files(parts@),
        forall|id: &ObjectId| call_requires(*read, (id,)),
    ensures
        contents_read(read, parts@, contents@),
{
    let mut contents: Vec<Vec<u8>> = Vec::new();
    let mut i: usize = 0;
    while i < parts.len()
        invariant
            i <= parts@.len(),
            all_files(parts@),
            forall|id: &ObjectId| call_requires(*read, (id,)),
            contents@.len() == i,
            forall|j: int|
                0 <= j < i ==> call_ensures(
                    *read,
                    (&parts@[j].file_id(),),
                    #[trigger] contents@[j],
                ),
        decreases parts@.len() - i,
    {
        contents.push(get_file_contents(&parts[i], read));
        i = i + 1;
    }
    contents
}

/// Writes a line merge to `output`: a merge without conflict as its text;
/// a merge in hunks hunk by hunk, resolved text as it is and each conflict
/// as a marked block, with `diff` giving the line diff of each pair of
/// sides in it.
pub fn write_merge_result<D>(merged: &MergeResult, diff: &D, output: &mut Vec<u8>) where
    D: Fn(&Vec<u8>, &Vec<u8>) -> Vec<DiffHunk>,

    requires
        forall|l: &Vec<u8>, r: &Vec<u8>| call_requires(*diff, (l, r)),
    ensures
        exists|diffs: Seq<Seq<Vec<DiffHunk>>>| #[trigger]
            merge_diffs(diff, *merged, diffs) && final(output)@ == old(output)@ + merge_text(
                *merged,
                diffs,
            ),
{
    let ghost mut diffs: Seq<Seq<Vec<DiffHunk>>> = Seq::empty();
    match merged {
        MergeResult::Resolved(content) => {
            output.extend_from_slice(content.as_slice());
        },
        MergeResult::Conflict(hunks) => {
            let written = write_hunks(hunks, diff, output);
            proof {
                diffs = written@;
            }
        },
    }
    proof {
        assert(merge_diffs(diff, *merged, diffs));
        assert(output@ == old(output)@ + merge_text(*merged, diffs));
    }
}

/// Writes `conflict` to `output` as text that can be edited.
///
/// If a side is no plain file, the conflict is described in words and
/// none of the three functions is called. Otherwise `read` gives the
/// content of each side, `merge` merges the contents of the removed and of
/// the added sides line by line, and the merge is written: resolved text
/// as it is, each conflict as a marked block, with `diff` giving the line
/// diff of each pair of sides in it.
pub fn materialize_conflict<R, M, D>(
    conflict: &Conflict,
    read: &R,
    merge: &M,
    diff: &D,
    output: &mut Vec<u8>,
) where
    R: Fn(&ObjectId) -> Vec<u8>,
    M: Fn(&Vec<Vec<u8>>, &Vec<Vec<u8>>) -> MergeResult,
    D: Fn(&Vec<u8>, &Vec<u8>) -> Vec<DiffHunk>,

    requires
        forall|id: &ObjectId| call_requires(*read, (id,)),
        forall|r: &Vec<Vec<u8>>, a: &Vec<Vec<u8>>| call_requires(*merge, (r, a)),
        forall|l: &Vec<u8>, r: &Vec<u8>| call_requires(*diff, (l, r)),
    ensures
        !conflict.is_file_conflict() ==> final(output)@ == old(output)@ + ascii_bytes(
            conflict_description(*conflict),
        ),
        conflict.is_file_conflict() ==> exists|m: Materialization| #[trigger]
            m.is_outcome_of(*conflict, read, merge, diff) && final(output)@ == old(output)@
                + m.text(),
{
    let file_adds = file_parts(conflict.adds.as_slice());
    let file_removes = file_parts(conflict.removes.as_slice());
    proof {
        lemma_files_among(conflict.adds@);
        lemma_files_among(conflict.removes@);
    }
    if file_adds.len() != conflict.adds.len() || file_removes.len() != conflict.removes.len() {
        describe_conflict(conflict, output);
        return ;
    }
    let added = read_contents(&conflict.adds, read);
    let removed = read_contents(&conflict.removes, read);
    let merged = merge(&removed, &added);
    write_merge_result(&merged, diff, output);
    proof {
        let diffs = choose|diffs: Seq<Seq<Vec<DiffHunk>>>| #[trigger]
            merge_diffs(diff, merged, diffs) && output@ == old(output)@ + merge_text(
                merged,
                diffs,
            );
        let m = Materialization { removed, added, merged, diffs };
        assert(m.is_outcome_of(*conflict, read, merge, diff));
        assert(output@ == old(output)@ + m.text());
    }
}

} // verus!
