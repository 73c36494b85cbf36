//! The pieces that a line merge and a line diff are made of, and what each
//! stands for.

use vstd::prelude::*;
use crate::lines::is_terminated;

verus! {

/// One region of a line diff of two buffers.
#[derive(Clone, Debug, PartialEq, Eq)]
pub enum DiffHunk {
    /// Lines that both buffers hold.
    Matching(Vec<u8>),
    /// Lines of the left buffer, and the lines of the right buffer that
    /// stand in their place.
    Different(Vec<u8>, Vec<u8>),
}

/// What a `DiffHunk` stands for.
pub ghost enum DiffModel {
    Matching(Seq<u8>),
    Different(Seq<u8>, Seq<u8>),
}

impl View for DiffHunk {
    type V = DiffModel;

    open spec fn view(&self) -> DiffModel {
        match self {
            DiffHunk::Matching(content) => DiffModel::Matching(content@),
            DiffHunk::Different(left, right) => DiffModel::Different(left@, right@),
        }
    }
}

/// One piece of a line merge: merged text, or the sides that still compete.
#[derive(Clone, Debug, PartialEq, Eq)]
pub enum MergeHunk {
    /// Text on which all sides agree.
    Resolved(Vec<u8>),
    /// One buffer for each removed side and one for each added side.
    Conflict { removes: Vec<Vec<u8>>, adds: Vec<Vec<u8>> },
}

/// What a `MergeHunk` stands for.
pub ghost enum HunkModel {
    Resolved(Seq<u8>),
    Conflict { removes: Seq<Seq<u8>>, adds: Seq<Seq<u8>> },
}

impl View for MergeHunk {
    type V = HunkModel;

    open spec fn view(&self) -> HunkModel {
        match self {
            MergeHunk::Resolved(content) => HunkModel::Resolved(content@),
            MergeHunk::Conflict { removes, adds } => HunkModel::Conflict {
                removes: buffers(removes@),
                adds: buffers(adds@),
            },
        }
    }
}

/// What a line merge of several sides gives.
#[derive(Clone, Debug, PartialEq, Eq)]
pub enum MergeResult {
    /// The sides merged without conflict into this text.
    Resolved(Vec<u8>),
    /// The merge in pieces, at least one of which is a conflict.
    Conflict(Vec<MergeHunk>),
}

/// The contents of a list of buffers.
pub open spec fn buffers(v: Seq<Vec<u8>>) -> Seq<Seq<u8>> {
    Seq::new(v.len(), |i: int| v[i]@)
}

/// What a list of diff hunks stands for.
pub open spec fn diff_models(v: Seq<DiffHunk>) -> Seq<DiffModel> {
    Seq::new(v.len(), |i: int| v[i]@)
}

/// What a list of merge hunks stands for.
pub open spec fn hunk_models(v: Seq<MergeHunk>) -> Seq<HunkModel> {
    Seq::new(v.len(), |i: int| v[i]@)
}

impl DiffModel {
    /// The lines of the left buffer that the region holds.
    pub open spec fn left(self) -> Seq<u8> {
        match self {
            DiffModel::Matching(content) => content,
            DiffModel::Different(left, right) => left,
        }
    }

    /// The lines of the right buffer that the region holds.
    pub open spec fn right(self) -> Seq<u8> {
        match self {
            DiffModel::Matching(content) => content,
            DiffModel::Different(left, right) => right,
        }
    }
}

/// The left buffer of a diff: what its regions hold of it, in order.
pub open spec fn left_side(hunks: Seq<DiffModel>) -> Seq<u8>
    decreases hunks.len(),
{
    if hunks.len() == 0 {
        Seq::empty()
    } else {
        left_side(hunks.drop_last()) + hunks.last().left()
    }
}

/// The right buffer of a diff: what its regions hold of it, in order.
pub open spec fn right_side(hunks: Seq<DiffModel>) -> Seq<u8>
    decreases hunks.len(),
{
    if hunks.len() == 0 {
        Seq::empty()
    } else {
        right_side(hunks.drop_last()) + hunks.last().right()
    }
}

/// Every region but the last holds whole lines only, so that each region
/// starts where a line starts.
pub open spec fn regions_hold_lines(hunks: Seq<DiffModel>) -> bool {
    forall|i: int|
        0 <= i < hunks.len() - 1 ==> is_terminated((#[trigger] hunks[i]).left()) && is_terminated(
            hunks[i].right(),
        )
}

/// `hunks` is a line diff of `left` and `right`: its regions cover both
/// buffers without a gap, each starts where a line starts, and buffers that
/// are the same have no region that differs.
pub open spec fn is_line_diff(hunks: Seq<DiffModel>, left: Seq<u8>, right: Seq<u8>) -> bool {
    &&& left_side(hunks) == left
    &&& right_side(hunks) == right
    &&& regions_hold_lines(hunks)
    &&& left == right ==> forall|i: int| 0 <= i < hunks.len() ==> #[trigger] hunks[i] is Matching
}

} // verus!
