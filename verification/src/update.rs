//! Taking edited text back into a conflict.
//!
//! Text that equals what the conflict was written as changes nothing. Other
//! text is read for marked blocks. If it holds none of the expected shape,
//! the conflict stays unresolved. Otherwise each side gets new content: the
//! resolved text of every hunk, which all sides share, and from each
//! conflict the buffer at the side's own place.

use vstd::prelude::*;
use crate::backend::{all_files, Conflict, ConflictPart, ObjectId, TreeValue};
use crate::hunks::{buffers, hunk_models, HunkModel, MergeHunk};
use crate::lines::split_lines;
use crate::parse::{parse_conflict, parse_text, text_scan, text_start, TextScan};

verus! {

/// What `hunk` gives to the removed side at place `i`.
pub open spec fn removed_part(hunk: HunkModel, i: int) -> Seq<u8> {
    match hunk {
        HunkModel::Resolved(content) => content,
        HunkModel::Conflict { removes, adds } => if 0 <= i < removes.len() {
            removes[i]
        } else {
            Seq::empty()
        },
    }
}

/// What `hunk` gives to the added side at place `i`.
pub open spec fn added_part(hunk: HunkModel, i: int) -> Seq<u8> {
    match hunk {
        HunkModel::Resolved(content) => content,
        HunkModel::Conflict { removes, adds } => if 0 <= i < adds.len() {
            adds[i]
        } else {
            Seq::empty()
        },
    }
}

/// The content of the removed side at place `i`: what each of `hunks`
/// gives to it, in order.
pub open spec fn removed_content(hunks: Seq<HunkModel>, i: int) -> Seq<u8>
    decreases hunks.len(),
{
    if hunks.len() == 0 {
        Seq::empty()
    } else {
        removed_content(hunks.drop_last(), i) + removed_part(hunks.last(), i)
    }
}

/// The content of the added side at place `i`: what each of `hunks` gives
/// to it, in order.
pub open spec fn added_content(hunks: Seq<HunkModel>, i: int) -> Seq<u8>
    decreases hunks.len(),
{
    if hunks.len() == 0 {
        Seq::empty()
    } else {
        added_content(hunks.drop_last(), i) + added_part(hunks.last(), i)
    }
}

/// No conflict in `hunks` has more than `num_removes` removed or more than
/// `num_adds` added sides.
pub open spec fn sides_fit(hunks: Seq<HunkModel>, num_removes: nat, num_adds: nat) -> bool {
    forall|j: int|
        0 <= j < hunks.len() ==> match #[trigger] hunks[j] {
            HunkModel::Conflict { removes, adds } => removes.len() <= num_removes && adds.len()
                <= num_adds,
            HunkModel::Resolved(_) => true,
        }
}

/// Every conflict that a scan has found has the expected number of sides.
pub proof fn lemma_scan_sides_fit(
    st: TextScan,
    lines: Seq<Seq<u8>>,
    num_removes: nat,
    num_adds: nat,
)
    requires
        sides_fit(st.hunks, num_removes, num_adds),
    ensures
        sides_fit(text_scan(st, lines, num_removes, num_adds).hunks, num_removes, num_adds),
    decreases lines.len(),
{
    if lines.len() != 0 {
        lemma_scan_sides_fit(st, lines.drop_last(), num_removes, num_adds);
    }
}

/// Every conflict that is read from a text has the expected number of
/// sides.
pub proof fn lemma_parsed_sides_fit(input: Seq<u8>, num_removes: nat, num_adds: nat)
    requires
        parse_text(input, num_removes, num_adds) is Some,
    ensures
        sides_fit(parse_text(input, num_removes, num_adds)->0, num_removes, num_adds),
{
    lemma_scan_sides_fit(text_start(), split_lines(input), num_removes, num_adds);
}

/// `count` empty buffers.
fn empty_buffers(count: usize) -> (bufs: Vec<Vec<u8>>)
    ensures
        bufs@.len() == count,
        forall|i: int| 0 <= i < count ==> (#[trigger] bufs@[i])@ == Seq::<u8>::empty(),
{
    let mut bufs: Vec<Vec<u8>> = Vec::new();
    let mut i: usize = 0;
    while i < count
        invariant
            i <= count,
            bufs@.len() == i,
            forall|j: int| 0 <= j < i ==> (#[trigger] bufs@[j])@ == Seq::<u8>::empty(),
        decreases count - i,
    {
        bufs.push(Vec::new());
        i = i + 1;
    }
    bufs
}

/// Appends `bytes` to each of `bufs`.
fn append_to_all(bufs: &mut Vec<Vec<u8>>, bytes: &[u8])
    ensures
        final(bufs)@.len() == old(bufs)@.len(),
        forall|i: int|
            0 <= i < old(bufs)@.len() ==> (#[trigger] final(bufs)@[i])@ == old(bufs)@[i]@ + bytes@,
{
    let mut i: usize = 0;
    while i < bufs.len()
        invariant
            i <= bufs@.len(),
            bufs@.len() == old(bufs)@.len(),
            forall|j: int| 0 <= j < i ==> (#[trigger] bufs@[j])@ == old(bufs)@[j]@ + bytes@,
            forall|j: int| i <= j < bufs@.len() ==> (#[trigger] bufs@[j]) == old(bufs)@[j],
        decreases bufs@.len() - i,
    {
        bufs[i].extend_from_slice(bytes);
        i = i + 1;
    }
}

/// Appends each of `parts` to the buffer of `bufs` at the same place.
fn append_to_each(bufs: &mut Vec<Vec<u8>>, parts: &Vec<Vec<u8>>)
    requires
        parts@.len() <= old(bufs)@.len(),
    ensures
        final(bufs)@.len() == old(bufs)@.len(),
        forall|i: int|
            0 <= i < parts@.len() ==> (#[trigger] final(bufs)@[i])@ == old(bufs)@[i]@ + parts@[i]@,
        forall|i: int|
            parts@.len() <= i < old(bufs)@.len() ==> (#[trigger] final(bufs)@[i])@ == old(
                bufs,
            )@[i]@,
{
    let mut i: usize = 0;
    while i < parts.len()
        invariant
            i <= parts@.len() <= bufs@.len(),
            bufs@.len() == old(bufs)@.len(),
            forall|j: int| 0 <= j < i ==> (#[trigger] bufs@[j])@ == old(bufs)@[j]@ + parts@[j]@,
            forall|j: int| i <= j < bufs@.len() ==> (#[trigger] bufs@[j]) == old(bufs)@[j],
        decreases parts@.len() - i,
    {
        bufs[i].extend_from_slice(parts[i].as_slice());
        i = i + 1;
    }
}

/// Builds the content of each side from the hunks of an edited text: the
/// resolved text of every hunk goes to all sides, and each buffer of a
/// conflict to the side at its place.
pub fn rebuild_contents(hunks: &Vec<MergeHunk>, num_removes: usize, num_adds: usize) -> (contents: (
    Vec<Vec<u8>>,
    Vec<Vec<u8>>,
))
    requires
        sides_fit(hunk_models(hunks@), num_removes as nat, num_adds as nat),
    ensures
        contents.0@.len() == num_removes,
        contents.1@.len() == num_adds,
        forall|i: int|
            0 <= i < num_removes ==> (#[trigger] contents.0@[i])@ == removed_content(
                hunk_models(hunks@),
                i,
            ),
        forall|i: int|
            0 <= i < num_adds ==> (#[trigger] contents.1@[i])@ == added_content(
                hunk_models(hunks@),
                i,
            ),
{
    let mut removed = empty_buffers(num_removes);
    let mut added = empty_buffers(num_adds);
    let ghost models = hunk_models(hunks@);
    let mut k: usize = 0;
    proof {
        assert(models.take(0) =~= Seq::<HunkModel>::empty());
    }
    while k < hunks.len()
        invariant
            k <= hunks@.len(),
            models == hunk_models(hunks@),
            sides_fit(models, num_removes as nat, num_adds as nat),
            removed@.len() == num_removes,
            added@.len() == num_adds,
            forall|i: int|
                0 <= i < num_removes ==> (#[trigger] removed@[i])@ == removed_content(
                    models.take(k as int),
                    i,
                ),
            forall|i: int|
                0 <= i < num_adds ==> (#[trigger] added@[i])@ == added_content(
                    models.take(k as int),
                    i,
                ),
        decreases hunks@.len() - k,
    {
        proof {
            let next = models.take(k + 1);
            assert(next.drop_last() =~= models.take(k as int));
            assert(next.last() == models[k as int]);
            assert(models[k as int] == hunks@[k as int]@);
        }
        match &hunks[k] {
            MergeHunk::Resolved(content) => {
                append_to_all(&mut removed, content.as_slice());
                append_to_all(&mut added, content.as_slice());
            },
            MergeHunk::Conflict { removes, adds } => {
                append_to_each(&mut removed, removes);
                append_to_each(&mut added, adds);
            },
        }
        k = k + 1;
    }
    proof {
        assert(models.take(k as int) =~= models);
    }
    (removed, added)
}

/// What an edit of the text of a conflict asks for.
#[derive(Clone, Debug, PartialEq, Eq)]
pub enum UpdatePlan {
    /// The text is what the conflict was written as: the conflict stays as
    /// it is, under its id.
    Unchanged,
    /// The text is new, but holds no marked block of the expected shape:
    /// the conflict stays unresolved.
    Unresolved,
    /// The text gives every side new content, which is to be stored.
    Rewrite { removed: Vec<Vec<u8>>, added: Vec<Vec<u8>> },
}

/// Tells whether two buffers hold the same bytes.
fn same_bytes(a: &[u8], b: &[u8]) -> (same: bool)
    ensures
        same == (a@ == b@),
{
    if a.len() != b.len() {
        return false;
    }
    let mut i: usize = 0;
    while i < a.len()
        invariant
            i <= a@.len(),
            a@.len() == b@.len(),
            forall|j: int| 0 <= j < i ==> a@[j] == b@[j],
        decreases a@.len() - i,
    {
        if a[i] != b[i] {
            return false;
        }
        i = i + 1;
    }
    assert(a@ =~= b@);
    true
}

/// Decides what edited text means for a conflict with `num_removes`
/// removed and `num_adds` added sides. `old_content` is the text that the
/// conflict was written as, `content` the text as it is now.
pub fn plan_update(
    old_content: &[u8],
    content: &[u8],
    num_removes: usize,
    num_adds: usize,
) -> (plan: UpdatePlan)
    ensures
        plan is Unchanged <==> content@ == old_content@,
        plan is Unresolved <==> content@ != old_content@ && parse_text(
            content@,
            num_removes as nat,
            num_adds as nat,
        ) is None,
        match plan {
            UpdatePlan::Rewrite { removed, added } => {
                let hunks = parse_text(content@, num_removes as nat, num_adds as nat)->0;
                &&& removed@.len() == num_removes
                &&& added@.len() == num_adds
                &&& forall|i: int|
                    0 <= i < num_removes ==> (#[trigger] removed@[i])@ == removed_content(hunks, i)
                &&& forall|i: int|
                    0 <= i < num_adds ==> (#[trigger] added@[i])@ == added_content(hunks, i)
            },
            _ => true,
        },
{
    if same_bytes(content, old_content) {
        return UpdatePlan::Unchanged;
    }
    match parse_conflict(content, num_removes, num_adds) {
        None => UpdatePlan::Unresolved,
        Some(hunks) => {
            proof {
                lemma_parsed_sides_fit(content@, num_removes as nat, num_adds as nat);
            }
            let (removed, added) = rebuild_contents(&hunks, num_removes, num_adds);
            UpdatePlan::Rewrite { removed, added }
        },
    }
}

/// The parts are plain files whose ids are `ids`, in order.
pub open spec fn are_files_with_ids(parts: Seq<ConflictPart>, ids: Seq<ObjectId>) -> bool {
    &&& parts.len() == ids.len()
    &&& forall|i: int|
        0 <= i < parts.len() ==> (#[trigger] parts[i]).is_file() && parts[i].file_id()@ == ids[i]@
}

/// `parts`, each with the id from `ids` at its place.
fn replace_file_ids(parts: &Vec<ConflictPart>, ids: &Vec<ObjectId>) -> (updated: Vec<ConflictPart>)
    requires
        all_files(parts@),
        ids@.len() == parts@.len(),
    ensures
        are_files_with_ids(updated@, ids@),
{
    let mut updated: Vec<ConflictPart> = Vec::new();
    let mut i: usize = 0;
    while i < parts.len()
        invariant
            i <= parts@.len(),
            all_files(parts@),
            ids@.len() == parts@.len(),
            updated@.len() == i,
            forall|j: int|
                0 <= j < i ==> (#[trigger] updated@[j]).is_file() && updated@[j].file_id()@
                    == ids@[j]@,
        decreases parts@.len() - i,
    {
        assert(parts@[i as int].is_file());
        if let TreeValue::Normal { id, executable } = &parts[i].value {
            let id = ObjectId(ids[i].0.clone());
            updated.push(ConflictPart { value: TreeValue::Normal { id, executable: *executable } });
        }
        i = i + 1;
    }
    updated
}

impl Conflict {
    /// The conflict with new content for every side: `removed_ids` and
    /// `added_ids` hold the id of the new content of each side, in the
    /// order of the sides. Only a conflict of plain files can take new
    /// content.
    pub fn with_file_ids(&self, removed_ids: &Vec<ObjectId>, added_ids: &Vec<ObjectId>) -> (updated:
        Conflict)
        requires
            self.is_file_conflict(),
            removed_ids@.len() == self.removes@.len(),
            added_ids@.len() == self.adds@.len(),
        ensures
            are_files_with_ids(updated.removes@, removed_ids@),
            are_files_with_ids(updated.adds@, added_ids@),
    {
        Conflict {
            removes: replace_file_ids(&self.removes, removed_ids),
            adds: replace_file_ids(&self.adds, added_ids),
        }
    }
}

} // verus!
