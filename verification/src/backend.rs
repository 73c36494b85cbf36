//! The values that a conflict is made of: content ids, the kinds of tree
//! entry, and the conflict with its removed and added sides.

use vstd::prelude::*;
use vstd::string::*;
use vstd::utf8::is_ascii_chars;

verus! {

/// The identity of stored content: the bytes of its hash.
#[derive(Clone, Debug, PartialEq, Eq, Hash)]
pub struct ObjectId(pub Vec<u8>);

impl View for ObjectId {
    type V = Seq<u8>;

    open spec fn view(&self) -> Seq<u8> {
        self.0@
    }
}

/// The sixteen digits of lower-case hexadecimal, in order.
pub open spec fn hex_digits() -> Seq<char> {
    "0123456789abcdef"@
}

/// `bytes` in hexadecimal: two digits for each byte, the high half first.
pub open spec fn hex_text(bytes: Seq<u8>) -> Seq<char>
    decreases bytes.len(),
{
    if bytes.len() == 0 {
        Seq::empty()
    } else {
        hex_text(bytes.drop_last()).push(hex_digits()[bytes.last() as int / 16]).push(
            hex_digits()[bytes.last() as int % 16],
        )
    }
}

impl ObjectId {
    /// The id in lower-case hexadecimal.
    pub fn hex(&self) -> (text: String)
        ensures
            text@ == hex_text(self@),
            is_ascii_chars(text@),
    {
        let digits = "0123456789abcdef";
        proof {
            reveal_strlit("0123456789abcdef");
        }
        let mut text = String::new();
        let mut i: usize = 0;
        while i < self.0.len()
            invariant
                i <= self.0@.len(),
                digits@ == hex_digits(),
                digits@.len() == 16,
                is_ascii_chars(digits@),
                text@ == hex_text(self.0@.take(i as int)),
                is_ascii_chars(text@),
            decreases self.0@.len() - i,
        {
            let byte = self.0[i];
            let high = (byte / 16) as usize;
            let low = (byte % 16) as usize;
            text.append(digits.substring_ascii(high, high + 1));
            text.append(digits.substring_ascii(low, low + 1));
            proof {
                let next = self.0@.take(i + 1);
                assert(next.drop_last() =~= self.0@.take(i as int));
                assert(next.last() == byte);
                assert(digits@.subrange(high as int, high + 1) =~= seq![digits@[high as int]]);
                assert(digits@.subrange(low as int, low + 1) =~= seq![digits@[low as int]]);
                assert(text@ =~= hex_text(next));
            }
            i = i + 1;
        }
        proof {
            assert(self.0@.take(i as int) =~= self.0@);
        }
        text
    }
}

/// An entry of a tree: what a path holds on one side of a merge.
#[derive(Clone, Debug, PartialEq, Eq, Hash)]
pub enum TreeValue {
    /// A regular file with its content and whether it can be run.
    Normal { id: ObjectId, executable: bool },
    /// A symbolic link with its target as content.
    Symlink(ObjectId),
    /// A directory.
    Tree(ObjectId),
    /// A commit of another repository that is embedded here.
    GitSubmodule(ObjectId),
    /// A conflict that was stored as a value of its own.
    Conflict(ObjectId),
}

impl TreeValue {
    /// The value is a regular file that cannot be run: the one kind whose
    /// content is merged and compared as text.
    pub open spec fn is_file(&self) -> bool {
        match self {
            TreeValue::Normal { id, executable } => !*executable,
            _ => false,
        }
    }

    /// The id that the value carries.
    pub open spec fn id(&self) -> Seq<u8> {
        match self {
            TreeValue::Normal { id, executable } => id@,
            TreeValue::Symlink(id) => id@,
            TreeValue::Tree(id) => id@,
            TreeValue::GitSubmodule(id) => id@,
            TreeValue::Conflict(id) => id@,
        }
    }
}

/// One side of a conflict.
#[derive(Clone, Debug, PartialEq, Eq, Hash)]
pub struct ConflictPart {
    pub value: TreeValue,
}

impl ConflictPart {
    /// The part is a regular file that cannot be run.
    pub open spec fn is_file(&self) -> bool {
        self.value.is_file()
    }

    /// The id of the content of a part that is a regular file.
    pub open spec fn file_id(&self) -> ObjectId {
        match self.value {
            TreeValue::Normal { id, executable } => id,
            TreeValue::Symlink(id) => id,
            TreeValue::Tree(id) => id,
            TreeValue::GitSubmodule(id) => id,
            TreeValue::Conflict(id) => id,
        }
    }

    /// Tells whether the part is a regular file that cannot be run.
    pub fn is_file_part(&self) -> (b: bool)
        ensures
            b == self.is_file(),
    {
        match &self.value {
            TreeValue::Normal { id, executable } => !*executable,
            _ => false,
        }
    }
}

/// A conflict: the states that a merge removed and the states that it
/// added, each in the order of the merge.
#[derive(Clone, Debug, PartialEq, Eq, Hash)]
pub struct Conflict {
    pub removes: Vec<ConflictPart>,
    pub adds: Vec<ConflictPart>,
}

/// Every part in `parts` is a regular file that cannot be run.
pub open spec fn all_files(parts: Seq<ConflictPart>) -> bool {
    forall|i: int| 0 <= i < parts.len() ==> (#[trigger] parts[i]).is_file()
}

impl Conflict {
    /// Every side is a regular file that cannot be run, so that the
    /// conflict can be written with markers.
    pub open spec fn is_file_conflict(&self) -> bool {
        all_files(self.removes@) && all_files(self.adds@)
    }
}

} // verus!
