//! Describing a conflict in words, for conflicts that cannot be written
//! with markers because a side is no plain file.

use vstd::prelude::*;
use vstd::string::*;
use vstd::utf8::{is_ascii_chars, is_ascii_chars_encode_utf8};
use crate::backend::{hex_digits, hex_text, Conflict, ConflictPart, TreeValue};
use crate::lines::{lemma_lines_lack_byte, split_lines};
use crate::markers::{
    end_line, is_marker, minus_line, plus_line, start_line, END_BYTE, MINUS_BYTE, PLUS_BYTE,
    START_BYTE,
};
use crate::parse::{lemma_text_without_start_line, parse_text};

verus! {

/// The words that name the kind of `value`, up to where its id follows.
pub open spec fn kind_label(value: TreeValue) -> Seq<char> {
    match value {
        TreeValue::Normal { id, executable } => if executable {
            "executable file with id "@
        } else {
            "file with id "@
        },
        TreeValue::Symlink(id) => "symlink with id "@,
        TreeValue::Tree(id) => "tree with id "@,
        TreeValue::GitSubmodule(id) => "Git submodule with id "@,
        TreeValue::Conflict(id) => "Conflict with id "@,
    }
}

/// The description of one side: its kind, then its id in hexadecimal.
pub open spec fn part_description(part: ConflictPart) -> Seq<char> {
    kind_label(part.value) + hex_text(part.value.id())
}

/// One line for each of `parts`, in order: two spaces, `verb`, a space, the
/// description of the part.
pub open spec fn side_lines(verb: Seq<char>, parts: Seq<ConflictPart>) -> Seq<char>
    decreases parts.len(),
{
    if parts.len() == 0 {
        Seq::empty()
    } else {
        side_lines(verb, parts.drop_last()) + "  "@ + verb + " "@ + part_description(parts.last())
            + "\n"@
    }
}

/// The description of a conflict: a header line, a line for each removed
/// side, then a line for each added side.
pub open spec fn conflict_description(conflict: Conflict) -> Seq<char> {
    "Conflict:\n"@ + side_lines("Removing"@, conflict.removes@) + side_lines(
        "Adding"@,
        conflict.adds@,
    )
}

/// The bytes of text that holds ASCII only: one byte for each character.
pub open spec fn ascii_bytes(chars: Seq<char>) -> Seq<u8> {
    Seq::new(chars.len(), |i: int| chars[i] as u8)
}

/// `chars` is ASCII and holds none of `<`, `>`, `-` and `+`, the
/// characters that marker lines are made of.
pub open spec fn is_plain(chars: Seq<char>) -> bool {
    forall|i: int|
        0 <= i < chars.len() ==> '\0' <= #[trigger] chars[i] <= '\u{7f}' && chars[i] != '<'
            && chars[i] != '>' && chars[i] != '-' && chars[i] != '+'
}

/// Hexadecimal text is plain.
pub proof fn lemma_hex_text_is_plain(bytes: Seq<u8>)
    ensures
        is_plain(hex_text(bytes)),
    decreases bytes.len(),
{
    reveal_strlit("0123456789abcdef");
    if bytes.len() != 0 {
        lemma_hex_text_is_plain(bytes.drop_last());
        let high = bytes.last() as int / 16;
        let low = bytes.last() as int % 16;
        assert(is_plain(hex_digits()));
        assert(is_plain(seq![hex_digits()[high]]));
    }
}

/// The description of a side is plain.
pub proof fn lemma_part_description_is_plain(part: ConflictPart)
    ensures
        is_plain(part_description(part)),
{
    reveal_strlit("executable file with id ");
    reveal_strlit("file with id ");
    reveal_strlit("symlink with id ");
    reveal_strlit("tree with id ");
    reveal_strlit("Git submodule with id ");
    reveal_strlit("Conflict with id ");
    lemma_hex_text_is_plain(part.value.id());
    assert(is_plain(kind_label(part.value)));
}

/// Describes one side of a conflict: the kind of object that it is and the
/// id of the object in hexadecimal.
pub fn describe_conflict_part(part: &ConflictPart) -> (text: String)
    ensures
        text@ == part_description(*part),
{
    match &part.value {
        TreeValue::Normal { id, executable } => {
            if *executable {
                String::from_str("executable file with id ").concat(id.hex().as_str())
            } else {
                String::from_str("file with id ").concat(id.hex().as_str())
            }
        },
        TreeValue::Symlink(id) => String::from_str("symlink with id ").concat(id.hex().as_str()),
        TreeValue::Tree(id) => String::from_str("tree with id ").concat(id.hex().as_str()),
        TreeValue::GitSubmodule(id) => String::from_str("Git submodule with id ").concat(
            id.hex().as_str(),
        ),
        TreeValue::Conflict(id) => String::from_str("Conflict with id ").concat(
            id.hex().as_str(),
        ),
    }
}

/// The lines that describe the sides of one kind are plain.
pub proof fn lemma_side_lines_are_plain(verb: Seq<char>, parts: Seq<ConflictPart>)
    requires
        is_plain(verb),
    ensures
        is_plain(side_lines(verb, parts)),
    decreases parts.len(),
{
    reveal_strlit("  ");
    reveal_strlit(" ");
    reveal_strlit("\n");
    if parts.len() != 0 {
        lemma_side_lines_are_plain(verb, parts.drop_last());
        lemma_part_description_is_plain(parts.last());
    }
}

/// The description of a conflict is ASCII and holds no character of a
/// marker line.
pub proof fn lemma_description_is_plain(conflict: Conflict)
    ensures
        is_plain(conflict_description(conflict)),
        is_ascii_chars(conflict_description(conflict)),
{
    reveal_strlit("Conflict:\n");
    reveal_strlit("Removing");
    reveal_strlit("Adding");
    lemma_side_lines_are_plain("Removing"@, conflict.removes@);
    lemma_side_lines_are_plain("Adding"@, conflict.adds@);
}

/// The description of a conflict holds no marker line, and reading it for
/// marked blocks finds none, whatever numbers of sides are expected.
pub proof fn lemma_description_holds_no_block(
    conflict: Conflict,
    num_removes: nat,
    num_adds: nat,
)
    ensures
        forall|i: int|
            0 <= i < split_lines(ascii_bytes(conflict_description(conflict))).len() ==> !is_marker(
                #[trigger] split_lines(ascii_bytes(conflict_description(conflict)))[i],
            ),
        parse_text(ascii_bytes(conflict_description(conflict)), num_removes, num_adds) is None,
{
    let chars = conflict_description(conflict);
    let text = ascii_bytes(chars);
    let lines = split_lines(text);
    lemma_description_is_plain(conflict);
    assert forall|k: int| 0 <= k < text.len() implies text[k] != START_BYTE && text[k] != END_BYTE
        && text[k] != MINUS_BYTE && text[k] != PLUS_BYTE by {
        assert(text[k] == chars[k] as u8);
    }
    lemma_lines_lack_byte(text, START_BYTE);
    lemma_lines_lack_byte(text, END_BYTE);
    lemma_lines_lack_byte(text, MINUS_BYTE);
    lemma_lines_lack_byte(text, PLUS_BYTE);
    assert forall|i: int| 0 <= i < lines.len() implies !is_marker(#[trigger] lines[i]) by {
        assert(start_line()[0] == START_BYTE);
        assert(end_line()[0] == END_BYTE);
        assert(minus_line()[0] == MINUS_BYTE);
        assert(plus_line()[0] == PLUS_BYTE);
        if lines[i].len() > 0 {
            assert(lines[i][0] != START_BYTE);
            assert(lines[i][0] != END_BYTE);
            assert(lines[i][0] != MINUS_BYTE);
            assert(lines[i][0] != PLUS_BYTE);
        }
    }
    lemma_text_without_start_line(text, num_removes, num_adds);
}

/// Appends a line for each of `parts` to `text`.
fn append_side_lines(text: &mut String, verb: &str, parts: &Vec<ConflictPart>)
    ensures
        final(text)@ == old(text)@ + side_lines(verb@, parts@),
{
    let mut i: usize = 0;
    proof {
        assert(parts@.take(0) =~= Seq::<ConflictPart>::empty());
        assert(text@ =~= old(text)@ + side_lines(verb@, parts@.take(0)));
    }
    while i < parts.len()
        invariant
            i <= parts@.len(),
            text@ == old(text)@ + side_lines(verb@, parts@.take(i as int)),
        decreases parts@.len() - i,
    {
        text.append("  ");
        text.append(verb);
        text.append(" ");
        text.append(describe_conflict_part(&parts[i]).as_str());
        text.append("\n");
        proof {
            let next = parts@.take(i + 1);
            assert(next.drop_last() =~= parts@.take(i as int));
            assert(next.last() == parts@[i as int]);
            assert(text@ =~= old(text)@ + side_lines(verb@, next));
        }
        i = i + 1;
    }
    proof {
        assert(parts@.take(i as int) =~= parts@);
    }
}

/// Writes the description of `conflict` to `output`: the line `Conflict:`,
/// then a line `  Removing ...` for each removed side and a line
/// `  Adding ...` for each added side, in the order of the conflict.
pub fn describe_conflict(conflict: &Conflict, output: &mut Vec<u8>)
    ensures
        final(output)@ == old(output)@ + ascii_bytes(conflict_description(*conflict)),
{
    let mut text = String::from_str("Conflict:\n");
    append_side_lines(&mut text, "Removing", &conflict.removes);
    append_side_lines(&mut text, "Adding", &conflict.adds);
    let bytes = text.as_str().as_bytes();
    proof {
        lemma_description_is_plain(*conflict);
        is_ascii_chars_encode_utf8(text@);
        assert(bytes@ =~= ascii_bytes(text@));
    }
    output.extend_from_slice(bytes);
}

} // verus!
