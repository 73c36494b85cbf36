//! The marker lines of the text format and the one-byte prefixes of an
//! embedded diff.

use vstd::prelude::*;
use crate::lines::NEWLINE;

verus! {

/// The byte `<`, repeated in the line that opens a marked block.
pub const START_BYTE: u8 = 0x3c;

/// The byte `>`, repeated in the line that closes a marked block.
pub const END_BYTE: u8 = 0x3e;

/// The byte `-`: repeated in the line that opens a removed side, and the
/// prefix of a removed line in an embedded diff.
pub const MINUS_BYTE: u8 = 0x2d;

/// The byte `+`: repeated in the line that opens an added side, and the
/// prefix of an added line in an embedded diff.
pub const PLUS_BYTE: u8 = 0x2b;

/// The byte ` `, the prefix of a line that both sides of an embedded diff
/// share.
pub const SPACE_BYTE: u8 = 0x20;

/// The marker line made of `c`: seven times `c`, then a newline.
pub open spec fn marker_line(c: u8) -> Seq<u8> {
    seq![c, c, c, c, c, c, c, NEWLINE]
}

/// `<<<<<<<\n`
pub open spec fn start_line() -> Seq<u8> {
    marker_line(START_BYTE)
}

/// `>>>>>>>\n`
pub open spec fn end_line() -> Seq<u8> {
    marker_line(END_BYTE)
}

/// `-------\n`
pub open spec fn minus_line() -> Seq<u8> {
    marker_line(MINUS_BYTE)
}

/// `+++++++\n`
pub open spec fn plus_line() -> Seq<u8> {
    marker_line(PLUS_BYTE)
}

/// `line` is one of the four marker lines.
pub open spec fn is_marker(line: Seq<u8>) -> bool {
    line == start_line() || line == end_line() || line == minus_line() || line == plus_line()
}

/// Tells whether `line` is the marker line made of `c`.
pub fn is_marker_line(line: &[u8], c: u8) -> (b: bool)
    ensures
        b == (line@ == marker_line(c)),
{
    if line.len() != 8 {
        return false;
    }
    let mut i: usize = 0;
    while i < 7
        invariant
            i <= 7,
            line@.len() == 8,
            forall|j: int| 0 <= j < i ==> line@[j] == c,
        decreases 7 - i,
    {
        if line[i] != c {
            assert(marker_line(c)[i as int] == c);
            return false;
        }
        i = i + 1;
    }
    if line[7] != NEWLINE {
        assert(marker_line(c)[7] == NEWLINE);
        return false;
    }
    assert(line@ =~= marker_line(c));
    true
}

/// Appends the marker line made of `c` to `output`.
pub fn write_marker_line(output: &mut Vec<u8>, c: u8)
    ensures
        final(output)@ == old(output)@ + marker_line(c),
{
    output.push(c);
    output.push(c);
    output.push(c);
    output.push(c);
    output.push(c);
    output.push(c);
    output.push(c);
    output.push(NEWLINE);
    assert(output@ =~= old(output)@ + marker_line(c));
}

} // verus!
