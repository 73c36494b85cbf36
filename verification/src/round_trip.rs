//! Text that was written for a merge and not edited reads back as that
//! merge.
//!
//! This holds for merges whose content cannot be taken for markers and
//! keeps to whole lines; `hunks_read_back` says which those are. For them,
//! what each side gets from the hunks read from the text is what it gets
//! from the hunks that were written.

use vstd::prelude::*;
use crate::hunk_reader::{
    append_last, hunk_scan, hunk_step, lemma_hunk_scan_concat, lemma_hunk_scan_one, parse_hunk,
    scan_start, HunkScan, Section,
};
use crate::hunks::{left_side, regions_hold_lines, right_side, DiffModel, HunkModel};
use crate::lines::{
    all_full_lines, is_full_line, is_terminated, join, lemma_join_split, lemma_split_concat,
    lemma_split_full_line, lemma_split_join, lemma_split_terminated, split_lines, NEWLINE,
};
use crate::markers::{
    end_line, is_marker, minus_line, plus_line, start_line, END_BYTE, MINUS_BYTE, PLUS_BYTE,
    SPACE_BYTE, START_BYTE,
};
use crate::parse::{
    lemma_scan_block, lemma_scan_unmarked_lines, lemma_text_scan_concat, no_block_line,
    parse_text, push_resolved, text_scan, text_start,
};
use crate::render::{
    block_text, body_lines, diff_hunk_lines, diff_lines, hunks_text, lone_lines, pair_count,
    paired_lines, prefixed,
};
use crate::update::{added_content, added_part, removed_content, removed_part};

verus! {

/// The line that becomes the marker line made of `c` when `c` is put
/// before it: six times `c`, then a newline.
pub open spec fn short_marker(c: u8) -> Seq<u8> {
    seq![c, c, c, c, c, c, NEWLINE]
}

/// No line of `content` is `line`.
pub open spec fn lacks_line(content: Seq<u8>, line: Seq<u8>) -> bool {
    forall|i: int| 0 <= i < split_lines(content).len() ==> #[trigger] split_lines(content)[i] != line
}

/// No line of `content` is a marker line.
pub open spec fn lacks_markers(content: Seq<u8>) -> bool {
    forall|i: int|
        0 <= i < split_lines(content).len() ==> !is_marker(#[trigger] split_lines(content)[i])
}

/// No removed line of the diff is six `-` and no added line six `+`: with
/// its prefix, such a line would read as a marker line.
pub open spec fn diff_lacks_markers(hunks: Seq<DiffModel>) -> bool {
    forall|i: int|
        0 <= i < hunks.len() ==> (#[trigger] hunks[i] is Different ==> lacks_line(
            hunks[i].left(),
            short_marker(MINUS_BYTE),
        ) && lacks_line(hunks[i].right(), short_marker(PLUS_BYTE)))
}

/// The state after lines of an embedded diff that all had the prefix
/// `prefix` and held `bytes` after it.
pub open spec fn after_prefixed(st: HunkScan, prefix: u8, bytes: Seq<u8>, seen: bool) -> HunkScan {
    HunkScan {
        body_seen: st.body_seen || seen,
        removes: if prefix == MINUS_BYTE || prefix == SPACE_BYTE {
            append_last(st.removes, bytes)
        } else {
            st.removes
        },
        adds: if prefix == PLUS_BYTE || prefix == SPACE_BYTE {
            append_last(st.adds, bytes)
        } else {
            st.adds
        },
        ..st
    }
}

/// The scan is inside an embedded diff: both kinds of side are open.
pub open spec fn in_diff(st: HunkScan) -> bool {
    &&& st.section is Both
    &&& !st.malformed
    &&& st.removes.len() > 0
    &&& st.adds.len() > 0
}

/// Appending twice to the last buffer is appending both at once.
proof fn lemma_append_last_twice(bufs: Seq<Seq<u8>>, first: Seq<u8>, second: Seq<u8>)
    ensures
        append_last(append_last(bufs, first), second) == append_last(bufs, first + second),
        append_last(bufs, Seq::empty()) == bufs,
        append_last(bufs.push(Seq::empty()), first) == bufs.push(first),
{
    if bufs.len() > 0 {
        assert(bufs.last() + first + second =~= bufs.last() + (first + second));
        assert(append_last(append_last(bufs, first), second) =~= append_last(
            bufs,
            first + second,
        ));
        assert(bufs.last() + Seq::<u8>::empty() =~= bufs.last());
        assert(append_last(bufs, Seq::empty()) =~= bufs);
    }
    assert(Seq::<u8>::empty() + first =~= first);
    assert(append_last(bufs.push(Seq::empty()), first) =~= bufs.push(first));
}

/// Inside an embedded diff, lines with one prefix go to the sides that the
/// prefix names.
proof fn lemma_scan_prefixed(st: HunkScan, prefix: u8, lines: Seq<Seq<u8>>)
    requires
        in_diff(st),
        prefix == SPACE_BYTE || prefix == MINUS_BYTE || prefix == PLUS_BYTE,
        forall|i: int|
            0 <= i < lines.len() ==> seq![prefix] + #[trigger] lines[i] != minus_line() && seq![
                prefix,
            ] + lines[i] != plus_line(),
    ensures
        hunk_scan(st, prefixed(prefix, lines)) == after_prefixed(
            st,
            prefix,
            join(lines),
            lines.len() > 0,
        ),
    decreases lines.len(),
{
    if lines.len() == 0 {
        assert(prefixed(prefix, lines) =~= Seq::<Seq<u8>>::empty());
        lemma_append_last_twice(st.removes, Seq::empty(), Seq::empty());
        lemma_append_last_twice(st.adds, Seq::empty(), Seq::empty());
    } else {
        let front = lines.drop_last();
        let last = lines.last();
        assert forall|i: int| 0 <= i < front.len() implies seq![prefix] + #[trigger] front[i]
            != minus_line() && seq![prefix] + front[i] != plus_line() by {
            assert(front[i] == lines[i]);
        }
        lemma_scan_prefixed(st, prefix, front);
        assert(prefixed(prefix, lines).drop_last() =~= prefixed(prefix, front));
        assert(prefixed(prefix, lines).last() == seq![prefix] + last);
        let mid = after_prefixed(st, prefix, join(front), front.len() > 0);
        let line = seq![prefix] + last;
        assert(last == lines[lines.len() - 1]);
        assert(line.len() > 0 && line[0] == prefix);
        assert(line.skip(1) =~= last);
        lemma_append_last_twice(st.removes, join(front), last);
        lemma_append_last_twice(st.adds, join(front), last);
    }
}

/// Putting a prefix before lines keeps their number.
proof fn lemma_prefixed_len(prefix: u8, lines: Seq<Seq<u8>>)
    ensures
        prefixed(prefix, lines).len() == lines.len(),
{
}

/// The state after an embedded diff: the last removed side took the left
/// buffer of the diff and the last added side its right buffer.
pub open spec fn after_diff(st: HunkScan, hunks: Seq<DiffModel>) -> HunkScan {
    HunkScan {
        body_seen: st.body_seen || diff_lines(hunks).len() > 0,
        removes: append_last(st.removes, left_side(hunks)),
        adds: append_last(st.adds, right_side(hunks)),
        ..st
    }
}

/// A line with a prefix is a marker line only if it is the short marker of
/// that prefix.
proof fn lemma_prefixed_marker(prefix: u8, line: Seq<u8>)
    ensures
        prefix != MINUS_BYTE ==> seq![prefix] + line != minus_line(),
        prefix != PLUS_BYTE ==> seq![prefix] + line != plus_line(),
        line != short_marker(MINUS_BYTE) ==> seq![MINUS_BYTE] + line != minus_line(),
        line != short_marker(PLUS_BYTE) ==> seq![PLUS_BYTE] + line != plus_line(),
        seq![prefix] + line != start_line() || prefix == START_BYTE,
        seq![prefix] + line != end_line() || prefix == END_BYTE,
{
    let with = seq![prefix] + line;
    assert(with[0] == prefix);
    assert(minus_line()[0] == MINUS_BYTE);
    assert(plus_line()[0] == PLUS_BYTE);
    assert(start_line()[0] == START_BYTE);
    assert(end_line()[0] == END_BYTE);
    if seq![MINUS_BYTE] + line == minus_line() {
        assert(line =~= minus_line().skip(1));
        assert(line =~= short_marker(MINUS_BYTE));
    }
    if seq![PLUS_BYTE] + line == plus_line() {
        assert(line =~= plus_line().skip(1));
        assert(line =~= short_marker(PLUS_BYTE));
    }
}

/// Inside an embedded diff, the lines of one buffer with one prefix go to
/// the sides that the prefix names and give them the buffer.
proof fn lemma_scan_piece(st: HunkScan, prefix: u8, piece: Seq<u8>)
    requires
        in_diff(st),
        prefix == SPACE_BYTE || prefix == MINUS_BYTE || prefix == PLUS_BYTE,
        prefix != SPACE_BYTE ==> lacks_line(piece, short_marker(prefix)),
    ensures
        hunk_scan(st, prefixed(prefix, split_lines(piece))) == after_prefixed(
            st,
            prefix,
            piece,
            split_lines(piece).len() > 0,
        ),
{
    let lines = split_lines(piece);
    assert forall|i: int| 0 <= i < lines.len() implies seq![prefix] + #[trigger] lines[i]
        != minus_line() && seq![prefix] + lines[i] != plus_line() by {
        lemma_prefixed_marker(prefix, lines[i]);
    }
    lemma_scan_prefixed(st, prefix, lines);
    lemma_join_split(piece);
}

/// Reading an embedded diff gives the open sides the two buffers of the
/// diff.
proof fn lemma_scan_diff(st: HunkScan, hunks: Seq<DiffModel>)
    requires
        in_diff(st),
        diff_lacks_markers(hunks),
    ensures
        hunk_scan(st, diff_lines(hunks)) == after_diff(st, hunks),
    decreases hunks.len(),
{
    if hunks.len() == 0 {
        lemma_append_last_twice(st.removes, Seq::empty(), Seq::empty());
        lemma_append_last_twice(st.adds, Seq::empty(), Seq::empty());
    } else {
        let front = hunks.drop_last();
        let last = hunks.last();
        assert(diff_lacks_markers(front)) by {
            assert forall|i: int| 0 <= i < front.len() && #[trigger] front[i] is Different implies lacks_line(
                front[i].left(),
                short_marker(MINUS_BYTE),
            ) && lacks_line(front[i].right(), short_marker(PLUS_BYTE)) by {
                assert(front[i] == hunks[i]);
            }
        }
        assert(last == hunks[hunks.len() - 1]);
        lemma_scan_diff(st, front);
        let mid = after_diff(st, front);
        lemma_hunk_scan_concat(st, diff_lines(front), diff_hunk_lines(last));
        match last {
            DiffModel::Matching(content) => {
                lemma_scan_piece(mid, SPACE_BYTE, content);
                lemma_append_last_twice(st.removes, left_side(front), content);
                lemma_append_last_twice(st.adds, right_side(front), content);
                lemma_prefixed_len(SPACE_BYTE, split_lines(content));
            },
            DiffModel::Different(left, right) => {
                lemma_scan_piece(mid, MINUS_BYTE, left);
                let half = after_prefixed(mid, MINUS_BYTE, left, split_lines(left).len() > 0);
                lemma_scan_piece(half, PLUS_BYTE, right);
                lemma_hunk_scan_concat(
                    mid,
                    prefixed(MINUS_BYTE, split_lines(left)),
                    prefixed(PLUS_BYTE, split_lines(right)),
                );
                lemma_append_last_twice(st.removes, left_side(front), left);
                lemma_append_last_twice(st.adds, right_side(front), right);
                lemma_prefixed_len(MINUS_BYTE, split_lines(left));
                lemma_prefixed_len(PLUS_BYTE, split_lines(right));
            },
        }
    }
}

/// The state after the first `count` pairs of a block: each pair opened a
/// removed and an added side, and its diff gave them its two buffers.
pub open spec fn after_pairs(diffs: Seq<Seq<DiffModel>>, count: int) -> HunkScan {
    HunkScan {
        section: if count <= 0 {
            Section::Closed
        } else {
            Section::Both
        },
        body_seen: count > 0 && diff_lines(diffs[count - 1]).len() > 0,
        removes: Seq::new(
            if count <= 0 {
                0
            } else {
                count as nat
            },
            |i: int| left_side(diffs[i]),
        ),
        adds: Seq::new(
            if count <= 0 {
                0
            } else {
                count as nat
            },
            |i: int| right_side(diffs[i]),
        ),
        malformed: false,
    }
}

/// Reading the pairs of a block gives each pair of sides the buffers of
/// its diff.
proof fn lemma_scan_pairs(diffs: Seq<Seq<DiffModel>>, count: int)
    requires
        0 <= count <= diffs.len(),
        forall|i: int| 0 <= i < count ==> diff_lacks_markers(#[trigger] diffs[i]),
    ensures
        hunk_scan(scan_start(), paired_lines(diffs, count)) == after_pairs(diffs, count),
    decreases count,
{
    if count == 0 {
        assert(after_pairs(diffs, count).removes =~= scan_start().removes);
        assert(after_pairs(diffs, count).adds =~= scan_start().adds);
    } else {
        lemma_scan_pairs(diffs, count - 1);
        let before = after_pairs(diffs, count - 1);
        let diff = diffs[count - 1];
        let markers = seq![minus_line(), plus_line()];
        assert(minus_line()[0] != plus_line()[0]);
        let opened_minus = hunk_step(before, minus_line());
        let opened = hunk_step(opened_minus, plus_line());
        lemma_hunk_scan_one(before, minus_line());
        lemma_hunk_scan_one(opened_minus, plus_line());
        lemma_hunk_scan_concat(before, seq![minus_line()], seq![plus_line()]);
        assert(seq![minus_line()] + seq![plus_line()] =~= markers);
        assert(in_diff(opened));
        assert(!opened.body_seen);
        lemma_scan_diff(opened, diff);
        lemma_hunk_scan_concat(scan_start(), paired_lines(diffs, count - 1), markers);
        lemma_hunk_scan_concat(
            scan_start(),
            paired_lines(diffs, count - 1) + markers,
            diff_lines(diff),
        );
        lemma_append_last_twice(before.removes, left_side(diff), Seq::empty());
        lemma_append_last_twice(before.adds, right_side(diff), Seq::empty());
        let end = after_diff(opened, diff);
        assert(end.removes =~= after_pairs(diffs, count).removes);
        assert(end.adds =~= after_pairs(diffs, count).adds);
    }
}

/// While only removed sides are open, lines that are no side markers are
/// content of the last removed side.
proof fn lemma_scan_removed_lines(st: HunkScan, lines: Seq<Seq<u8>>)
    requires
        st.section is Minus,
        !st.malformed,
        st.removes.len() > 0,
        forall|i: int| 0 <= i < lines.len() ==> !is_marker(#[trigger] lines[i]),
    ensures
        hunk_scan(st, lines) == (HunkScan {
            body_seen: st.body_seen || lines.len() > 0,
            removes: append_last(st.removes, join(lines)),
            ..st
        }),
    decreases lines.len(),
{
    if lines.len() == 0 {
        lemma_append_last_twice(st.removes, Seq::empty(), Seq::empty());
    } else {
        let front = lines.drop_last();
        assert forall|i: int| 0 <= i < front.len() implies !is_marker(#[trigger] front[i]) by {
            assert(front[i] == lines[i]);
        }
        lemma_scan_removed_lines(st, front);
        assert(lines.last() == lines[lines.len() - 1]);
        lemma_append_last_twice(st.removes, join(front), lines.last());
    }
}

/// While only added sides are open, lines that are no side markers are
/// content of the last added side.
proof fn lemma_scan_added_lines(st: HunkScan, lines: Seq<Seq<u8>>)
    requires
        st.section is Plus,
        !st.malformed,
        st.adds.len() > 0,
        forall|i: int| 0 <= i < lines.len() ==> !is_marker(#[trigger] lines[i]),
    ensures
        hunk_scan(st, lines) == (HunkScan {
            body_seen: st.body_seen || lines.len() > 0,
            adds: append_last(st.adds, join(lines)),
            ..st
        }),
    decreases lines.len(),
{
    if lines.len() == 0 {
        lemma_append_last_twice(st.adds, Seq::empty(), Seq::empty());
    } else {
        let front = lines.drop_last();
        assert forall|i: int| 0 <= i < front.len() implies !is_marker(#[trigger] front[i]) by {
            assert(front[i] == lines[i]);
        }
        lemma_scan_added_lines(st, front);
        assert(lines.last() == lines[lines.len() - 1]);
        lemma_append_last_twice(st.adds, join(front), lines.last());
    }
}

/// Reading removed sides that have no partner adds them to the removed
/// sides as they are.
proof fn lemma_scan_lone_removes(st: HunkScan, sides: Seq<Seq<u8>>)
    requires
        !st.malformed,
        sides.len() > 0 ==> st.body_seen || !st.section.has_plus(),
        forall|j: int| 0 <= j < sides.len() ==> lacks_markers(#[trigger] sides[j]),
    ensures
        ({
            let end = hunk_scan(st, lone_lines(minus_line(), sides));
            &&& !end.malformed
            &&& end.removes == st.removes + sides
            &&& end.adds == st.adds
            &&& sides.len() > 0 ==> end.section is Minus
            &&& sides.len() == 0 ==> end == st
        }),
    decreases sides.len(),
{
    if sides.len() == 0 {
        assert(st.removes + sides =~= st.removes);
    } else {
        let front = sides.drop_last();
        let last = sides.last();
        assert forall|j: int| 0 <= j < front.len() implies lacks_markers(#[trigger] front[j]) by {
            assert(front[j] == sides[j]);
        }
        assert(last == sides[sides.len() - 1]);
        lemma_scan_lone_removes(st, front);
        let before = hunk_scan(st, lone_lines(minus_line(), front));
        let opened = hunk_step(before, minus_line());
        lemma_hunk_scan_one(before, minus_line());
        lemma_hunk_scan_concat(st, lone_lines(minus_line(), front), seq![minus_line()]);
        lemma_hunk_scan_concat(
            st,
            lone_lines(minus_line(), front) + seq![minus_line()],
            split_lines(last),
        );
        assert(opened.section is Minus);
        lemma_scan_removed_lines(opened, split_lines(last));
        lemma_join_split(last);
        lemma_append_last_twice(before.removes, last, Seq::empty());
        assert(before.removes.push(last) =~= st.removes + sides);
    }
}

/// Reading added sides that have no partner adds them to the added sides
/// as they are.
proof fn lemma_scan_lone_adds(st: HunkScan, sides: Seq<Seq<u8>>)
    requires
        !st.malformed,
        sides.len() > 0 ==> st.body_seen || !st.section.has_minus(),
        forall|j: int| 0 <= j < sides.len() ==> lacks_markers(#[trigger] sides[j]),
    ensures
        ({
            let end = hunk_scan(st, lone_lines(plus_line(), sides));
            &&& !end.malformed
            &&& end.removes == st.removes
            &&& end.adds == st.adds + sides
            &&& sides.len() > 0 ==> end.section is Plus
            &&& sides.len() == 0 ==> end == st
        }),
    decreases sides.len(),
{
    if sides.len() == 0 {
        assert(st.adds + sides =~= st.adds);
    } else {
        let front = sides.drop_last();
        let last = sides.last();
        assert forall|j: int| 0 <= j < front.len() implies lacks_markers(#[trigger] front[j]) by {
            assert(front[j] == sides[j]);
        }
        assert(last == sides[sides.len() - 1]);
        lemma_scan_lone_adds(st, front);
        let before = hunk_scan(st, lone_lines(plus_line(), front));
        let opened = hunk_step(before, plus_line());
        assert(minus_line()[0] != plus_line()[0]);
        lemma_hunk_scan_one(before, plus_line());
        lemma_hunk_scan_concat(st, lone_lines(plus_line(), front), seq![plus_line()]);
        lemma_hunk_scan_concat(
            st,
            lone_lines(plus_line(), front) + seq![plus_line()],
            split_lines(last),
        );
        assert(opened.section is Plus);
        lemma_scan_added_lines(opened, split_lines(last));
        lemma_join_split(last);
        lemma_append_last_twice(before.adds, last, Seq::empty());
        assert(before.adds.push(last) =~= st.adds + sides);
    }
}

/// Every side in `sides` is empty.
pub open spec fn all_empty(sides: Seq<Seq<u8>>) -> bool {
    forall|j: int| 0 <= j < sides.len() ==> (#[trigger] sides[j]).len() == 0
}

/// Reading empty removed sides that have no partner adds them to the
/// removed sides, whatever sides are open.
proof fn lemma_scan_empty_lone_removes(st: HunkScan, sides: Seq<Seq<u8>>)
    requires
        !st.malformed,
        all_empty(sides),
    ensures
        ({
            let end = hunk_scan(st, lone_lines(minus_line(), sides));
            &&& !end.malformed
            &&& end.removes == st.removes + sides
            &&& end.adds == st.adds
        }),
    decreases sides.len(),
{
    if sides.len() == 0 {
        assert(st.removes + sides =~= st.removes);
    } else {
        let front = sides.drop_last();
        let last = sides.last();
        assert forall|j: int| 0 <= j < front.len() implies (#[trigger] front[j]).len() == 0 by {
            assert(front[j] == sides[j]);
        }
        assert(last == sides[sides.len() - 1]);
        lemma_scan_empty_lone_removes(st, front);
        let before = hunk_scan(st, lone_lines(minus_line(), front));
        lemma_hunk_scan_one(before, minus_line());
        lemma_hunk_scan_concat(st, lone_lines(minus_line(), front), seq![minus_line()]);
        assert(split_lines(last) =~= Seq::<Seq<u8>>::empty());
        assert(lone_lines(minus_line(), sides) =~= lone_lines(minus_line(), front) + seq![
            minus_line(),
        ]);
        assert(last =~= Seq::<u8>::empty());
        assert(before.removes.push(last) =~= st.removes + sides);
    }
}

/// Reading empty added sides that have no partner adds them to the added
/// sides, whatever sides are open.
proof fn lemma_scan_empty_lone_adds(st: HunkScan, sides: Seq<Seq<u8>>)
    requires
        !st.malformed,
        all_empty(sides),
    ensures
        ({
            let end = hunk_scan(st, lone_lines(plus_line(), sides));
            &&& !end.malformed
            &&& end.removes == st.removes
            &&& end.adds == st.adds + sides
        }),
    decreases sides.len(),
{
    if sides.len() == 0 {
        assert(st.adds + sides =~= st.adds);
    } else {
        let front = sides.drop_last();
        let last = sides.last();
        assert forall|j: int| 0 <= j < front.len() implies (#[trigger] front[j]).len() == 0 by {
            assert(front[j] == sides[j]);
        }
        assert(last == sides[sides.len() - 1]);
        lemma_scan_empty_lone_adds(st, front);
        let before = hunk_scan(st, lone_lines(plus_line(), front));
        assert(minus_line()[0] != plus_line()[0]);
        lemma_hunk_scan_one(before, plus_line());
        lemma_hunk_scan_concat(st, lone_lines(plus_line(), front), seq![plus_line()]);
        assert(split_lines(last) =~= Seq::<Seq<u8>>::empty());
        assert(lone_lines(plus_line(), sides) =~= lone_lines(plus_line(), front) + seq![
            plus_line(),
        ]);
        assert(last =~= Seq::<u8>::empty());
        assert(before.adds.push(last) =~= st.adds + sides);
    }
}

/// `line` can stand in the body of a block: it is one whole line and
/// neither opens nor closes a block.
pub open spec fn is_body_line(line: Seq<u8>) -> bool {
    is_full_line(line) && line != start_line() && line != end_line()
}

/// Every line of `lines` can stand in the body of a block.
pub open spec fn all_body_lines(lines: Seq<Seq<u8>>) -> bool {
    forall|i: int| 0 <= i < lines.len() ==> is_body_line(#[trigger] lines[i])
}

/// Two lists of body lines make one.
proof fn lemma_body_lines_concat(xs: Seq<Seq<u8>>, ys: Seq<Seq<u8>>)
    requires
        all_body_lines(xs),
        all_body_lines(ys),
    ensures
        all_body_lines(xs + ys),
{
    assert forall|i: int| 0 <= i < (xs + ys).len() implies is_body_line(#[trigger] (xs + ys)[i]) by {
        if i < xs.len() {
            assert((xs + ys)[i] == xs[i]);
        } else {
            assert((xs + ys)[i] == ys[i - xs.len()]);
        }
    }
}

/// The two side markers are body lines.
proof fn lemma_side_markers_are_body_lines()
    ensures
        is_body_line(minus_line()),
        is_body_line(plus_line()),
        all_body_lines(seq![minus_line(), plus_line()]),
        all_body_lines(seq![minus_line()]),
        all_body_lines(seq![plus_line()]),
{
    assert(minus_line()[0] != start_line()[0]);
    assert(minus_line()[0] != end_line()[0]);
    assert(plus_line()[0] != start_line()[0]);
    assert(plus_line()[0] != end_line()[0]);
}

/// The lines of a buffer that ends in a newline, each after a prefix of an
/// embedded diff, are body lines.
proof fn lemma_prefixed_are_body_lines(prefix: u8, piece: Seq<u8>)
    requires
        is_terminated(piece),
        prefix == SPACE_BYTE || prefix == MINUS_BYTE || prefix == PLUS_BYTE,
    ensures
        all_body_lines(prefixed(prefix, split_lines(piece))),
{
    let lines = split_lines(piece);
    lemma_split_terminated(piece);
    assert forall|i: int| 0 <= i < prefixed(prefix, lines).len() implies is_body_line(
        #[trigger] prefixed(prefix, lines)[i],
    ) by {
        let line = seq![prefix] + lines[i];
        assert(is_full_line(lines[i]));
        lemma_prefixed_marker(prefix, lines[i]);
        assert(line.last() == lines[i].last());
        assert forall|k: int| 0 <= k < line.len() - 1 implies line[k] != NEWLINE by {
            if k > 0 {
                assert(line[k] == lines[i][k - 1]);
            }
        }
    }
}

/// Every region of the diff holds whole lines only.
pub open spec fn regions_are_whole(hunks: Seq<DiffModel>) -> bool {
    forall|i: int|
        0 <= i < hunks.len() ==> is_terminated((#[trigger] hunks[i]).left()) && is_terminated(
            hunks[i].right(),
        )
}

/// In a diff of two buffers that end in a newline, the last region holds
/// whole lines as the others do.
proof fn lemma_regions_are_whole(hunks: Seq<DiffModel>)
    requires
        regions_hold_lines(hunks),
        is_terminated(left_side(hunks)),
        is_terminated(right_side(hunks)),
    ensures
        regions_are_whole(hunks),
{
    if hunks.len() > 0 {
        let last = hunks.last();
        assert(last == hunks[hunks.len() - 1]);
        if last.left().len() > 0 {
            assert(left_side(hunks).last() == last.left().last());
        }
        if last.right().len() > 0 {
            assert(right_side(hunks).last() == last.right().last());
        }
    }
}

/// The lines of a diff whose regions hold whole lines are body lines.
proof fn lemma_diff_lines_are_body_lines(hunks: Seq<DiffModel>)
    requires
        regions_are_whole(hunks),
    ensures
        all_body_lines(diff_lines(hunks)),
    decreases hunks.len(),
{
    if hunks.len() != 0 {
        let front = hunks.drop_last();
        let last = hunks.last();
        assert(regions_are_whole(front)) by {
            assert forall|i: int| 0 <= i < front.len() implies is_terminated(
                (#[trigger] front[i]).left(),
            ) && is_terminated(front[i].right()) by {
                assert(front[i] == hunks[i]);
            }
        }
        assert(last == hunks[hunks.len() - 1]);
        lemma_diff_lines_are_body_lines(front);
        match last {
            DiffModel::Matching(content) => {
                lemma_prefixed_are_body_lines(SPACE_BYTE, content);
            },
            DiffModel::Different(left, right) => {
                lemma_prefixed_are_body_lines(MINUS_BYTE, left);
                lemma_prefixed_are_body_lines(PLUS_BYTE, right);
                lemma_body_lines_concat(
                    prefixed(MINUS_BYTE, split_lines(left)),
                    prefixed(PLUS_BYTE, split_lines(right)),
                );
            },
        }
        lemma_body_lines_concat(diff_lines(front), diff_hunk_lines(last));
    }
}

/// A diff of buffers that are not both empty has a line.
proof fn lemma_diff_has_lines(hunks: Seq<DiffModel>)
    requires
        left_side(hunks).len() + right_side(hunks).len() > 0,
    ensures
        diff_lines(hunks).len() > 0,
    decreases hunks.len(),
{
    if hunks.len() != 0 {
        let front = hunks.drop_last();
        let last = hunks.last();
        if left_side(front).len() + right_side(front).len() > 0 {
            lemma_diff_has_lines(front);
        } else {
            assert(last.left().len() + last.right().len() > 0);
            if last.left().len() > 0 {
                assert(split_lines(last.left()).len() > 0);
            }
            if last.right().len() > 0 {
                assert(split_lines(last.right()).len() > 0);
            }
            lemma_prefixed_len(SPACE_BYTE, split_lines(last.left()));
            lemma_prefixed_len(MINUS_BYTE, split_lines(last.left()));
            lemma_prefixed_len(PLUS_BYTE, split_lines(last.right()));
        }
    }
}

/// A pair of sides with its diff reads back: the diff covers both sides
/// and keeps to whole lines, both sides end in a newline, and no line of
/// the diff reads as a marker line.
pub open spec fn pair_reads_back(remove: Seq<u8>, add: Seq<u8>, diff: Seq<DiffModel>) -> bool {
    &&& left_side(diff) == remove
    &&& right_side(diff) == add
    &&& regions_hold_lines(diff)
    &&& is_terminated(remove)
    &&& is_terminated(add)
    &&& diff_lacks_markers(diff)
}

/// A side without a partner reads back: it ends in a newline and none of
/// its lines is a marker line.
pub open spec fn lone_side_reads_back(side: Seq<u8>) -> bool {
    is_terminated(side) && lacks_markers(side)
}

/// A conflict with the diffs of its pairs reads back from its block.
///
/// Each pair and each side without a partner reads back. Where sides
/// without a partner follow the pairs, the last pair is not empty on both
/// sides, or else all those sides are empty: only content closes the sides
/// of a pair, and without it the lines that follow would be read as a
/// diff.
pub open spec fn block_reads_back(
    removes: Seq<Seq<u8>>,
    adds: Seq<Seq<u8>>,
    diffs: Seq<Seq<DiffModel>>,
) -> bool {
    let pairs = pair_count(removes, adds);
    &&& diffs.len() == pairs
    &&& forall|i: int|
        0 <= i < pairs ==> pair_reads_back(removes[i], adds[i], #[trigger] diffs[i])
    &&& forall|j: int| pairs <= j < removes.len() ==> lone_side_reads_back(#[trigger] removes[j])
    &&& forall|j: int| pairs <= j < adds.len() ==> lone_side_reads_back(#[trigger] adds[j])
    &&& removes.len() != adds.len() && pairs > 0 ==> removes[pairs - 1].len() + adds[pairs
        - 1].len() > 0 || (all_empty(removes.skip(pairs)) && all_empty(adds.skip(pairs)))
}

/// The lines of the pairs of a block are body lines.
proof fn lemma_paired_are_body_lines(diffs: Seq<Seq<DiffModel>>, count: int)
    requires
        0 <= count <= diffs.len(),
        forall|i: int| 0 <= i < count ==> regions_are_whole(#[trigger] diffs[i]),
    ensures
        all_body_lines(paired_lines(diffs, count)),
    decreases count,
{
    if count > 0 {
        lemma_paired_are_body_lines(diffs, count - 1);
        lemma_side_markers_are_body_lines();
        lemma_diff_lines_are_body_lines(diffs[count - 1]);
        lemma_body_lines_concat(paired_lines(diffs, count - 1), seq![minus_line(), plus_line()]);
        lemma_body_lines_concat(
            paired_lines(diffs, count - 1) + seq![minus_line(), plus_line()],
            diff_lines(diffs[count - 1]),
        );
    }
}

/// The lines of sides without a partner are body lines.
proof fn lemma_lone_are_body_lines(marker: Seq<u8>, sides: Seq<Seq<u8>>)
    requires
        marker == minus_line() || marker == plus_line(),
        forall|j: int| 0 <= j < sides.len() ==> lone_side_reads_back(#[trigger] sides[j]),
    ensures
        all_body_lines(lone_lines(marker, sides)),
    decreases sides.len(),
{
    if sides.len() != 0 {
        let front = sides.drop_last();
        let last = sides.last();
        assert forall|j: int| 0 <= j < front.len() implies lone_side_reads_back(
            #[trigger] front[j],
        ) by {
            assert(front[j] == sides[j]);
        }
        assert(last == sides[sides.len() - 1]);
        lemma_lone_are_body_lines(marker, front);
        lemma_side_markers_are_body_lines();
        lemma_split_terminated(last);
        assert(all_body_lines(split_lines(last)));
        lemma_body_lines_concat(lone_lines(marker, front), seq![marker]);
        lemma_body_lines_concat(lone_lines(marker, front) + seq![marker], split_lines(last));
    }
}

/// The body of a block that reads back is made of body lines, and reading
/// it gives the sides of the conflict as they were written.
proof fn lemma_body_reads_back(
    removes: Seq<Seq<u8>>,
    adds: Seq<Seq<u8>>,
    diffs: Seq<Seq<DiffModel>>,
)
    requires
        block_reads_back(removes, adds, diffs),
    ensures
        all_body_lines(body_lines(removes, adds, diffs)),
        parse_hunk(join(body_lines(removes, adds, diffs))) == (HunkModel::Conflict {
            removes,
            adds,
        }),
{
    let pairs = pair_count(removes, adds);
    let paired = paired_lines(diffs, pairs);
    let lone_r = lone_lines(minus_line(), removes.skip(pairs));
    let lone_a = lone_lines(plus_line(), adds.skip(pairs));
    assert forall|i: int| 0 <= i < pairs implies regions_are_whole(#[trigger] diffs[i])
        && diff_lacks_markers(diffs[i]) by {
        assert(pair_reads_back(removes[i], adds[i], diffs[i]));
        lemma_regions_are_whole(diffs[i]);
    }
    assert forall|j: int| 0 <= j < removes.skip(pairs).len() implies lone_side_reads_back(
        #[trigger] removes.skip(pairs)[j],
    ) && lacks_markers(removes.skip(pairs)[j]) by {
        assert(removes.skip(pairs)[j] == removes[pairs + j]);
    }
    assert forall|j: int| 0 <= j < adds.skip(pairs).len() implies lone_side_reads_back(
        #[trigger] adds.skip(pairs)[j],
    ) && lacks_markers(adds.skip(pairs)[j]) by {
        assert(adds.skip(pairs)[j] == adds[pairs + j]);
    }
    lemma_paired_are_body_lines(diffs, pairs);
    lemma_lone_are_body_lines(minus_line(), removes.skip(pairs));
    lemma_lone_are_body_lines(plus_line(), adds.skip(pairs));
    lemma_body_lines_concat(paired, lone_r);
    lemma_body_lines_concat(paired + lone_r, lone_a);
    let lines = body_lines(removes, adds, diffs);
    assert(all_full_lines(lines));
    lemma_split_join(lines);

    lemma_scan_pairs(diffs, pairs);
    let st1 = after_pairs(diffs, pairs);
    let st2 = hunk_scan(st1, lone_r);
    if removes.len() != adds.len() && pairs > 0 && removes[pairs - 1].len() + adds[pairs
        - 1].len() == 0 {
        lemma_scan_empty_lone_removes(st1, removes.skip(pairs));
        lemma_scan_empty_lone_adds(st2, adds.skip(pairs));
    } else {
        if removes.len() != adds.len() && pairs > 0 {
            assert(pair_reads_back(removes[pairs - 1], adds[pairs - 1], diffs[pairs - 1]));
            lemma_diff_has_lines(diffs[pairs - 1]);
        }
        lemma_scan_lone_removes(st1, removes.skip(pairs));
        lemma_scan_lone_adds(st2, adds.skip(pairs));
    }
    lemma_hunk_scan_concat(scan_start(), paired, lone_r);
    lemma_hunk_scan_concat(scan_start(), paired + lone_r, lone_a);
    assert(st1.removes =~= removes.take(pairs)) by {
        assert forall|i: int| 0 <= i < pairs implies st1.removes[i] == removes[i] by {
            assert(pair_reads_back(removes[i], adds[i], diffs[i]));
        }
    }
    assert(st1.adds =~= adds.take(pairs)) by {
        assert forall|i: int| 0 <= i < pairs implies st1.adds[i] == adds[i] by {
            assert(pair_reads_back(removes[i], adds[i], diffs[i]));
        }
    }
    assert(removes.take(pairs) + removes.skip(pairs) =~= removes);
    assert(adds.take(pairs) + adds.skip(pairs) =~= adds);
}

/// The resolved text at the end of `hunks`: what stands after the last
/// conflict, or all of it where there is none.
pub open spec fn trailing_text(hunks: Seq<HunkModel>) -> Seq<u8>
    decreases hunks.len(),
{
    if hunks.len() == 0 {
        Seq::empty()
    } else {
        match hunks.last() {
            HunkModel::Resolved(content) => trailing_text(hunks.drop_last()) + content,
            HunkModel::Conflict { removes, adds } => Seq::empty(),
        }
    }
}

/// The text of `hunks` up to the end of the last conflict.
pub open spec fn settled_text(hunks: Seq<HunkModel>, diffs: Seq<Seq<Seq<DiffModel>>>) -> Seq<u8>
    decreases hunks.len(),
{
    if hunks.len() == 0 {
        Seq::empty()
    } else {
        match hunks.last() {
            HunkModel::Resolved(content) => settled_text(hunks.drop_last(), diffs),
            HunkModel::Conflict { removes, adds } => hunks_text(hunks, diffs),
        }
    }
}

/// Resolved text reads back as text: read for marked blocks, it holds
/// none with `num_removes` removed and `num_adds` added sides.
pub open spec fn text_reads_back(text: Seq<u8>, num_removes: nat, num_adds: nat) -> bool {
    parse_text(text, num_removes, num_adds) is None
}

/// Every hunk of a merge reads back from the text of the merge.
///
/// Every conflict has `num_removes` removed and `num_adds` added sides and
/// reads back from its block, with the diffs of its pairs at its place in
/// `diffs`. The resolved text between the conflict before it and itself
/// reads back as text and ends in a newline, so that the marker after it
/// starts a line. The resolved text after the last conflict reads back as
/// text.
pub open spec fn hunks_read_back(
    hunks: Seq<HunkModel>,
    diffs: Seq<Seq<Seq<DiffModel>>>,
    num_removes: nat,
    num_adds: nat,
) -> bool {
    &&& diffs.len() == hunks.len()
    &&& forall|j: int|
        0 <= j < hunks.len() ==> match #[trigger] hunks[j] {
            HunkModel::Resolved(content) => true,
            HunkModel::Conflict { removes, adds } => {
                &&& removes.len() == num_removes
                &&& adds.len() == num_adds
                &&& block_reads_back(removes, adds, diffs[j])
                &&& is_terminated(trailing_text(hunks.take(j)))
                &&& text_reads_back(trailing_text(hunks.take(j)), num_removes, num_adds)
            },
        }
    &&& text_reads_back(trailing_text(hunks), num_removes, num_adds)
}

/// One of `hunks` is a conflict.
pub open spec fn has_conflict(hunks: Seq<HunkModel>) -> bool {
    exists|j: int| 0 <= j < hunks.len() && #[trigger] hunks[j] is Conflict
}

/// Resolved text at the end of hunks goes to every removed side.
proof fn lemma_removed_after_resolved(hunks: Seq<HunkModel>, text: Seq<u8>, i: int)
    ensures
        removed_content(push_resolved(hunks, text), i) == removed_content(hunks, i) + text,
{
    if text.len() > 0 {
        assert(push_resolved(hunks, text).drop_last() =~= hunks);
    } else {
        assert(removed_content(hunks, i) + text =~= removed_content(hunks, i));
    }
}

/// Resolved text at the end of hunks goes to every added side.
proof fn lemma_added_after_resolved(hunks: Seq<HunkModel>, text: Seq<u8>, i: int)
    ensures
        added_content(push_resolved(hunks, text), i) == added_content(hunks, i) + text,
{
    if text.len() > 0 {
        assert(push_resolved(hunks, text).drop_last() =~= hunks);
    } else {
        assert(added_content(hunks, i) + text =~= added_content(hunks, i));
    }
}

/// The text of a block is the lines of the block, each a line of its own.
proof fn lemma_block_lines(removes: Seq<Seq<u8>>, adds: Seq<Seq<u8>>, diffs: Seq<Seq<DiffModel>>)
    requires
        all_body_lines(body_lines(removes, adds, diffs)),
    ensures
        split_lines(block_text(removes, adds, diffs)) == seq![start_line()] + body_lines(
            removes,
            adds,
            diffs,
        ) + seq![end_line()],
        is_terminated(block_text(removes, adds, diffs)),
        no_block_line(body_lines(removes, adds, diffs)),
{
    let body = body_lines(removes, adds, diffs);
    assert(all_full_lines(body));
    lemma_split_join(body);
    assert(is_full_line(start_line()));
    assert(is_full_line(end_line()));
    lemma_split_full_line(start_line());
    lemma_split_full_line(end_line());
    lemma_split_concat(start_line(), join(body) + end_line());
    lemma_split_concat(join(body), end_line());
    assert(block_text(removes, adds, diffs) =~= start_line() + (join(body) + end_line()));
    assert(seq![start_line()] + (body + seq![end_line()]) =~= seq![start_line()] + body + seq![
        end_line(),
    ]);
}

/// The state after the text of the first `count` hunks up to the end of
/// the last conflict among them: no block is open, no text is pending, and
/// the hunks found, with the resolved text that follows, give every side
/// what the hunks that were written give it.
proof fn lemma_scan_hunks(
    hunks: Seq<HunkModel>,
    diffs: Seq<Seq<Seq<DiffModel>>>,
    num_removes: nat,
    num_adds: nat,
    count: int,
)
    requires
        hunks_read_back(hunks, diffs, num_removes, num_adds),
        0 <= count <= hunks.len(),
    ensures
        ({
            let written = hunks.take(count);
            let settled = settled_text(written, diffs);
            let st = text_scan(text_start(), split_lines(settled), num_removes, num_adds);
            &&& hunks_text(written, diffs) == settled + trailing_text(written)
            &&& is_terminated(settled)
            &&& st.open is None
            &&& st.pending.len() == 0
            &&& has_conflict(written) ==> st.hunks.len() > 0
            &&& forall|i: int|
                0 <= i < num_removes ==> removed_content(st.hunks, i) + trailing_text(written)
                    == removed_content(written, i)
            &&& forall|i: int|
                0 <= i < num_adds ==> added_content(st.hunks, i) + trailing_text(written)
                    == added_content(written, i)
        }),
    decreases count,
{
    let written = hunks.take(count);
    let settled = settled_text(written, diffs);
    let st = text_scan(text_start(), split_lines(settled), num_removes, num_adds);
    if count == 0 {
        assert(!has_conflict(written));
        assert(hunks_text(written, diffs) =~= settled + trailing_text(written));
        assert forall|i: int| 0 <= i < num_removes implies removed_content(st.hunks, i)
            + trailing_text(written) == removed_content(written, i) by {
            assert(removed_content(st.hunks, i) + trailing_text(written) =~= Seq::<u8>::empty());
        }
        assert forall|i: int| 0 <= i < num_adds implies added_content(st.hunks, i)
            + trailing_text(written) == added_content(written, i) by {
            assert(added_content(st.hunks, i) + trailing_text(written) =~= Seq::<u8>::empty());
        }
    } else {
        lemma_scan_hunks(hunks, diffs, num_removes, num_adds, count - 1);
        let front = hunks.take(count - 1);
        let hunk = hunks[count - 1];
        assert(written.drop_last() =~= front);
        assert(written.last() == hunk);
        let before = settled_text(front, diffs);
        let between = trailing_text(front);
        let st0 = text_scan(text_start(), split_lines(before), num_removes, num_adds);
        assert(forall|i: int|
            removed_content(written, i) == removed_content(front, i) + removed_part(hunk, i));
        assert(forall|i: int|
            added_content(written, i) == added_content(front, i) + added_part(hunk, i));
        match hunk {
            HunkModel::Resolved(content) => {
                if has_conflict(written) {
                    let j = choose|j: int|
                        0 <= j < written.len() && #[trigger] written[j] is Conflict;
                    assert(front[j] == written[j]);
                    assert(has_conflict(front));
                }
                assert(hunks_text(written, diffs) =~= settled + trailing_text(written));
                assert forall|i: int| 0 <= i < num_removes implies removed_content(st.hunks, i)
                    + trailing_text(written) == removed_content(written, i) by {
                    assert(removed_content(st0.hunks, i) + (between + content)
                        =~= removed_content(st0.hunks, i) + between + content);
                }
                assert forall|i: int| 0 <= i < num_adds implies added_content(st.hunks, i)
                    + trailing_text(written) == added_content(written, i) by {
                    assert(added_content(st0.hunks, i) + (between + content) =~= added_content(
                        st0.hunks,
                        i,
                    ) + between + content);
                }
            },
            HunkModel::Conflict { removes, adds } => {
                let block = diffs[count - 1];
                let piece = block_text(removes, adds, block);
                assert(is_terminated(between));
                assert(text_reads_back(between, num_removes, num_adds));
                lemma_body_reads_back(removes, adds, block);
                lemma_block_lines(removes, adds, block);
                assert(settled =~= before + (between + piece));
                lemma_split_concat(before, between + piece);
                lemma_split_concat(between, piece);
                lemma_text_scan_concat(
                    text_start(),
                    split_lines(before),
                    split_lines(between) + split_lines(piece),
                    num_removes,
                    num_adds,
                );
                lemma_text_scan_concat(
                    st0,
                    split_lines(between),
                    split_lines(piece),
                    num_removes,
                    num_adds,
                );
                lemma_scan_unmarked_lines(st0, split_lines(between), num_removes, num_adds);
                lemma_join_split(between);
                let st1 = text_scan(st0, split_lines(between), num_removes, num_adds);
                assert(st1.pending =~= between);
                lemma_scan_block(st1, body_lines(removes, adds, block), num_removes, num_adds);
                let found = push_resolved(st0.hunks, between);
                assert(st.hunks == found.push(hunk));
                assert(st.hunks.drop_last() =~= found);
                assert(hunks_text(written, diffs) =~= settled + trailing_text(written));
                assert(forall|i: int|
                    removed_content(st.hunks, i) == removed_content(found, i) + removed_part(
                        hunk,
                        i,
                    ));
                assert(forall|i: int|
                    added_content(st.hunks, i) == added_content(found, i) + added_part(hunk, i));
                assert forall|i: int| 0 <= i < num_removes implies removed_content(st.hunks, i)
                    + trailing_text(written) == removed_content(written, i) by {
                    lemma_removed_after_resolved(st0.hunks, between, i);
                    assert(removed_content(st.hunks, i) + trailing_text(written)
                        =~= removed_content(st.hunks, i));
                }
                assert forall|i: int| 0 <= i < num_adds implies added_content(st.hunks, i)
                    + trailing_text(written) == added_content(written, i) by {
                    lemma_added_after_resolved(st0.hunks, between, i);
                    assert(added_content(st.hunks, i) + trailing_text(written) =~= added_content(
                        st.hunks,
                        i,
                    ));
                }
            },
        }
    }
}

/// Text that was written for a merge and not edited reads back: it holds
/// marked blocks, and each side gets from the hunks read what it got from
/// the hunks written.
pub proof fn lemma_unedited_text_reads_back(
    hunks: Seq<HunkModel>,
    diffs: Seq<Seq<Seq<DiffModel>>>,
    num_removes: nat,
    num_adds: nat,
)
    requires
        hunks_read_back(hunks, diffs, num_removes, num_adds),
        has_conflict(hunks),
    ensures
        parse_text(hunks_text(hunks, diffs), num_removes, num_adds) is Some,
        forall|i: int|
            0 <= i < num_removes ==> removed_content(
                parse_text(hunks_text(hunks, diffs), num_removes, num_adds)->0,
                i,
            ) == removed_content(hunks, i),
        forall|i: int|
            0 <= i < num_adds ==> added_content(
                parse_text(hunks_text(hunks, diffs), num_removes, num_adds)->0,
                i,
            ) == added_content(hunks, i),
{
    lemma_scan_hunks(hunks, diffs, num_removes, num_adds, hunks.len() as int);
    assert(hunks.take(hunks.len() as int) =~= hunks);
    let settled = settled_text(hunks, diffs);
    let after = trailing_text(hunks);
    let st0 = text_scan(text_start(), split_lines(settled), num_removes, num_adds);
    lemma_split_concat(settled, after);
    lemma_text_scan_concat(
        text_start(),
        split_lines(settled),
        split_lines(after),
        num_removes,
        num_adds,
    );
    lemma_scan_unmarked_lines(st0, split_lines(after), num_removes, num_adds);
    lemma_join_split(after);
    let st = text_scan(st0, split_lines(after), num_removes, num_adds);
    assert(st.pending =~= after);
    let parsed = parse_text(hunks_text(hunks, diffs), num_removes, num_adds)->0;
    assert(parsed == push_resolved(st0.hunks, after));
    assert forall|i: int| 0 <= i < num_removes implies removed_content(parsed, i)
        == removed_content(hunks, i) by {
        lemma_removed_after_resolved(st0.hunks, after, i);
    }
    assert forall|i: int| 0 <= i < num_adds implies added_content(parsed, i) == added_content(
        hunks,
        i,
    ) by {
        lemma_added_after_resolved(st0.hunks, after, i);
    }
}

/// `hunks` is a merge of the buffers `removed` and `added`: each buffer is
/// what the hunks give to its side.
pub open spec fn is_merge_of(
    hunks: Seq<HunkModel>,
    removed: Seq<Seq<u8>>,
    added: Seq<Seq<u8>>,
) -> bool {
    &&& forall|i: int| 0 <= i < removed.len() ==> removed_content(hunks, i) == #[trigger] removed[i]
    &&& forall|i: int| 0 <= i < added.len() ==> added_content(hunks, i) == #[trigger] added[i]
}

/// Writing a merge of file contents and reading the text back, unedited,
/// gives every side the content that it had.
pub proof fn lemma_round_trip(
    removed: Seq<Seq<u8>>,
    added: Seq<Seq<u8>>,
    hunks: Seq<HunkModel>,
    diffs: Seq<Seq<Seq<DiffModel>>>,
)
    requires
        is_merge_of(hunks, removed, added),
        hunks_read_back(hunks, diffs, removed.len(), added.len()),
        has_conflict(hunks),
    ensures
        parse_text(hunks_text(hunks, diffs), removed.len(), added.len()) is Some,
        is_merge_of(
            parse_text(hunks_text(hunks, diffs), removed.len(), added.len())->0,
            removed,
            added,
        ),
{
    lemma_unedited_text_reads_back(hunks, diffs, removed.len(), added.len());
}

} // verus!
