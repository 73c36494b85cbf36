use conflict_markers::hunk_reader::{parse_conflict_hunk, HunkReader};
use conflict_markers::hunks::MergeHunk;
use conflict_markers::parse::parse_conflict;

fn resolved(text: &[u8]) -> MergeHunk {
    MergeHunk::Resolved(text.to_vec())
}

fn conflict(removes: &[&[u8]], adds: &[&[u8]]) -> MergeHunk {
    MergeHunk::Conflict {
        removes: removes.iter().map(|side| side.to_vec()).collect(),
        adds: adds.iter().map(|side| side.to_vec()).collect(),
    }
}

#[test]
fn parse_empty_input_finds_no_markers() {
    assert_eq!(parse_conflict(b"", 1, 1), None);
    assert_eq!(parse_conflict(b"", 0, 0), None);
}

#[test]
fn parse_plain_text_finds_no_markers() {
    assert_eq!(parse_conflict(b"line 1\nline 2\n", 1, 1), None);
    assert_eq!(parse_conflict(b"no newline at all", 1, 2), None);
}

#[test]
fn parse_reads_one_two_sided_block() {
    let text = b"a\n<<<<<<<\n-------\n+++++++\n a\n-b\n+x\n c\n>>>>>>>\n";
    assert_eq!(
        parse_conflict(text, 1, 1),
        Some(vec![
            resolved(b"a\n"),
            conflict(&[b"a\nb\nc\n"], &[b"a\nx\nc\n"]),
        ])
    );
}

#[test]
fn parse_keeps_text_after_the_last_block() {
    let text = b"<<<<<<<\n-------\nold\n+++++++\nnew\n>>>>>>>\ntail\nmore";
    assert_eq!(
        parse_conflict(text, 1, 1),
        Some(vec![conflict(&[b"old\n"], &[b"new\n"]), resolved(b"tail\nmore")])
    );
}

#[test]
fn parse_reads_two_blocks_with_text_between() {
    let text = b"top\n<<<<<<<\n-------\n+++++++\n-a\n+b\n>>>>>>>\nmid\n<<<<<<<\n-------\n+++++++\n-c\n+d\n>>>>>>>\n";
    assert_eq!(
        parse_conflict(text, 1, 1),
        Some(vec![
            resolved(b"top\n"),
            conflict(&[b"a\n"], &[b"b\n"]),
            resolved(b"mid\n"),
            conflict(&[b"c\n"], &[b"d\n"]),
        ])
    );
}

#[test]
fn parse_adjacent_blocks_have_no_empty_text_between() {
    let text = b"<<<<<<<\n-------\na\n>>>>>>>\n<<<<<<<\n-------\nb\n>>>>>>>\n";
    assert_eq!(
        parse_conflict(text, 1, 0),
        Some(vec![conflict(&[b"a\n"], &[]), conflict(&[b"b\n"], &[])])
    );
}

#[test]
fn parse_rejects_block_of_other_arity() {
    let text = b"<<<<<<<\n-------\n+++++++\n-a\n+b\n>>>>>>>\n";
    assert_eq!(parse_conflict(text, 2, 1), None);
    assert_eq!(parse_conflict(text, 1, 2), None);
    assert_eq!(parse_conflict(text, 0, 0), None);
    assert!(parse_conflict(text, 1, 1).is_some());
}

#[test]
fn parse_rejected_block_becomes_text_before_the_next_block() {
    let text = b"<<<<<<<\n-------\nonly\n>>>>>>>\n<<<<<<<\n-------\n+++++++\n-a\n+b\n>>>>>>>\n";
    assert_eq!(
        parse_conflict(text, 1, 1),
        Some(vec![
            resolved(b"<<<<<<<\n-------\nonly\n>>>>>>>\n"),
            conflict(&[b"a\n"], &[b"b\n"]),
        ])
    );
}

#[test]
fn parse_block_restarts_at_a_second_start_marker() {
    let text = b"<<<<<<<\njunk\n<<<<<<<\n-------\n+++++++\n-a\n+b\n>>>>>>>\n";
    assert_eq!(
        parse_conflict(text, 1, 1),
        Some(vec![
            resolved(b"<<<<<<<\njunk\n"),
            conflict(&[b"a\n"], &[b"b\n"]),
        ])
    );
}

#[test]
fn parse_ignores_end_marker_outside_a_block() {
    let text = b">>>>>>>\n<<<<<<<\n-------\n+++++++\n>>>>>>>\n>>>>>>>\n";
    assert_eq!(
        parse_conflict(text, 1, 1),
        Some(vec![
            resolved(b">>>>>>>\n"),
            conflict(&[b""], &[b""]),
            resolved(b">>>>>>>\n"),
        ])
    );
}

#[test]
fn parse_block_without_end_marker_is_text() {
    assert_eq!(parse_conflict(b"<<<<<<<\n-------\n+++++++\n-a\n+b\n", 1, 1), None);
}

#[test]
fn parse_marker_needs_its_newline() {
    let text = b"<<<<<<<\n-------\n+++++++\n-a\n+b\n>>>>>>>";
    assert_eq!(parse_conflict(text, 1, 1), None);
}

#[test]
fn parse_empty_block_matches_arity_zero() {
    assert_eq!(
        parse_conflict(b"<<<<<<<\n>>>>>>>\n", 0, 0),
        Some(vec![conflict(&[], &[])])
    );
    assert_eq!(parse_conflict(b"<<<<<<<\n>>>>>>>\n", 1, 1), None);
}

#[test]
fn parse_malformed_block_is_text() {
    // A content line before any side was opened.
    assert_eq!(parse_conflict(b"<<<<<<<\nstray\n-------\n+++++++\n>>>>>>>\n", 1, 1), None);
    // A line of an embedded diff without one of the three prefixes.
    assert_eq!(parse_conflict(b"<<<<<<<\n-------\n+++++++\nstray\n>>>>>>>\n", 1, 1), None);
}

#[test]
fn hunk_body_with_unpaired_removes() {
    let body = b"-------\n+++++++\n a\n-b\n+c\n-------\nraw 1\nraw 2\n-------\n-------\n+ not a diff\n";
    assert_eq!(
        parse_conflict_hunk(body),
        conflict(
            &[b"a\nb\n", b"raw 1\nraw 2\n", b"", b"+ not a diff\n"],
            &[b"a\nc\n"]
        )
    );
}

#[test]
fn hunk_body_with_unpaired_adds() {
    let body = b"-------\n+++++++\n-b\n+++++++\nraw\n- kept as it is\n";
    assert_eq!(
        parse_conflict_hunk(body),
        conflict(&[b"b\n"], &[b"", b"raw\n- kept as it is\n"])
    );
}

#[test]
fn hunk_body_with_two_pairs() {
    let body = b"-------\n+++++++\n-a\n+b\n-------\n+++++++\n c\n+d\n";
    assert_eq!(
        parse_conflict_hunk(body),
        conflict(&[b"a\n", b"c\n"], &[b"b\n", b"c\nd\n"])
    );
}

#[test]
fn hunk_body_markers_without_content_keep_both_sides_open() {
    // No content was read after the first pair of markers, so the second
    // minus line leaves the added side open: the next lines are a diff.
    let body = b"-------\n+++++++\n-------\n-x\n+y\n";
    assert_eq!(parse_conflict_hunk(body), conflict(&[b"", b"x\n"], &[b"y\n"]));
}

#[test]
fn hunk_body_last_line_without_newline() {
    assert_eq!(
        parse_conflict_hunk(b"-------\n+++++++\n-a\n+b"),
        conflict(&[b"a\n"], &[b"b"])
    );
    assert_eq!(parse_conflict_hunk(b"-------\nraw"), conflict(&[b"raw"], &[]));
}

#[test]
fn hunk_body_empty_gives_conflict_without_sides() {
    assert_eq!(parse_conflict_hunk(b""), conflict(&[], &[]));
}

#[test]
fn hunk_body_malformed_gives_empty_resolved_text() {
    assert_eq!(parse_conflict_hunk(b"text\n"), resolved(b""));
    assert_eq!(parse_conflict_hunk(b"-------\n+++++++\nx\n"), resolved(b""));
    assert_eq!(parse_conflict_hunk(b"-------\n+++++++\n\n"), resolved(b""));
    assert_eq!(parse_conflict_hunk(b"-------\n+++++++\n-a\n<<<<<<<\n"), resolved(b""));
}

#[test]
fn hunk_reader_refuses_content_before_any_side() {
    let mut reader = HunkReader::new();
    assert!(!reader.feed(b"text\n"));
    // The refused line left the reader as it was.
    assert!(reader.feed(b"-------\n"));
    assert!(reader.feed(b"text\n"));
    assert_eq!(reader.finish(), conflict(&[b"text\n"], &[]));
}

#[test]
fn hunk_reader_refuses_unprefixed_line_in_a_diff() {
    let mut reader = HunkReader::new();
    assert!(reader.feed(b"-------\n"));
    assert!(reader.feed(b"+++++++\n"));
    assert!(reader.feed(b" both\n"));
    assert!(!reader.feed(b"neither\n"));
    assert!(!reader.feed(b""));
    assert!(reader.feed(b"-left\n"));
    assert!(reader.feed(b"+right\n"));
    assert_eq!(
        reader.finish(),
        conflict(&[b"both\nleft\n"], &[b"both\nright\n"])
    );
}

#[test]
fn hunk_reader_marker_after_content_closes_other_side() {
    let mut reader = HunkReader::new();
    assert!(reader.feed(b"+++++++\n"));
    assert!(reader.feed(b"added\n"));
    assert!(reader.feed(b"-------\n"));
    // Only the removed side is open now: the line is taken as it stands.
    assert!(reader.feed(b"+removed\n"));
    assert_eq!(reader.finish(), conflict(&[b"+removed\n"], &[b"added\n"]));
}
