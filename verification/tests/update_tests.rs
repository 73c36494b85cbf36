use conflict_markers::backend::{Conflict, ConflictPart, ObjectId, TreeValue};
use conflict_markers::hunks::MergeHunk;
use conflict_markers::update::{plan_update, rebuild_contents, UpdatePlan};

fn plain(id: u8) -> ConflictPart {
    ConflictPart {
        value: TreeValue::Normal {
            id: ObjectId(vec![id]),
            executable: false,
        },
    }
}

#[test]
fn unchanged_text_changes_nothing() {
    let text = b"a\n<<<<<<<\n-------\n+++++++\n-b\n+x\n>>>>>>>\n";
    assert_eq!(plan_update(text, text, 1, 1), UpdatePlan::Unchanged);
    // Also where the text would not parse, or would parse with another arity.
    assert_eq!(plan_update(text, text, 3, 3), UpdatePlan::Unchanged);
    let description = b"Conflict:\n  Removing tree with id 01\n";
    assert_eq!(plan_update(description, description, 1, 0), UpdatePlan::Unchanged);
    assert_eq!(plan_update(b"", b"", 0, 0), UpdatePlan::Unchanged);
}

#[test]
fn edit_without_markers_is_unresolved() {
    let old = b"<<<<<<<\n-------\n+++++++\n-b\n+x\n>>>>>>>\n";
    assert_eq!(plan_update(old, b"resolved by hand\n", 1, 1), UpdatePlan::Unresolved);
    assert_eq!(plan_update(old, b"", 1, 1), UpdatePlan::Unresolved);
}

#[test]
fn example_deleting_a_pair_of_markers_is_unresolved() {
    let old = b"<<<<<<<\n-------\n+++++++\n-a\n+b\n-------\n+++++++\n-c\n+d\n>>>>>>>\n";
    let edited = b"<<<<<<<\n-------\n+++++++\n-a\n+b\n-c\n+d\n>>>>>>>\n";
    assert_eq!(plan_update(old, edited, 2, 2), UpdatePlan::Unresolved);
    // The same text is a resolution for a conflict of one pair.
    assert_eq!(
        plan_update(old, edited, 1, 1),
        UpdatePlan::Rewrite {
            removed: vec![b"a\nc\n".to_vec()],
            added: vec![b"b\nd\n".to_vec()],
        }
    );
}

#[test]
fn edited_block_rewrites_every_side() {
    let old = b"top\n<<<<<<<\n-------\n+++++++\n-b\n+x\n+++++++\ny\n>>>>>>>\nend\n";
    let new = b"new top\n<<<<<<<\n-------\n+++++++\n-b\n+x2\n+++++++\ny\nz\n>>>>>>>\nend\n";
    assert_eq!(
        plan_update(old, new, 1, 2),
        UpdatePlan::Rewrite {
            removed: vec![b"new top\nb\nend\n".to_vec()],
            added: vec![b"new top\nx2\nend\n".to_vec(), b"new top\ny\nz\nend\n".to_vec()],
        }
    );
}

#[test]
fn rebuild_gives_resolved_text_to_every_side() {
    let hunks = vec![
        MergeHunk::Resolved(b"1\n".to_vec()),
        MergeHunk::Conflict {
            removes: vec![b"r0\n".to_vec(), b"r1\n".to_vec()],
            adds: vec![b"a0\n".to_vec()],
        },
        MergeHunk::Resolved(b"2\n".to_vec()),
        MergeHunk::Conflict {
            removes: vec![b"R0\n".to_vec(), Vec::new()],
            adds: vec![b"A0\n".to_vec()],
        },
    ];
    let (removed, added) = rebuild_contents(&hunks, 2, 1);
    assert_eq!(
        removed,
        vec![b"1\nr0\n2\nR0\n".to_vec(), b"1\nr1\n2\n".to_vec()]
    );
    assert_eq!(added, vec![b"1\na0\n2\nA0\n".to_vec()]);
}

#[test]
fn rebuild_leaves_a_side_that_no_conflict_names_with_resolved_text() {
    let hunks = vec![
        MergeHunk::Conflict {
            removes: vec![b"r\n".to_vec()],
            adds: vec![],
        },
        MergeHunk::Resolved(b"text\n".to_vec()),
    ];
    let (removed, added) = rebuild_contents(&hunks, 2, 1);
    assert_eq!(removed, vec![b"r\ntext\n".to_vec(), b"text\n".to_vec()]);
    assert_eq!(added, vec![b"text\n".to_vec()]);
}

#[test]
fn rebuild_without_hunks_gives_empty_sides() {
    let (removed, added) = rebuild_contents(&Vec::new(), 1, 2);
    assert_eq!(removed, vec![Vec::<u8>::new()]);
    assert_eq!(added, vec![Vec::<u8>::new(), Vec::<u8>::new()]);
}

#[test]
fn with_file_ids_replaces_every_id() {
    let conflict = Conflict {
        removes: vec![plain(1)],
        adds: vec![plain(2), plain(3)],
    };
    let updated = conflict.with_file_ids(
        &vec![ObjectId(vec![0x11, 0x12])],
        &vec![ObjectId(vec![0x21]), ObjectId(vec![])],
    );
    assert_eq!(
        updated,
        Conflict {
            removes: vec![ConflictPart {
                value: TreeValue::Normal {
                    id: ObjectId(vec![0x11, 0x12]),
                    executable: false
                }
            }],
            adds: vec![
                ConflictPart {
                    value: TreeValue::Normal {
                        id: ObjectId(vec![0x21]),
                        executable: false
                    }
                },
                ConflictPart {
                    value: TreeValue::Normal {
                        id: ObjectId(vec![]),
                        executable: false
                    }
                },
            ],
        }
    );
}
