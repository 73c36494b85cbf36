use conflict_markers::backend::{Conflict, ConflictPart, ObjectId, TreeValue};
use conflict_markers::describe::{describe_conflict, describe_conflict_part};

fn part(value: TreeValue) -> ConflictPart {
    ConflictPart { value }
}

#[test]
fn hex_writes_two_lower_case_digits_for_each_byte() {
    assert_eq!(ObjectId(vec![]).hex(), "");
    assert_eq!(ObjectId(vec![0x00]).hex(), "00");
    assert_eq!(ObjectId(vec![0x0f, 0xf0]).hex(), "0ff0");
    assert_eq!(
        ObjectId(vec![0x01, 0x23, 0x45, 0x67, 0x89, 0xab, 0xcd, 0xef]).hex(),
        "0123456789abcdef"
    );
    assert_eq!(ObjectId(vec![0xff, 0x9a]).hex(), "ff9a");
}

#[test]
fn describe_part_names_each_kind() {
    let id = || ObjectId(vec![0xde, 0xad]);
    assert_eq!(
        describe_conflict_part(&part(TreeValue::Normal {
            id: id(),
            executable: false
        })),
        "file with id dead"
    );
    assert_eq!(
        describe_conflict_part(&part(TreeValue::Normal {
            id: id(),
            executable: true
        })),
        "executable file with id dead"
    );
    assert_eq!(
        describe_conflict_part(&part(TreeValue::Symlink(id()))),
        "symlink with id dead"
    );
    assert_eq!(
        describe_conflict_part(&part(TreeValue::Tree(id()))),
        "tree with id dead"
    );
    assert_eq!(
        describe_conflict_part(&part(TreeValue::GitSubmodule(id()))),
        "Git submodule with id dead"
    );
    assert_eq!(
        describe_conflict_part(&part(TreeValue::Conflict(id()))),
        "Conflict with id dead"
    );
}

#[test]
fn describe_conflict_lists_removes_then_adds() {
    let conflict = Conflict {
        removes: vec![
            part(TreeValue::Tree(ObjectId(vec![0x01]))),
            part(TreeValue::Normal {
                id: ObjectId(vec![0x02]),
                executable: false,
            }),
        ],
        adds: vec![
            part(TreeValue::Conflict(ObjectId(vec![0x03]))),
            part(TreeValue::GitSubmodule(ObjectId(vec![0x04]))),
            part(TreeValue::Symlink(ObjectId(vec![0x05]))),
        ],
    };
    let mut output = b"# ".to_vec();
    describe_conflict(&conflict, &mut output);
    assert_eq!(
        String::from_utf8(output).unwrap(),
        "# Conflict:\n  Removing tree with id 01\n  Removing file with id 02\n  Adding Conflict with id 03\n  Adding Git submodule with id 04\n  Adding symlink with id 05\n"
    );
}

#[test]
fn describe_conflict_without_sides_is_the_header() {
    let conflict = Conflict {
        removes: vec![],
        adds: vec![],
    };
    let mut output = Vec::new();
    describe_conflict(&conflict, &mut output);
    assert_eq!(output, b"Conflict:\n".to_vec());
}

#[test]
fn is_file_part_holds_of_plain_files_only() {
    let id = || ObjectId(vec![1]);
    assert!(part(TreeValue::Normal {
        id: id(),
        executable: false
    })
    .is_file_part());
    assert!(!part(TreeValue::Normal {
        id: id(),
        executable: true
    })
    .is_file_part());
    assert!(!part(TreeValue::Symlink(id())).is_file_part());
    assert!(!part(TreeValue::Tree(id())).is_file_part());
    assert!(!part(TreeValue::GitSubmodule(id())).is_file_part());
    assert!(!part(TreeValue::Conflict(id())).is_file_part());
}
