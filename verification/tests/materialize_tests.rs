use conflict_markers::backend::{Conflict, ConflictPart, ObjectId, TreeValue};
use conflict_markers::hunks::{DiffHunk, MergeHunk, MergeResult};
use conflict_markers::materialize::{
    file_parts, get_file_contents, materialize_conflict, write_diff_hunks, write_merge_result,
};
use conflict_markers::parse::parse_conflict;
use conflict_markers::render::{render_diff, write_prefixed_lines};
use conflict_markers::update::rebuild_contents;

fn file(id: u8) -> ConflictPart {
    ConflictPart {
        value: TreeValue::Normal {
            id: ObjectId(vec![id]),
            executable: false,
        },
    }
}

fn lines_of(text: &[u8]) -> Vec<Vec<u8>> {
    let mut lines = Vec::new();
    let mut start = 0;
    for (i, byte) in text.iter().enumerate() {
        if *byte == b'\n' {
            lines.push(text[start..=i].to_vec());
            start = i + 1;
        }
    }
    if start < text.len() {
        lines.push(text[start..].to_vec());
    }
    lines
}

/// A small line diff: the lines that both sides start with, the lines that
/// both end with, and what lies between as one region that differs.
fn diff_by_ends(left: &Vec<u8>, right: &Vec<u8>) -> Vec<DiffHunk> {
    let l = lines_of(left);
    let r = lines_of(right);
    let mut head = 0;
    while head < l.len() && head < r.len() && l[head] == r[head] {
        head += 1;
    }
    let mut tail = 0;
    while tail < l.len() - head && tail < r.len() - head && l[l.len() - 1 - tail] == r[r.len() - 1 - tail] {
        tail += 1;
    }
    let mut hunks = Vec::new();
    if head > 0 {
        hunks.push(DiffHunk::Matching(l[..head].concat()));
    }
    if head < l.len() - tail || head < r.len() - tail {
        hunks.push(DiffHunk::Different(
            l[head..l.len() - tail].concat(),
            r[head..r.len() - tail].concat(),
        ));
    }
    if tail > 0 {
        hunks.push(DiffHunk::Matching(l[l.len() - tail..].concat()));
    }
    hunks
}

/// The store of the tests: the content of file `n` is the `n`-th buffer.
fn reader(contents: Vec<&'static [u8]>) -> impl Fn(&ObjectId) -> Vec<u8> {
    move |id: &ObjectId| contents[id.0[0] as usize].to_vec()
}

fn never_read(_id: &ObjectId) -> Vec<u8> {
    panic!("no content is read for a conflict that is only described")
}

fn never_merge(_removes: &Vec<Vec<u8>>, _adds: &Vec<Vec<u8>>) -> MergeResult {
    panic!("nothing is merged for a conflict that is only described")
}

#[test]
fn example_one_remove_one_add() {
    let conflict = Conflict {
        removes: vec![file(0)],
        adds: vec![file(1)],
    };
    let read = reader(vec![b"a\nb\nc\n", b"a\nx\nc\n"]);
    let merge = |removes: &Vec<Vec<u8>>, adds: &Vec<Vec<u8>>| {
        assert_eq!(removes, &vec![b"a\nb\nc\n".to_vec()]);
        assert_eq!(adds, &vec![b"a\nx\nc\n".to_vec()]);
        MergeResult::Conflict(vec![
            MergeHunk::Resolved(b"a\n".to_vec()),
            MergeHunk::Conflict {
                removes: removes.clone(),
                adds: adds.clone(),
            },
        ])
    };
    let mut output = Vec::new();
    materialize_conflict(&conflict, &read, &merge, &diff_by_ends, &mut output);
    assert_eq!(
        output,
        b"a\n<<<<<<<\n-------\n+++++++\n a\n-b\n+x\n c\n>>>>>>>\n".to_vec()
    );

    let hunks = parse_conflict(&output, 1, 1).unwrap();
    let conflicts: Vec<&MergeHunk> = hunks
        .iter()
        .filter(|hunk| matches!(hunk, MergeHunk::Conflict { .. }))
        .collect();
    assert_eq!(conflicts.len(), 1);
    assert_eq!(
        hunks,
        vec![
            MergeHunk::Resolved(b"a\n".to_vec()),
            MergeHunk::Conflict {
                removes: vec![b"a\nb\nc\n".to_vec()],
                adds: vec![b"a\nx\nc\n".to_vec()],
            },
        ]
    );
}

#[test]
fn example_two_removes_one_add_resolved() {
    let conflict = Conflict {
        removes: vec![file(0), file(1)],
        adds: vec![file(2)],
    };
    let read = reader(vec![b"base\n", b"merged\n", b"merged\n"]);
    let merge = |removes: &Vec<Vec<u8>>, adds: &Vec<Vec<u8>>| {
        assert_eq!(removes.len(), 2);
        assert_eq!(adds.len(), 1);
        MergeResult::Resolved(b"merged\n".to_vec())
    };
    let mut output = Vec::new();
    materialize_conflict(&conflict, &read, &merge, &diff_by_ends, &mut output);
    assert_eq!(output, b"merged\n".to_vec());
    assert_eq!(parse_conflict(&output, 2, 1), None);
}

#[test]
fn materialize_appends_to_what_output_holds() {
    let conflict = Conflict {
        removes: vec![],
        adds: vec![file(0)],
    };
    let read = reader(vec![b"text\n"]);
    let merge =
        |_removes: &Vec<Vec<u8>>, adds: &Vec<Vec<u8>>| MergeResult::Resolved(adds[0].clone());
    let mut output = b"before\n".to_vec();
    materialize_conflict(&conflict, &read, &merge, &diff_by_ends, &mut output);
    assert_eq!(output, b"before\ntext\n".to_vec());
}

#[test]
fn materialize_reads_each_side_by_its_id() {
    let conflict = Conflict {
        removes: vec![file(2), file(0)],
        adds: vec![file(1), file(3), file(0)],
    };
    let read = reader(vec![b"zero\n", b"one\n", b"two\n", b"three\n"]);
    let merge = |removes: &Vec<Vec<u8>>, adds: &Vec<Vec<u8>>| {
        assert_eq!(removes, &vec![b"two\n".to_vec(), b"zero\n".to_vec()]);
        assert_eq!(
            adds,
            &vec![b"one\n".to_vec(), b"three\n".to_vec(), b"zero\n".to_vec()]
        );
        MergeResult::Conflict(vec![MergeHunk::Conflict {
            removes: removes.clone(),
            adds: adds.clone(),
        }])
    };
    let mut output = Vec::new();
    materialize_conflict(&conflict, &read, &merge, &diff_by_ends, &mut output);
    assert_eq!(
        output,
        b"<<<<<<<\n-------\n+++++++\n-two\n+one\n-------\n+++++++\n-zero\n+three\n+++++++\nzero\n>>>>>>>\n"
            .to_vec()
    );
}

#[test]
fn materialize_more_removes_than_adds() {
    let conflict = Conflict {
        removes: vec![file(0), file(1), file(2)],
        adds: vec![file(3)],
    };
    let read = reader(vec![b"r0\n", b"r1\n", b"r2\n", b"a0\n"]);
    let merge = |removes: &Vec<Vec<u8>>, adds: &Vec<Vec<u8>>| {
        MergeResult::Conflict(vec![
            MergeHunk::Conflict {
                removes: removes.clone(),
                adds: adds.clone(),
            },
            MergeHunk::Resolved(b"end\n".to_vec()),
        ])
    };
    let mut output = Vec::new();
    materialize_conflict(&conflict, &read, &merge, &diff_by_ends, &mut output);
    assert_eq!(
        output,
        b"<<<<<<<\n-------\n+++++++\n-r0\n+a0\n-------\nr1\n-------\nr2\n>>>>>>>\nend\n".to_vec()
    );
}

#[test]
fn materialize_conflict_without_pairs() {
    let conflict = Conflict {
        removes: vec![],
        adds: vec![file(0), file(1)],
    };
    let read = reader(vec![b"first\n", b"second\n"]);
    let merge = |removes: &Vec<Vec<u8>>, adds: &Vec<Vec<u8>>| {
        MergeResult::Conflict(vec![MergeHunk::Conflict {
            removes: removes.clone(),
            adds: adds.clone(),
        }])
    };
    let diff = |_left: &Vec<u8>, _right: &Vec<u8>| -> Vec<DiffHunk> {
        panic!("sides without a partner are not compared")
    };
    let mut output = Vec::new();
    materialize_conflict(&conflict, &read, &merge, &diff, &mut output);
    assert_eq!(
        output,
        b"<<<<<<<\n+++++++\nfirst\n+++++++\nsecond\n>>>>>>>\n".to_vec()
    );
}

#[test]
fn materialize_describes_conflict_with_a_part_that_is_no_file() {
    let conflict = Conflict {
        removes: vec![file(0x0a)],
        adds: vec![
            ConflictPart {
                value: TreeValue::Symlink(ObjectId(vec![0xab, 0xcd])),
            },
            file(0x01),
        ],
    };
    let mut output = Vec::new();
    materialize_conflict(&conflict, &never_read, &never_merge, &diff_by_ends, &mut output);
    assert_eq!(
        output,
        b"Conflict:\n  Removing file with id 0a\n  Adding symlink with id abcd\n  Adding file with id 01\n"
            .to_vec()
    );
}

#[test]
fn materialize_describes_conflict_with_executable_file() {
    let conflict = Conflict {
        removes: vec![ConflictPart {
            value: TreeValue::Normal {
                id: ObjectId(vec![0x12]),
                executable: true,
            },
        }],
        adds: vec![],
    };
    let mut output = Vec::new();
    materialize_conflict(&conflict, &never_read, &never_merge, &diff_by_ends, &mut output);
    assert_eq!(
        output,
        b"Conflict:\n  Removing executable file with id 12\n".to_vec()
    );
}

#[test]
fn description_never_parses_as_markers() {
    let conflict = Conflict {
        removes: vec![ConflictPart {
            value: TreeValue::Tree(ObjectId(vec![0x3c, 0x3c, 0x3c])),
        }],
        adds: vec![
            ConflictPart {
                value: TreeValue::GitSubmodule(ObjectId(vec![0x3e])),
            },
            ConflictPart {
                value: TreeValue::Conflict(ObjectId(vec![])),
            },
        ],
    };
    let mut output = Vec::new();
    materialize_conflict(&conflict, &never_read, &never_merge, &diff_by_ends, &mut output);
    assert!(!output.contains(&b'<'));
    for num_removes in 0..4 {
        for num_adds in 0..4 {
            assert_eq!(parse_conflict(&output, num_removes, num_adds), None);
        }
    }
}

#[test]
fn unedited_text_gives_the_contents_back() {
    let contents: Vec<&'static [u8]> = vec![
        b"same\nbase 1\nsame\nbase 2\nend\n",
        b"same\nleft 1\nsame\nbase 2\nend\n",
        b"same\nbase 1\nsame\nright 2\nend\n",
    ];
    let conflict = Conflict {
        removes: vec![file(0)],
        adds: vec![file(1), file(2)],
    };
    let read = reader(contents.clone());
    // A merge in hunks of which each side gets its content back.
    let merge = |_removes: &Vec<Vec<u8>>, _adds: &Vec<Vec<u8>>| {
        MergeResult::Conflict(vec![
            MergeHunk::Resolved(b"same\n".to_vec()),
            MergeHunk::Conflict {
                removes: vec![b"base 1\n".to_vec()],
                adds: vec![b"left 1\n".to_vec(), b"base 1\n".to_vec()],
            },
            MergeHunk::Resolved(b"same\n".to_vec()),
            MergeHunk::Conflict {
                removes: vec![b"base 2\n".to_vec()],
                adds: vec![b"base 2\n".to_vec(), b"right 2\n".to_vec()],
            },
            MergeHunk::Resolved(b"end\n".to_vec()),
        ])
    };
    let mut output = Vec::new();
    materialize_conflict(&conflict, &read, &merge, &diff_by_ends, &mut output);
    assert_eq!(
        output,
        b"same\n<<<<<<<\n-------\n+++++++\n-base 1\n+left 1\n+++++++\nbase 1\n>>>>>>>\nsame\n<<<<<<<\n-------\n+++++++\n base 2\n+++++++\nright 2\n>>>>>>>\nend\n"
            .to_vec()
    );
    let hunks = parse_conflict(&output, 1, 2).unwrap();
    let (removed, added) = rebuild_contents(&hunks, 1, 2);
    assert_eq!(removed, vec![contents[0].to_vec()]);
    assert_eq!(added, vec![contents[1].to_vec(), contents[2].to_vec()]);
}

#[test]
fn identical_sides_render_as_context_only() {
    let side = b"one\ntwo\nthree\n".to_vec();
    let mut output = Vec::new();
    write_diff_hunks(&side, &side, &diff_by_ends, &mut output);
    assert_eq!(output, b" one\n two\n three\n".to_vec());
}

#[test]
fn diff_of_empty_sides_writes_nothing() {
    let mut output = b"kept".to_vec();
    write_diff_hunks(&Vec::new(), &Vec::new(), &diff_by_ends, &mut output);
    assert_eq!(output, b"kept".to_vec());
}

#[test]
fn render_diff_prefixes_every_line() {
    let hunks = vec![
        DiffHunk::Matching(b"a\nb\n".to_vec()),
        DiffHunk::Different(b"c\nd\n".to_vec(), b"e\n".to_vec()),
        DiffHunk::Matching(Vec::new()),
        DiffHunk::Different(Vec::new(), b"f\ng".to_vec()),
    ];
    let mut output = Vec::new();
    render_diff(&hunks, &mut output);
    assert_eq!(output, b" a\n b\n-c\n-d\n+e\n+f\n+g".to_vec());
}

#[test]
fn render_diff_empty_regions_write_nothing() {
    let hunks = vec![
        DiffHunk::Matching(Vec::new()),
        DiffHunk::Different(Vec::new(), Vec::new()),
    ];
    let mut output = Vec::new();
    render_diff(&hunks, &mut output);
    assert_eq!(output, Vec::<u8>::new());
}

#[test]
fn prefixed_lines_keep_a_last_line_without_newline() {
    let mut output = Vec::new();
    write_prefixed_lines(b'+', b"x\n\ny", &mut output);
    assert_eq!(output, b"+x\n+\n+y".to_vec());
}

#[test]
fn file_parts_keeps_plain_files_in_order() {
    let parts = vec![
        file(1),
        ConflictPart {
            value: TreeValue::Symlink(ObjectId(vec![2])),
        },
        ConflictPart {
            value: TreeValue::Normal {
                id: ObjectId(vec![3]),
                executable: true,
            },
        },
        file(4),
        ConflictPart {
            value: TreeValue::Tree(ObjectId(vec![5])),
        },
        ConflictPart {
            value: TreeValue::GitSubmodule(ObjectId(vec![6])),
        },
        ConflictPart {
            value: TreeValue::Conflict(ObjectId(vec![7])),
        },
    ];
    let files = file_parts(&parts);
    assert_eq!(files, vec![&parts[0], &parts[3]]);
    assert!(file_parts(&[]).is_empty());
}

#[test]
fn get_file_contents_reads_by_id() {
    let read = reader(vec![b"zero", b"one"]);
    assert_eq!(get_file_contents(&file(1), &read), b"one".to_vec());
    assert_eq!(get_file_contents(&file(0), &read), b"zero".to_vec());
}

#[test]
fn merge_without_conflict_is_written_as_it_is() {
    let merged = MergeResult::Resolved(b"no newline at the end".to_vec());
    let mut output = Vec::new();
    write_merge_result(&merged, &diff_by_ends, &mut output);
    assert_eq!(output, b"no newline at the end".to_vec());
}

#[test]
fn merge_in_hunks_is_written_hunk_by_hunk() {
    let merged = MergeResult::Conflict(vec![
        MergeHunk::Resolved(b"1\n".to_vec()),
        MergeHunk::Conflict {
            removes: vec![b"a\nb\n".to_vec()],
            adds: vec![b"a\nc\n".to_vec(), b"d\n".to_vec()],
        },
        MergeHunk::Resolved(Vec::new()),
        MergeHunk::Conflict {
            removes: vec![Vec::new(), b"e\n".to_vec()],
            adds: vec![Vec::new()],
        },
        MergeHunk::Resolved(b"2".to_vec()),
    ]);
    let mut output = Vec::new();
    write_merge_result(&merged, &diff_by_ends, &mut output);
    assert_eq!(
        output,
        b"1\n<<<<<<<\n-------\n+++++++\n a\n-b\n+c\n+++++++\nd\n>>>>>>>\n<<<<<<<\n-------\n+++++++\n-------\ne\n>>>>>>>\n2"
            .to_vec()
    );
}

#[test]
fn empty_pair_before_a_lone_side_does_not_read_back() {
    // Nothing was written for the pair, so the marker of the lone side
    // leaves both sides open and the line after it is read as a diff.
    let merged = MergeResult::Conflict(vec![MergeHunk::Conflict {
        removes: vec![Vec::new(), b"e\n".to_vec()],
        adds: vec![Vec::new()],
    }]);
    let mut output = Vec::new();
    write_merge_result(&merged, &diff_by_ends, &mut output);
    assert_eq!(parse_conflict(&output, 2, 1), None);
}

#[test]
fn removed_line_of_six_dashes_does_not_read_back() {
    let merged = MergeResult::Conflict(vec![MergeHunk::Conflict {
        removes: vec![b"------\n".to_vec()],
        adds: vec![b"new\n".to_vec()],
    }]);
    let mut output = Vec::new();
    write_merge_result(&merged, &diff_by_ends, &mut output);
    assert_eq!(
        output,
        b"<<<<<<<\n-------\n+++++++\n-------\n+new\n>>>>>>>\n".to_vec()
    );
    assert_eq!(parse_conflict(&output, 1, 1), None);
    assert_eq!(
        parse_conflict(&output, 2, 1),
        Some(vec![MergeHunk::Conflict {
            removes: vec![Vec::new(), Vec::new()],
            adds: vec![b"new\n".to_vec()],
        }])
    );
}

#[test]
fn resolved_hunks_in_a_row_read_back_as_one() {
    let hunks = vec![
        MergeHunk::Resolved(b"half a ".to_vec()),
        MergeHunk::Resolved(b"line\n".to_vec()),
        MergeHunk::Conflict {
            removes: vec![b"r\n".to_vec()],
            adds: vec![b"a\n".to_vec()],
        },
        MergeHunk::Resolved(b"no ".to_vec()),
        MergeHunk::Resolved(b"end".to_vec()),
    ];
    let mut output = Vec::new();
    write_merge_result(&MergeResult::Conflict(hunks.clone()), &diff_by_ends, &mut output);
    let parsed = parse_conflict(&output, 1, 1).unwrap();
    assert_eq!(
        parsed,
        vec![
            MergeHunk::Resolved(b"half a line\n".to_vec()),
            MergeHunk::Conflict {
                removes: vec![b"r\n".to_vec()],
                adds: vec![b"a\n".to_vec()],
            },
            MergeHunk::Resolved(b"no end".to_vec()),
        ]
    );
    assert_eq!(rebuild_contents(&parsed, 1, 1), rebuild_contents(&hunks, 1, 1));
}

#[test]
fn empty_lone_sides_after_an_empty_pair_read_back() {
    let hunks = vec![MergeHunk::Conflict {
        removes: vec![Vec::new()],
        adds: vec![Vec::new(), Vec::new(), Vec::new()],
    }];
    let mut output = Vec::new();
    write_merge_result(&MergeResult::Conflict(hunks.clone()), &diff_by_ends, &mut output);
    assert_eq!(
        output,
        b"<<<<<<<\n-------\n+++++++\n+++++++\n+++++++\n>>>>>>>\n".to_vec()
    );
    assert_eq!(parse_conflict(&output, 1, 3), Some(hunks));
}

#[test]
fn side_without_last_newline_does_not_read_back() {
    let hunks = vec![MergeHunk::Conflict {
        removes: vec![b"old".to_vec()],
        adds: vec![b"new".to_vec()],
    }];
    let mut output = Vec::new();
    write_merge_result(&MergeResult::Conflict(hunks), &diff_by_ends, &mut output);
    assert_eq!(
        output,
        b"<<<<<<<\n-------\n+++++++\n-old+new>>>>>>>\n".to_vec()
    );
    assert_eq!(parse_conflict(&output, 1, 1), None);
}

#[test]
fn lone_side_with_a_marker_line_does_not_read_back() {
    let hunks = vec![MergeHunk::Conflict {
        removes: vec![],
        adds: vec![b"text\n>>>>>>>\nmore\n".to_vec()],
    }];
    let mut output = Vec::new();
    write_merge_result(&MergeResult::Conflict(hunks.clone()), &diff_by_ends, &mut output);
    let parsed = parse_conflict(&output, 0, 1).unwrap();
    assert_ne!(rebuild_contents(&parsed, 0, 1), rebuild_contents(&hunks, 0, 1));
}
