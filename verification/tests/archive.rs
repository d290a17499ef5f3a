use ezark::codec::{build_archive, encode_index};
use ezark::index::{Node, NodeContent};
use ezark::makeSizedBuffer;
use ezark::pack::{pack_inputs, FsInput, FsTree, PackError};
use ezark::printer::{printArchiveTree, render_index};
use ezark::reader::{parse_archive, ArchiveError};
use ezark::unpack::{plan_extraction, ExtractAction, UnpackError};

fn b(s: &str) -> Vec<u8> {
    s.as_bytes().to_vec()
}

fn file(name: &str, contents: &str) -> FsTree {
    FsTree::File { name: b(name), bytes: b(contents) }
}

fn dir(name: &str, path: &str, entries: Vec<FsTree>) -> FsTree {
    FsTree::Dir { name: b(name), path: b(path), entries }
}

fn collect_ranges(node: &Node, out: &mut Vec<(usize, usize)>) {
    match &node.content {
        NodeContent::Absent => {}
        NodeContent::Range(s, e) => out.push((*s, *e)),
        NodeContent::Subtree(children) => {
            for child in children {
                collect_ranges(child, out);
            }
        }
    }
}

#[test]
fn pack_scenario_index_and_blob() {
    let proj = dir(
        "proj",
        "proj",
        vec![
            file("readme.txt", "hello"),
            dir("src", "proj/src", vec![file("a.txt", "abc")]),
        ],
    );
    let (index, blob) = pack_inputs(vec![FsInput::Present { tree: proj }]).unwrap();
    assert_eq!(blob, b("helloabc"));
    let text = encode_index(&index);
    assert_eq!(
        String::from_utf8(text).unwrap(),
        "{\"proj\":{\"readme.txt\":[0,5],\"src\":{\"a.txt\":[5,8]}}}"
    );
}

#[test]
fn archive_bytes_are_length_text_blob() {
    let proj = dir(
        "proj",
        "proj",
        vec![
            file("readme.txt", "hello"),
            dir("src", "proj/src", vec![file("a.txt", "abc")]),
        ],
    );
    let (index, blob) = pack_inputs(vec![FsInput::Present { tree: proj }]).unwrap();
    let text = encode_index(&index);
    let archive = build_archive(&index, &blob);
    let mut expected = format!("{}", text.len()).into_bytes();
    expected.extend_from_slice(&text);
    expected.extend_from_slice(&blob);
    assert_eq!(archive, expected);
}

#[test]
fn archive_parses_back_to_same_index() {
    let nodes = vec![
        Node { label: b("top.bin"), content: NodeContent::Range(0, 3) },
        Node {
            label: b("d"),
            content: NodeContent::Subtree(vec![
                Node { label: b("inner"), content: NodeContent::Range(3, 3) },
                Node { label: b("mark"), content: NodeContent::Absent },
            ]),
        },
    ];
    let blob = b("xyz");
    let archive = build_archive(&nodes, &blob);
    let (parsed, offset) = parse_archive(&archive).unwrap();
    // the parsed index re-encodes to the identical text, so it is the
    // same model
    assert_eq!(encode_index(&parsed), encode_index(&nodes));
    assert_eq!(&archive[offset..], b("xyz").as_slice());
}

#[test]
fn labels_with_quotes_and_backslashes_round_trip() {
    let odd = String::from("a\"b\\c");
    let nodes = vec![Node { label: odd.clone().into_bytes(), content: NodeContent::Range(0, 0) }];
    let text = encode_index(&nodes);
    assert_eq!(
        String::from_utf8(text).unwrap(),
        "{\"a\\\"b\\\\c\":[0,0]}"
    );
    let archive = build_archive(&nodes, &Vec::new());
    let (parsed, _) = parse_archive(&archive).unwrap();
    assert_eq!(parsed.len(), 1);
    assert_eq!(parsed[0].label, odd.into_bytes());
}

#[test]
fn corrupt_header_without_digits() {
    let result = parse_archive(&b("{\"a\":[0,0]}"));
    assert_eq!(result.unwrap_err(), ArchiveError::CorruptHeader);
}

#[test]
fn corrupt_header_digits_to_the_end() {
    let result = parse_archive(&b("123456"));
    assert_eq!(result.unwrap_err(), ArchiveError::CorruptHeader);
}

#[test]
fn corrupt_header_declares_too_much() {
    // declares 99 bytes of index text; only 2 follow the digits
    let result = parse_archive(&b("99{}"));
    assert_eq!(result.unwrap_err(), ArchiveError::CorruptHeader);
}

#[test]
fn corrupt_index_text() {
    let result = parse_archive(&b("3{x}"));
    assert_eq!(result.unwrap_err(), ArchiveError::CorruptIndex);
}

#[test]
fn corrupt_index_length_mismatch() {
    // the text parses as two bytes but three are declared
    let result = parse_archive(&b("3{}x"));
    assert_eq!(result.unwrap_err(), ArchiveError::CorruptIndex);
}

#[test]
fn empty_index_round_trips() {
    let (index, blob) = pack_inputs(Vec::new()).unwrap();
    assert!(index.is_empty());
    assert!(blob.is_empty());
    let archive = build_archive(&index, &blob);
    assert_eq!(archive, b("2{}"));
    let (parsed, offset) = parse_archive(&archive).unwrap();
    assert!(parsed.is_empty());
    assert_eq!(offset, 3);
}

#[test]
fn offsets_tile_the_blob() {
    let forest = vec![
        FsInput::Present { tree: file("one", "aa") },
        FsInput::Present {
            tree: dir(
                "d",
                "d",
                vec![
                    file("two", ""),
                    file("three", "bbbb"),
                    dir("e", "d/e", vec![file("four", "c")]),
                ],
            ),
        },
        FsInput::Present { tree: file("five", "dd") },
    ];
    let (index, blob) = pack_inputs(forest).unwrap();
    let mut ranges = Vec::new();
    for node in &index {
        collect_ranges(node, &mut ranges);
    }
    let mut cursor = 0usize;
    for (s, e) in ranges {
        assert_eq!(s, cursor);
        assert!(s <= e);
        cursor = e;
    }
    assert_eq!(cursor, blob.len());
}

#[test]
fn cycle_guard_packs_directory_once() {
    let inner = || dir("b", "a/b", vec![file("g", "g")]);
    let forest = vec![
        FsInput::Present { tree: dir("a", "a", vec![file("f", "f"), inner()]) },
        FsInput::Present { tree: inner() },
    ];
    let (index, blob) = pack_inputs(forest).unwrap();
    let text = encode_index(&index);
    assert_eq!(
        String::from_utf8(text).unwrap(),
        "{\"a\":{\"f\":[0,1],\"b\":{\"g\":[1,2]}},\"b\":{}}"
    );
    assert_eq!(blob, b("fg"));
}

#[test]
fn symlinks_are_left_out() {
    let tree = dir(
        "d",
        "d",
        vec![
            file("x", "xx"),
            FsTree::Symlink { name: b("link") },
            file("y", "y"),
        ],
    );
    let (index, blob) = pack_inputs(vec![FsInput::Present { tree }]).unwrap();
    assert_eq!(
        String::from_utf8(encode_index(&index)).unwrap(),
        "{\"d\":{\"x\":[0,2],\"y\":[2,3]}}"
    );
    assert_eq!(blob, b("xxy"));
}

#[test]
fn missing_input_aborts_packing() {
    let forest = vec![
        FsInput::Present { tree: file("ok", "ok") },
        FsInput::Missing { path: b("no/such/path") },
    ];
    let err = pack_inputs(forest).unwrap_err();
    assert_eq!(err, PackError::MissingInput(b("no/such/path")));
}

#[test]
fn unreadable_and_unlistable_degrade() {
    let tree = dir(
        "d",
        "d",
        vec![
            file("a", "aa"),
            FsTree::UnreadableFile { name: b("gone") },
            FsTree::UnlistableDir { name: b("locked") },
            file("z", "z"),
        ],
    );
    let (index, blob) = pack_inputs(vec![FsInput::Present { tree }]).unwrap();
    assert_eq!(
        String::from_utf8(encode_index(&index)).unwrap(),
        "{\"d\":{\"a\":[0,2],\"gone\":[2,2],\"locked\":{},\"z\":[2,3]}}"
    );
    assert_eq!(blob, b("aaz"));
}

#[test]
fn extraction_plan_recreates_the_tree() {
    let proj = dir(
        "proj",
        "proj",
        vec![
            file("readme.txt", "hello"),
            dir("src", "proj/src", vec![file("a.txt", "abc")]),
        ],
    );
    let (index, blob) = pack_inputs(vec![FsInput::Present { tree: proj }]).unwrap();
    let plan = plan_extraction(&index, &blob, &b("out")).unwrap();
    assert_eq!(
        plan,
        vec![
            ExtractAction::MakeDir(b("out")),
            ExtractAction::MakeDir(b("out/proj")),
            ExtractAction::WriteFile(b("out/proj/readme.txt"), b("hello")),
            ExtractAction::MakeDir(b("out/proj/src")),
            ExtractAction::WriteFile(b("out/proj/src/a.txt"), b("abc")),
        ]
    );
}

#[test]
fn out_of_range_slice_is_corrupt() {
    let nodes = vec![Node { label: b("big"), content: NodeContent::Range(0, 10) }];
    let err = plan_extraction(&nodes, &b("tiny"), &b("out")).unwrap_err();
    assert_eq!(err, UnpackError::CorruptSlice(b("big")));
}

#[test]
fn reversed_range_is_corrupt() {
    let nodes = vec![Node { label: b("swap"), content: NodeContent::Range(3, 1) }];
    let err = plan_extraction(&nodes, &b("tiny"), &b("out")).unwrap_err();
    assert_eq!(err, UnpackError::CorruptSlice(b("swap")));
}

#[test]
fn absent_nodes_extract_to_nothing() {
    let nodes = vec![
        Node { label: b("mark"), content: NodeContent::Absent },
        Node { label: b("f"), content: NodeContent::Range(0, 1) },
    ];
    let plan = plan_extraction(&nodes, &b("q"), &b("dest")).unwrap();
    assert_eq!(
        plan,
        vec![
            ExtractAction::MakeDir(b("dest")),
            ExtractAction::WriteFile(b("dest/f"), b("q")),
        ]
    );
}

#[test]
fn printer_shows_three_levels_of_markers() {
    let depth3 = Node {
        label: b("a"),
        content: NodeContent::Subtree(vec![Node {
            label: b("b"),
            content: NodeContent::Subtree(vec![Node {
                label: b("c"),
                content: NodeContent::Subtree(vec![Node {
                    label: b("d"),
                    content: NodeContent::Range(0, 1),
                }]),
            }]),
        }]),
    };
    let printed = render_index(&vec![depth3]);
    assert_eq!(
        String::from_utf8(printed).unwrap(),
        "a\n|---b\n|   |---c\n|   |   |---d\n"
    );
}

#[test]
fn printer_keeps_child_order() {
    let tree = Node {
        label: b("root"),
        content: NodeContent::Subtree(vec![
            Node { label: b("first"), content: NodeContent::Range(0, 1) },
            Node { label: b("second"), content: NodeContent::Range(1, 2) },
            Node { label: b("third"), content: NodeContent::Subtree(Vec::new()) },
        ]),
    };
    let printed = render_index(&vec![tree]);
    assert_eq!(
        String::from_utf8(printed).unwrap(),
        "root\n|---first\n|---second\n|---third\n"
    );
}

#[test]
fn printer_single_node_at_given_indent() {
    let leaf = Node { label: b("leaf"), content: NodeContent::Range(0, 0) };
    assert_eq!(String::from_utf8(printArchiveTree(&leaf, 0)).unwrap(), "leaf\n");
    assert_eq!(String::from_utf8(printArchiveTree(&leaf, 4)).unwrap(), "|---leaf\n");
    assert_eq!(
        String::from_utf8(printArchiveTree(&leaf, 12)).unwrap(),
        "|   |   |---leaf\n"
    );
}

#[test]
fn sized_buffer_is_zero_filled() {
    let buf = makeSizedBuffer(5);
    assert_eq!(buf, vec![0u8, 0, 0, 0, 0]);
    assert!(makeSizedBuffer(0).is_empty());
}

#[test]
fn full_round_trip_through_archive_file_bytes() {
    let forest = vec![
        FsInput::Present { tree: file("notes", "first file") },
        FsInput::Present {
            tree: dir(
                "docs",
                "docs",
                vec![file("a", "A"), dir("deep", "docs/deep", vec![file("b", "BB")])],
            ),
        },
    ];
    let (index, blob) = pack_inputs(forest).unwrap();
    let archive = build_archive(&index, &blob);
    let (parsed, offset) = parse_archive(&archive).unwrap();
    let recovered_blob = archive[offset..].to_vec();
    assert_eq!(recovered_blob, blob);
    let plan = plan_extraction(&parsed, &recovered_blob, &b(".")).unwrap();
    assert_eq!(
        plan,
        vec![
            ExtractAction::MakeDir(b(".")),
            ExtractAction::WriteFile(b("./notes"), b("first file")),
            ExtractAction::MakeDir(b("./docs")),
            ExtractAction::WriteFile(b("./docs/a"), b("A")),
            ExtractAction::MakeDir(b("./docs/deep")),
            ExtractAction::WriteFile(b("./docs/deep/b"), b("BB")),
        ]
    );
}
