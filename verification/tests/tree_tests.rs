use post_body::Command;
use post_body::Embed;
use post_body::EmbedProvider;
use post_body::Node;
use post_body::PendingNode;
use post_body::patch::NodeKind;
use post_body::patch::Patch;
use post_body::patch::PatchError;
use post_body::patch::PatchKind;
use post_body::text_patch::TextPatch;

fn round_trip(old: Node, new: Node) {
    let mut work = old.clone();
    match old.diff(&new) {
        None => {
            // observably equal; applying nothing keeps the tree as it is
        }
        Some(p) => {
            work.patch(p).expect("patch produced by diff must apply");
        }
    }
    // the patched tree diffs to nothing against the target
    assert!(work.diff(&new).is_none());
}

// Test diffing and patching nodes
#[test]
fn node_diff() {
    let old = Node::Children(vec![
        Node::text("hello"),
        Node::NewLine,
        Node::spoiler(Node::text("secret")),
    ]);
    let new = Node::Children(vec![
        Node::text("hello world"),
        Node::NewLine,
        Node::spoiler(Node::text("secrets")),
        Node::quote(Node::text("reply")),
    ]);
    let p = old.diff(&new).expect("trees differ");
    let mut work = old.clone();
    work.patch(p).expect("patch applies");
    assert_eq!(work, new);
}

#[test]
fn diff_of_identical_trees_is_none() {
    let trees = vec![
        Node::Empty,
        Node::NewLine,
        Node::text("abc"),
        Node::URL(String::from("https://example.test")),
        Node::Code(String::from("let x = 1;")),
        Node::PostLink { id: 7, thread: 9, page: 2 },
        Node::Command(Command::Dice { offset: 1, faces: 6, results: vec![3, 5] }),
        Node::Reference {
            label: String::from("spec"),
            url: String::from("https://example.test/spec"),
        },
        Node::Embed(Embed { provider: EmbedProvider::YouTube, data: String::from("id") }),
        Node::Pending(PendingNode::Countdown(30)),
        Node::spoiler(Node::text("inner")),
        Node::Bold(Box::new(Node::text("b"))),
        Node::Italic(Box::new(Node::NewLine)),
        Node::quote(Node::Children(vec![Node::text("a"), Node::NewLine])),
        Node::Children(vec![Node::text("a"), Node::Children(vec![Node::NewLine])]),
    ];
    for t in trees {
        assert!(t.diff(&t.clone()).is_none());
    }
}

#[test]
fn singleton_children_collapse() {
    let xs = vec![
        Node::text("abc"),
        Node::NewLine,
        Node::spoiler(Node::text("s")),
        Node::Pending(PendingNode::Flip),
    ];
    for x in xs {
        let wrapped = Node::Children(vec![x.clone()]);
        assert!(wrapped.diff(&x).is_none());
        assert!(x.diff(&wrapped).is_none());
    }
}

#[test]
fn round_trips_across_variants() {
    round_trip(Node::text("abc"), Node::text("ade"));
    round_trip(Node::Empty, Node::text("x"));
    round_trip(Node::text("x"), Node::Empty);
    round_trip(Node::URL(String::from("a/b")), Node::URL(String::from("a/c")));
    round_trip(
        Node::Code(String::from("fn f() {}")),
        Node::Code(String::from("fn f() { 1 }")),
    );
    round_trip(
        Node::spoiler(Node::text("old")),
        Node::spoiler(Node::text("new")),
    );
    round_trip(
        Node::Bold(Box::new(Node::text("a"))),
        Node::Italic(Box::new(Node::text("a"))),
    );
    round_trip(
        Node::Children(vec![Node::text("a"), Node::NewLine, Node::text("b")]),
        Node::Children(vec![Node::text("a2"), Node::NewLine]),
    );
    round_trip(
        Node::Children(vec![Node::text("a")]),
        Node::Children(vec![Node::text("a"), Node::NewLine, Node::text("b")]),
    );
    round_trip(
        Node::PostLink { id: 1, thread: 2, page: 0 },
        Node::PostLink { id: 1, thread: 2, page: 3 },
    );
    round_trip(
        Node::Command(Command::Flip(true)),
        Node::Command(Command::Flip(false)),
    );
    round_trip(
        Node::text("multibyte αΒΓ"),
        Node::text("multibyte αΔΓ"),
    );
}

#[test]
fn text_diff_positions_count_scalars_not_bytes() {
    let old = Node::text("αΒΓΔ");
    let new = Node::text("αΒΔ");
    match old.diff(&new) {
        Some(Patch::Text(tp)) => {
            assert_eq!(tp.position, 2);
            assert_eq!(tp.remove, 1);
            assert_eq!(tp.insert, Vec::<char>::new());
        }
        other => panic!("expected a text patch, got {:?}", other),
    }
}

#[test]
fn children_patch_applies_subpatches_then_truncate_then_append() {
    // destination has three children; patch the first, truncate to two,
    // then append a new trailing node: the fixed order of the three phases
    // is observable in the result
    let mut dst = Node::Children(vec![
        Node::text("aaa"),
        Node::text("bbb"),
        Node::text("ccc"),
    ]);
    let p = Patch::Children {
        patch: vec![(
            0,
            Patch::Text(TextPatch {
                position: 3,
                remove: 0,
                insert: "!".chars().collect(),
            }),
        )],
        truncate: Some(2),
        append: vec![Node::NewLine],
    };
    dst.patch(p).expect("patch applies");
    assert_eq!(
        dst,
        Node::Children(vec![Node::text("aaa!"), Node::text("bbb"), Node::NewLine])
    );
}

#[test]
fn out_of_bounds_child_index_fails_and_keeps_earlier_mutations() {
    let mut dst = Node::Children(vec![Node::text("a"), Node::text("b")]);
    let p = Patch::Children {
        patch: vec![
            (0, Patch::Replace(Node::text("mutated"))),
            (5, Patch::Replace(Node::Empty)),
        ],
        truncate: None,
        append: vec![Node::text("never appended")],
    };
    let err = dst.patch(p).expect_err("index 5 is out of bounds");
    assert_eq!(err, PatchError::OutOfBounds { index: 5, len: 2 });
    // the earlier index was already mutated, and no append happened
    assert_eq!(
        dst,
        Node::Children(vec![Node::text("mutated"), Node::text("b")])
    );
}

#[test]
fn text_patch_on_non_textual_node_is_a_type_mismatch() {
    let mut dst = Node::NewLine;
    let p = Patch::Text(TextPatch {
        position: 0,
        remove: 0,
        insert: "x".chars().collect(),
    });
    let err = dst.patch(p).expect_err("newline is not textual");
    assert_eq!(
        err,
        PatchError::TypeMismatch { node: NodeKind::NewLine, patch: PatchKind::Text }
    );
    // the destination is untouched
    assert_eq!(dst, Node::NewLine);
}

#[test]
fn wrapped_patch_on_leaf_is_a_type_mismatch() {
    let mut dst = Node::text("abc");
    let p = Patch::Wrapped(Box::new(Patch::Replace(Node::Empty)));
    let err = dst.patch(p).expect_err("text has no wrapped child");
    assert_eq!(
        err,
        PatchError::TypeMismatch { node: NodeKind::Text, patch: PatchKind::Wrapped }
    );
}

#[test]
fn replace_patch_always_succeeds() {
    let mut dst = Node::Pending(PendingNode::EightBall);
    dst.patch(Patch::Replace(Node::text("answered"))).unwrap();
    assert_eq!(dst, Node::text("answered"));
}

#[test]
fn children_patch_on_scalar_wraps_destination() {
    // a patch computed against a collapsed view still applies: the scalar
    // destination is wrapped into a singleton list first
    let mut dst = Node::text("a");
    let p = Patch::Children {
        patch: vec![],
        truncate: None,
        append: vec![Node::NewLine],
    };
    dst.patch(p).unwrap();
    assert_eq!(dst, Node::Children(vec![Node::text("a"), Node::NewLine]));
}

#[test]
fn text_patch_descends_into_singleton_children() {
    let mut dst = Node::Children(vec![Node::text("ab")]);
    let p = Patch::Text(TextPatch {
        position: 2,
        remove: 0,
        insert: "c".chars().collect(),
    });
    dst.patch(p).unwrap();
    assert_eq!(dst, Node::text("abc"));
}

#[test]
fn append_merges_adjacent_text_runs() {
    let mut n = Node::text("ab");
    n.append(Node::text("cd"));
    assert_eq!(n, Node::text("abcd"));

    let mut list = Node::Children(vec![Node::NewLine, Node::text("a")]);
    list.append(Node::text("b"));
    assert_eq!(list, Node::Children(vec![Node::NewLine, Node::text("ab")]));

    let mut lists = Node::Children(vec![Node::text("a")]);
    lists.append(Node::Children(vec![Node::text("b"), Node::NewLine]));
    assert_eq!(
        lists,
        Node::Children(vec![Node::text("ab"), Node::NewLine])
    );
}

#[test]
fn append_empty_is_a_no_op_and_empty_is_replaced() {
    let mut n = Node::text("a");
    n.append(Node::Empty);
    assert_eq!(n, Node::text("a"));

    let mut e = Node::Empty;
    e.append(Node::NewLine);
    assert_eq!(e, Node::NewLine);
}

#[test]
fn append_falls_back_to_wrapping_in_children() {
    let mut n = Node::NewLine;
    n.append(Node::text("x"));
    assert_eq!(n, Node::Children(vec![Node::NewLine, Node::text("x")]));
}

#[test]
fn add_str_and_push_char_merge_into_trailing_text() {
    let mut n = Node::text("ab");
    n.add_str("cd");
    n.push_char('e');
    assert_eq!(n, Node::text("abcde"));

    let mut list = Node::Children(vec![Node::NewLine]);
    list.add_str("x");
    assert_eq!(list, Node::Children(vec![Node::NewLine, Node::text("x")]));
}

#[test]
fn structural_equality_distinguishes_leaf_payloads() {
    let a = Node::Embed(Embed { provider: EmbedProvider::Imgur, data: String::from("d") });
    let b = Node::Embed(Embed { provider: EmbedProvider::Coub, data: String::from("d") });
    let p = a.diff(&b).expect("different providers differ");
    match p {
        Patch::Replace(n) => assert_eq!(n, b),
        other => panic!("expected wholesale replacement, got {:?}", other),
    }
}

#[test]
fn deep_nested_round_trip() {
    let old = Node::quote(Node::Children(vec![
        Node::text("line one"),
        Node::NewLine,
        Node::Bold(Box::new(Node::text("emphasis"))),
    ]));
    let new = Node::quote(Node::Children(vec![
        Node::text("line one edited"),
        Node::NewLine,
        Node::Bold(Box::new(Node::text("emphasis!"))),
        Node::URL(String::from("https://example.test")),
    ]));
    let p = old.diff(&new).expect("trees differ");
    let mut work = old.clone();
    work.patch(p).unwrap();
    assert_eq!(work, new);
}
