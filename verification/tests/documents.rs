//! Documents: ops, patch sets, commits, derived patches and rendering.
use polaris::{apply_fragment_edit, assemble, commit, render_html, undo, CharIndex, CharRange, CommitError, DocumentModel, EditError, NodeId, NodeKind, NodeSnapshot, Op, Patch, PatchError, PatchId, PatchSet, PatchSource, ProseModel, Target, TopoError};

#[test]
fn set_markdown_changes_text() {
    let mut m = ProseModel::new();
    m.insert("p1", "hello");
    let inv = m
        .apply_op(
            &Target::Node(NodeId("p1".to_string())),
            &Op::SetMarkdown { md: "world".to_string() },
        )
        .unwrap();
    assert_eq!(m.get_text(&NodeId("p1".to_string())), Some("world"));

    assert_eq!(inv, Op::SetMarkdown { md: "hello".to_string() });
}

#[test]
fn inverse_roundtrips() {
    let mut m = ProseModel::new();
    m.insert("p1", "original");
    let id = NodeId("p1".to_string());

    let inv = m
        .apply_op(&Target::Node(id.clone()), &Op::SetMarkdown { md: "edited".to_string() })
        .unwrap();
    assert_eq!(m.get_text(&id), Some("edited"));

    m.apply_op(&Target::Node(id.clone()), &inv).unwrap();
    assert_eq!(m.get_text(&id), Some("original"));
}

#[test]
fn unknown_target_errors() {
    let mut m = ProseModel::new();
    let r = m.apply_op(
        &Target::Node(NodeId("ghost".to_string())),
        &Op::SetMarkdown { md: "x".to_string() },
    );
    assert_eq!(r, Err(PatchError::UnknownTarget(NodeId("ghost".to_string()))));
}

#[test]
fn set_span_cjk_length_change_roundtrips() {
    let mut m = ProseModel::new();
    m.insert("p1", "你好世界");
    let id = NodeId("p1".to_string());

    let inv = m
        .apply_op(
            &Target::Node(id.clone()),
            &Op::SetSpan { range: CharRange::chars(1, 3), text: "啊".to_string() },
        )
        .unwrap();
    assert_eq!(m.get_text(&id), Some("你啊界"));

    assert_eq!(
        inv,
        Op::SetSpan { range: CharRange::chars(1, 2), text: "好世".to_string() }
    );

    m.apply_op(&Target::Node(id.clone()), &inv).unwrap();
    assert_eq!(m.get_text(&id), Some("你好世界"));
}

#[test]
fn set_span_emoji_does_not_panic() {
    let mut m = ProseModel::new();
    m.insert("p1", "a😀b");
    let id = NodeId("p1".to_string());

    let inv = m
        .apply_op(
            &Target::Node(id.clone()),
            &Op::SetSpan { range: CharRange::chars(1, 2), text: "🎉🎊".to_string() },
        )
        .unwrap();
    assert_eq!(m.get_text(&id), Some("a🎉🎊b"));

    m.apply_op(&Target::Node(id.clone()), &inv).unwrap();
    assert_eq!(m.get_text(&id), Some("a😀b"));
}

#[test]
fn set_span_insert_at_end() {
    let mut m = ProseModel::new();
    m.insert("p1", "你好");
    let id = NodeId("p1".to_string());

    let inv = m
        .apply_op(
            &Target::Node(id.clone()),
            &Op::SetSpan { range: CharRange::chars(2, 2), text: "世界".to_string() },
        )
        .unwrap();
    assert_eq!(m.get_text(&id), Some("你好世界"));

    assert_eq!(
        inv,
        Op::SetSpan { range: CharRange::chars(2, 4), text: String::new() }
    );

    m.apply_op(&Target::Node(id.clone()), &inv).unwrap();
    assert_eq!(m.get_text(&id), Some("你好"));
}

#[test]
fn set_span_out_of_bounds_errors() {
    let mut m = ProseModel::new();
    m.insert("p1", "hi");
    let id = NodeId("p1".to_string());

    let bad = CharRange::chars(1, 5);
    let r = m.apply_op(&Target::Node(id), &Op::SetSpan { range: bad, text: "x".to_string() });
    assert_eq!(r, Err(PatchError::RangeOutOfBounds(bad)));
}

fn nid(s: &str) -> NodeId {
    NodeId(s.to_string())
}
fn child_ids(m: &ProseModel, id: &NodeId) -> Vec<String> {
    m.children(id).unwrap().iter().map(|n| n.0.clone()).collect()
}

#[test]
fn insert_section_inverse_is_remove() {
    let mut m = ProseModel::new();
    let root = m.root().clone();

    let inv = m
        .apply_op(
            &Target::Node(root.clone()),
            &Op::InsertSection { parent: root.clone(), index: 0, id: nid("s1"), text: "S1".to_string() },
        )
        .unwrap();

    assert_eq!(m.get_text(&nid("s1")), Some("S1"));
    assert_eq!(child_ids(&m, &root), vec!["s1"]);

    assert_eq!(inv, Op::RemoveNode { id: nid("s1") });

    m.apply_op(&Target::Node(root.clone()), &inv).unwrap();
    assert_eq!(m.get_text(&nid("s1")), None);
    assert!(child_ids(&m, &root).is_empty());
}

#[test]
fn insert_section_keeps_order() {
    let mut m = ProseModel::new();
    let root = m.root().clone();
    let ins = |i: usize, id: &str| Op::InsertSection {
        parent: NodeId("root".to_string()),
        index: i,
        id: NodeId(id.to_string()),
        text: id.to_uppercase(),
    };

    m.apply_op(&Target::Node(root.clone()), &ins(0, "s1")).unwrap();
    m.apply_op(&Target::Node(root.clone()), &ins(1, "s3")).unwrap();
    m.apply_op(&Target::Node(root.clone()), &ins(1, "s2")).unwrap();

    assert_eq!(child_ids(&m, &root), vec!["s1", "s2", "s3"]);
}

#[test]
fn remove_node_restores_children_losslessly() {
    let mut m = ProseModel::new();
    let root = m.root().clone();

    m.apply_op(
        &Target::Node(root.clone()),
        &Op::InsertSection { parent: root.clone(), index: 0, id: nid("sec1"), text: "S1".to_string() },
    )
    .unwrap();
    m.apply_op(
        &Target::Node(nid("sec1")),
        &Op::InsertSection { parent: nid("sec1"), index: 0, id: nid("a"), text: "A".to_string() },
    )
    .unwrap();
    m.apply_op(
        &Target::Node(nid("sec1")),
        &Op::InsertSection { parent: nid("sec1"), index: 1, id: nid("b"), text: "B".to_string() },
    )
    .unwrap();
    assert_eq!(child_ids(&m, &nid("sec1")), vec!["a", "b"]);

    let inv = m
        .apply_op(&Target::Node(nid("sec1")), &Op::RemoveNode { id: nid("sec1") })
        .unwrap();
    let expected = Op::CreateNode {
        parent: root.clone(),
        index: 0,
        snapshot: NodeSnapshot {
            id: nid("sec1"),
            kind: NodeKind::Paragraph,
            text: "S1".to_string(),
            children: vec![
                NodeSnapshot { id: nid("a"), kind: NodeKind::Paragraph, text: "A".to_string(), children: vec![] },
                NodeSnapshot { id: nid("b"), kind: NodeKind::Paragraph, text: "B".to_string(), children: vec![] },
            ],
        },
    };
    assert_eq!(inv, expected);

    assert_eq!(m.get_text(&nid("sec1")), None);
    assert_eq!(m.get_text(&nid("a")), None);
    assert_eq!(m.get_text(&nid("b")), None);
    assert!(child_ids(&m, &root).is_empty());

    m.apply_op(&Target::Node(root.clone()), &inv).unwrap();
    assert_eq!(m.get_text(&nid("sec1")), Some("S1"));
    assert_eq!(m.get_text(&nid("a")), Some("A"));
    assert_eq!(m.get_text(&nid("b")), Some("B"));
    assert_eq!(child_ids(&m, &root), vec!["sec1"]);
    assert_eq!(child_ids(&m, &nid("sec1")), vec!["a", "b"]);
}

#[test]
fn structural_errors_do_not_panic() {
    let mut m = ProseModel::new();
    let root = m.root().clone();

    assert_eq!(
        m.apply_op(&Target::Node(root.clone()), &Op::RemoveNode { id: root.clone() }),
        Err(PatchError::NotRemovable(root.clone()))
    );

    assert_eq!(
        m.apply_op(&Target::Node(nid("ghost")), &Op::RemoveNode { id: nid("ghost") }),
        Err(PatchError::UnknownTarget(nid("ghost")))
    );

    assert_eq!(
        m.apply_op(
            &Target::Node(nid("ghost")),
            &Op::InsertSection { parent: nid("ghost"), index: 0, id: nid("x"), text: String::new() }
        ),
        Err(PatchError::UnknownTarget(nid("ghost")))
    );

    assert_eq!(
        m.apply_op(
            &Target::Node(root.clone()),
            &Op::InsertSection { parent: root.clone(), index: 5, id: nid("x"), text: String::new() }
        ),
        Err(PatchError::IndexOutOfBounds { parent: root.clone(), index: 5, len: 0 })
    );
}

#[test]
fn insert_duplicate_id_errors() {
    let mut m = ProseModel::new();
    let root = m.root().clone();
    m.apply_op(
        &Target::Node(root.clone()),
        &Op::InsertSection { parent: root.clone(), index: 0, id: nid("dup"), text: String::new() },
    )
    .unwrap();
    assert_eq!(
        m.apply_op(
            &Target::Node(root.clone()),
            &Op::InsertSection { parent: root.clone(), index: 0, id: nid("dup"), text: String::new() }
        ),
        Err(PatchError::DuplicateNode(nid("dup")))
    );
}

fn patch(id: &str, deps: &[&str]) -> Patch {
    Patch::authored(id, Target::Node(nid("n")), Op::SetMarkdown { md: String::new() }).with_deps(deps)
}
fn ids(order: &[&Patch]) -> Vec<String> {
    order.iter().map(|q| q.id.0.clone()).collect()
}

#[test]
fn topo_orders_dependency_chain() {
    let set = PatchSet::new(vec![patch("c", &["b"]), patch("a", &[]), patch("b", &["a"])]);
    assert_eq!(ids(&set.topo_order().unwrap()), vec!["a", "b", "c"]);
}

#[test]
fn topo_preserves_order_without_deps() {
    let set = PatchSet::new(vec![patch("x", &[]), patch("y", &[]), patch("z", &[])]);
    assert_eq!(ids(&set.topo_order().unwrap()), vec!["x", "y", "z"]);
}

#[test]
fn topo_moves_dependent_after_dependency() {
    let set = PatchSet::new(vec![patch("d", &["a"]), patch("a", &[])]);
    assert_eq!(ids(&set.topo_order().unwrap()), vec!["a", "d"]);
}

#[test]
fn topo_is_stable_with_partial_deps() {
    let set = PatchSet::new(vec![patch("a", &[]), patch("b", &[]), patch("c", &[]), patch("d", &["b"])]);
    assert_eq!(ids(&set.topo_order().unwrap()), vec!["a", "b", "c", "d"]);
}

#[test]
fn topo_detects_cycle() {
    let set = PatchSet::new(vec![patch("a", &["b"]), patch("b", &["a"])]);
    assert_eq!(
        set.topo_order().unwrap_err(),
        TopoError::Cycle(vec![PatchId("a".to_string()), PatchId("b".to_string())])
    );
}

#[test]
fn topo_rejects_dangling_dependency() {
    let set = PatchSet::new(vec![patch("a", &["ghost"])]);
    assert_eq!(
        set.topo_order().unwrap_err(),
        TopoError::DanglingDependency {
            patch: PatchId("a".to_string()),
            missing: PatchId("ghost".to_string()),
        }
    );
}

#[test]
fn topo_rejects_duplicate_id() {
    let set = PatchSet::new(vec![patch("a", &[]), patch("a", &[])]);
    assert_eq!(set.topo_order().unwrap_err(), TopoError::DuplicateId(PatchId("a".to_string())));
}

fn model_with_toc() -> ProseModel {
    let mut m = ProseModel::new();
    m.insert("h1", "");
    m.insert("toc", "");
    m.set_toc("toc");
    m
}

#[test]
fn derive_does_not_mutate_model() {
    let mut m = model_with_toc();

    m.apply_op(&Target::Node(nid("h1")), &Op::SetKind { kind: NodeKind::Heading { level: 1 } }).unwrap();
    m.apply_op(&Target::Node(nid("h1")), &Op::SetMarkdown { md: "A".to_string() }).unwrap();

    let authored =
        vec![Patch::authored("p1", Target::Node(nid("h1")), Op::SetMarkdown { md: "A".to_string() })];
    let before = m.rev();
    let _ = m.derive(&authored);

    assert_eq!(m.rev(), before);
}

#[test]
fn derive_reads_post_apply_state_and_links_deps() {
    let mut m = model_with_toc();

    m.apply_op(&Target::Node(nid("h1")), &Op::SetKind { kind: NodeKind::Heading { level: 1 } }).unwrap();
    let authored = vec![Patch::authored(
        "p1",
        Target::Node(nid("h1")),
        Op::SetMarkdown { md: "New Section".to_string() },
    )];

    m.apply_op(&authored[0].target, &authored[0].op).unwrap();

    let derived = m.derive(&authored);
    assert_eq!(derived.len(), 1);

    match &derived[0].op {
        Op::SetMarkdown { md } => assert_eq!(md.as_str(), "- New Section"),
        other => panic!("unexpected derived op: {other:?}"),
    }

    assert_eq!(derived[0].depends_on, vec![PatchId("p1".to_string())]);

    match &derived[0].source {
        PatchSource::Derived { from } => assert_eq!(from, &PatchId("p1".to_string())),
        other => panic!("expected Derived, got {other:?}"),
    }
}

#[test]
fn derive_links_all_changed_headings_in_order() {
    let mut m = ProseModel::new();
    m.insert("h1", "");
    m.insert("h2", "");
    m.insert("toc", "");
    m.set_toc("toc");
    m.apply_op(&Target::Node(nid("h1")), &Op::SetKind { kind: NodeKind::Heading { level: 1 } }).unwrap();
    m.apply_op(&Target::Node(nid("h2")), &Op::SetKind { kind: NodeKind::Heading { level: 1 } }).unwrap();

    let authored = vec![
        Patch::authored("p1", Target::Node(nid("h1")), Op::SetMarkdown { md: "One".to_string() }),
        Patch::authored("p2", Target::Node(nid("h2")), Op::SetMarkdown { md: "Two".to_string() }),
    ];
    for p in &authored {
        m.apply_op(&p.target, &p.op).unwrap();
    }
    let derived = m.derive(&authored);
    assert_eq!(derived.len(), 1);

    match &derived[0].op {
        Op::SetMarkdown { md } => assert_eq!(md.as_str(), "- One\n- Two"),
        other => panic!("unexpected: {other:?}"),
    }

    assert_eq!(derived[0].depends_on, vec![PatchId("p1".to_string()), PatchId("p2".to_string())]);
}

#[test]
fn assemble_applies_authored_then_derives_in_topo_order() {
    let mut m = model_with_toc();

    m.apply_op(&Target::Node(nid("h1")), &Op::SetKind { kind: NodeKind::Heading { level: 1 } }).unwrap();
    let authored = vec![Patch::authored(
        "p_h1",
        Target::Node(nid("h1")),
        Op::SetMarkdown { md: "Intro".to_string() },
    )];

    let set = assemble(&mut m, authored).unwrap();

    assert_eq!(m.get_text(&nid("h1")), Some("Intro"));

    assert_eq!(set.patches.len(), 2);
    assert_eq!(set.patches[0].id, PatchId("p_h1".to_string()));
    let toc = &set.patches[1];
    assert_eq!(toc.target, Target::Node(nid("toc")));
    assert_eq!(toc.depends_on, vec![PatchId("p_h1".to_string())]);
    match &toc.op {
        Op::SetMarkdown { md } => assert_eq!(md.as_str(), "- Intro"),
        other => panic!("unexpected: {other:?}"),
    }
}

#[test]
fn derive_empty_without_toc_or_heading_change() {
    let mut m = ProseModel::new();
    m.insert("h1", "A");
    m.apply_op(&Target::Node(nid("h1")), &Op::SetKind { kind: NodeKind::Heading { level: 1 } }).unwrap();
    let authored =
        vec![Patch::authored("p1", Target::Node(nid("h1")), Op::SetMarkdown { md: "A".to_string() })];
    assert!(m.derive(&authored).is_empty());

    let mut m2 = model_with_toc();
    m2.apply_op(&Target::Node(nid("h1")), &Op::SetKind { kind: NodeKind::Heading { level: 1 } }).unwrap();
    m2.insert("para", "plain");
    let authored2 = vec![Patch::authored(
        "p2",
        Target::Node(nid("para")),
        Op::SetMarkdown { md: "still plain".to_string() },
    )];
    m2.apply_op(&authored2[0].target, &authored2[0].op).unwrap();
    assert!(m2.derive(&authored2).is_empty());
}

#[test]
fn commit_applies_all_atomically() {
    let mut m = ProseModel::new();
    m.insert("a", "A0");
    m.insert("b", "B0");

    let set = PatchSet::new(vec![
        Patch::authored("p1", Target::Node(nid("a")), Op::SetMarkdown { md: "A1".to_string() }),
        Patch::authored("p2", Target::Node(nid("b")), Op::SetMarkdown { md: "B1".to_string() })
            .with_deps(&["p1"]),
    ]);
    let inverse = commit(&mut m, &set).unwrap();

    assert_eq!(m.get_text(&nid("a")), Some("A1"));
    assert_eq!(m.get_text(&nid("b")), Some("B1"));

    assert_eq!(inverse.patches.len(), 2);
    assert_eq!(inverse.patches[0].target, Target::Node(nid("b")));
    assert_eq!(inverse.patches[1].target, Target::Node(nid("a")));
    match &inverse.patches[0].op {
        Op::SetMarkdown { md } => assert_eq!(md.as_str(), "B0"),
        other => panic!("unexpected: {other:?}"),
    }
    match &inverse.patches[1].op {
        Op::SetMarkdown { md } => assert_eq!(md.as_str(), "A0"),
        other => panic!("unexpected: {other:?}"),
    }
}

#[test]
fn commit_rolls_back_on_mid_failure() {
    let mut m = ProseModel::new();
    m.insert("a", "A0");

    let set = PatchSet::new(vec![
        Patch::authored("p1", Target::Node(nid("a")), Op::SetMarkdown { md: "A1".to_string() }),
        Patch::authored("p2", Target::Node(nid("ghost")), Op::SetMarkdown { md: "X".to_string() })
            .with_deps(&["p1"]),
    ]);
    let err = commit(&mut m, &set).unwrap_err();

    assert_eq!(m.get_text(&nid("a")), Some("A0"));
    assert_eq!(
        err,
        CommitError::Aborted {
            patch: PatchId("p2".to_string()),
            cause: PatchError::UnknownTarget(nid("ghost")),
        }
    );
}

#[test]
fn undo_restores_whole_group() {
    let mut m = ProseModel::new();
    m.insert("a", "A0");
    m.insert("b", "B0");

    let set = PatchSet::new(vec![
        Patch::authored("p1", Target::Node(nid("a")), Op::SetMarkdown { md: "A1".to_string() }),
        Patch::authored("p2", Target::Node(nid("b")), Op::SetMarkdown { md: "B1".to_string() })
            .with_deps(&["p1"]),
    ]);
    let inverse = commit(&mut m, &set).unwrap();
    assert_eq!(m.get_text(&nid("a")), Some("A1"));
    assert_eq!(m.get_text(&nid("b")), Some("B1"));

    undo(&mut m, &inverse).unwrap();

    assert_eq!(m.get_text(&nid("a")), Some("A0"));
    assert_eq!(m.get_text(&nid("b")), Some("B0"));
}

#[test]
fn commit_aborts_on_cycle_without_touching_model() {
    let mut m = ProseModel::new();
    m.insert("a", "A0");
    let set = PatchSet::new(vec![
        Patch::authored("p1", Target::Node(nid("a")), Op::SetMarkdown { md: "X".to_string() })
            .with_deps(&["p2"]),
        Patch::authored("p2", Target::Node(nid("a")), Op::SetMarkdown { md: "Y".to_string() })
            .with_deps(&["p1"]),
    ]);
    let err = commit(&mut m, &set).unwrap_err();
    assert!(matches!(err, CommitError::Topo(TopoError::Cycle(_))));

    assert_eq!(m.get_text(&nid("a")), Some("A0"));
    assert_eq!(m.rev(), 0);
}

#[test]
fn commit_and_undo_structural_op() {
    let mut m = ProseModel::new();
    let root = m.root().clone();
    let set = PatchSet::new(vec![Patch::authored(
        "p1",
        Target::Node(root.clone()),
        Op::InsertSection { parent: root.clone(), index: 0, id: nid("s1"), text: "S1".to_string() },
    )]);
    let inverse = commit(&mut m, &set).unwrap();
    assert_eq!(m.get_text(&nid("s1")), Some("S1"));
    assert_eq!(child_ids(&m, &root), vec!["s1"]);

    undo(&mut m, &inverse).unwrap();

    assert_eq!(m.get_text(&nid("s1")), None);
    assert!(child_ids(&m, &root).is_empty());
}

fn slice_chars(text: &str, range: CharRange) -> String {
    let (b0, b1) = CharIndex::byte_range(text, &range).unwrap();
    text[b0..b1].to_string()
}

#[test]
fn renders_heading_and_paragraph_with_sourcemap() {
    let mut m = ProseModel::new();
    let root = m.root().clone();
    m.apply_op(
        &Target::Node(root.clone()),
        &Op::InsertSection { parent: root.clone(), index: 0, id: nid("h"), text: "Title".to_string() },
    )
    .unwrap();
    m.apply_op(&Target::Node(nid("h")), &Op::SetKind { kind: NodeKind::Heading { level: 1 } }).unwrap();
    m.apply_op(
        &Target::Node(root.clone()),
        &Op::InsertSection { parent: root.clone(), index: 1, id: nid("p"), text: "Hello".to_string() },
    )
    .unwrap();

    let r = render_html(&m);
    assert_eq!(r.html, "<h1 data-node=\"h\">Title</h1><p data-node=\"p\">Hello</p>");

    assert_eq!(r.source_map.spans.len(), 2);
    let sh = r.source_map.span_for(&nid("h")).unwrap();
    assert_eq!(sh.range, CharRange::chars(0, 5));
    let sp = r.source_map.span_for(&nid("p")).unwrap();
    assert_eq!(sp.range, CharRange::chars(0, 5));
}

#[test]
fn cjk_node_range_is_correct_and_reverse_maps() {
    let mut m = ProseModel::new();
    let root = m.root().clone();
    m.apply_op(
        &Target::Node(root.clone()),
        &Op::InsertSection { parent: root.clone(), index: 0, id: nid("h"), text: "标题".to_string() },
    )
    .unwrap();
    m.apply_op(&Target::Node(nid("h")), &Op::SetKind { kind: NodeKind::Heading { level: 1 } }).unwrap();
    m.apply_op(
        &Target::Node(root.clone()),
        &Op::InsertSection { parent: root.clone(), index: 1, id: nid("p"), text: "你好世界".to_string() },
    )
    .unwrap();

    let r = render_html(&m);
    assert_eq!(r.html, "<h1 data-node=\"h\">标题</h1><p data-node=\"p\">你好世界</p>");

    let sh = r.source_map.span_for(&nid("h")).unwrap();
    assert_eq!(sh.range, CharRange::chars(0, 2));
    assert_eq!(slice_chars(m.get_text(&nid("h")).unwrap(), sh.range), "标题");
    let sp = r.source_map.span_for(&nid("p")).unwrap();
    assert_eq!(sp.range, CharRange::chars(0, 4));
    assert_eq!(slice_chars(m.get_text(&nid("p")).unwrap(), sp.range), "你好世界");
}

#[test]
fn renders_nested_in_document_order_and_escapes() {
    let mut m = ProseModel::new();
    let root = m.root().clone();
    m.apply_op(
        &Target::Node(root.clone()),
        &Op::InsertSection { parent: root.clone(), index: 0, id: nid("sec"), text: "Sec".to_string() },
    )
    .unwrap();
    m.apply_op(&Target::Node(nid("sec")), &Op::SetKind { kind: NodeKind::Heading { level: 2 } }).unwrap();
    m.apply_op(
        &Target::Node(nid("sec")),
        &Op::InsertSection { parent: nid("sec"), index: 0, id: nid("kid"), text: "a < b & c".to_string() },
    )
    .unwrap();

    let r = render_html(&m);

    assert_eq!(r.html, "<h2 data-node=\"sec\">Sec</h2><p data-node=\"kid\">a &lt; b &amp; c</p>");
    assert_eq!(r.source_map.spans.len(), 2);
    assert_eq!(r.source_map.spans[0].node, nid("sec"));
    assert_eq!(r.source_map.spans[1].node, nid("kid"));

    assert_eq!(r.source_map.spans[1].range, CharRange::chars(0, 9));
    assert_eq!(slice_chars(m.get_text(&nid("kid")).unwrap(), r.source_map.spans[1].range), "a < b & c");
}

#[test]
fn hash_in_text_is_literal_not_a_heading() {
    let mut m = ProseModel::new();
    let root = m.root().clone();
    m.apply_op(
        &Target::Node(root.clone()),
        &Op::InsertSection { parent: root.clone(), index: 0, id: nid("p"), text: "# not a heading".to_string() },
    )
    .unwrap();
    let r = render_html(&m);
    assert_eq!(r.html, "<p data-node=\"p\"># not a heading</p>");
}

#[test]
fn set_kind_changes_and_inverse_roundtrips() {
    let mut m = ProseModel::new();
    m.insert("p1", "Intro");
    let id = nid("p1");
    assert_eq!(m.node_kind(&id), Some(NodeKind::Paragraph));

    let inv = m
        .apply_op(&Target::Node(id.clone()), &Op::SetKind { kind: NodeKind::Heading { level: 2 } })
        .unwrap();
    assert_eq!(m.node_kind(&id), Some(NodeKind::Heading { level: 2 }));
    assert_eq!(inv, Op::SetKind { kind: NodeKind::Paragraph });

    m.apply_op(&Target::Node(id.clone()), &inv).unwrap();
    assert_eq!(m.node_kind(&id), Some(NodeKind::Paragraph));
}

#[test]
fn remove_restore_preserves_kind() {
    let mut m = ProseModel::new();
    let root = m.root().clone();
    m.apply_op(
        &Target::Node(root.clone()),
        &Op::InsertSection { parent: root.clone(), index: 0, id: nid("h"), text: "Title".to_string() },
    )
    .unwrap();
    m.apply_op(&Target::Node(nid("h")), &Op::SetKind { kind: NodeKind::Heading { level: 1 } }).unwrap();
    assert_eq!(m.node_kind(&nid("h")), Some(NodeKind::Heading { level: 1 }));

    let inv = m.apply_op(&Target::Node(nid("h")), &Op::RemoveNode { id: nid("h") }).unwrap();
    assert_eq!(m.node_kind(&nid("h")), None);
    m.apply_op(&Target::Node(root.clone()), &inv).unwrap();
    assert_eq!(m.node_kind(&nid("h")), Some(NodeKind::Heading { level: 1 }));
}

#[test]
fn edit_writeback_roundtrip_and_undo() {
    let mut m = ProseModel::new();
    let root = m.root().clone();
    m.apply_op(
        &Target::Node(root.clone()),
        &Op::InsertSection { parent: root.clone(), index: 0, id: nid("p1"), text: "Hello".to_string() },
    )
    .unwrap();
    let r = render_html(&m);
    assert_eq!(r.html, "<p data-node=\"p1\">Hello</p>");

    let inv = apply_fragment_edit(&mut m, &r.source_map, &nid("p1"), "World!").unwrap();
    assert_eq!(m.get_text(&nid("p1")), Some("World!"));

    assert_eq!(render_html(&m).html, "<p data-node=\"p1\">World!</p>");

    undo(&mut m, &inv).unwrap();
    assert_eq!(m.get_text(&nid("p1")), Some("Hello"));
}

#[test]
fn edit_writeback_cjk_heading_keeps_kind() {
    let mut m = ProseModel::new();
    let root = m.root().clone();
    m.apply_op(
        &Target::Node(root.clone()),
        &Op::InsertSection { parent: root.clone(), index: 0, id: nid("h"), text: "标题".to_string() },
    )
    .unwrap();
    m.apply_op(&Target::Node(nid("h")), &Op::SetKind { kind: NodeKind::Heading { level: 1 } }).unwrap();
    let r = render_html(&m);

    apply_fragment_edit(&mut m, &r.source_map, &nid("h"), "新标题啊").unwrap();
    assert_eq!(m.get_text(&nid("h")), Some("新标题啊"));
    assert_eq!(m.node_kind(&nid("h")), Some(NodeKind::Heading { level: 1 }));
    assert_eq!(render_html(&m).html, "<h1 data-node=\"h\">新标题啊</h1>");
}

#[test]
fn edit_writeback_unknown_node_errors() {
    let mut m = ProseModel::new();
    let r = render_html(&m);
    assert_eq!(
        apply_fragment_edit(&mut m, &r.source_map, &nid("ghost"), "x").unwrap_err(),
        EditError::NoSpan(nid("ghost"))
    );
}

#[test]
fn set_kind_opaque_roundtrips() {
    let mut m = ProseModel::new();
    m.insert("o", "表格描述");
    let inv = m.apply_op(&Target::Node(nid("o")), &Op::SetKind { kind: NodeKind::Opaque }).unwrap();
    assert_eq!(m.node_kind(&nid("o")), Some(NodeKind::Opaque));

    assert_eq!(inv, Op::SetKind { kind: NodeKind::Paragraph });
    m.apply_op(&Target::Node(nid("o")), &inv).unwrap();
    assert_eq!(m.node_kind(&nid("o")), Some(NodeKind::Paragraph));
}

#[test]
fn opaque_renders_visible_but_not_editable() {
    let mut m = ProseModel::new();
    m.insert("p1", "正文");
    m.insert("o1", "[Table: 1 rows]");
    m.apply_op(&Target::Node(nid("o1")), &Op::SetKind { kind: NodeKind::Opaque }).unwrap();

    let r = render_html(&m);

    assert_eq!(
        r.html,
        "<p data-node=\"p1\">正文</p><pre data-node=\"o1\">[Table: 1 rows]</pre>"
    );

    assert!(r.source_map.span_for(&nid("p1")).is_some());
    assert!(r.source_map.span_for(&nid("o1")).is_none());
    assert_eq!(
        apply_fragment_edit(&mut m, &r.source_map, &nid("o1"), "妄图改它").unwrap_err(),
        EditError::NoSpan(nid("o1"))
    );

    assert_eq!(m.get_text(&nid("o1")), Some("[Table: 1 rows]"));
}

#[test]
fn unreviewed_ai_patch_is_rejected_atomically() {
    let mut m = ProseModel::new();
    m.insert("p1", "原文");
    let set = PatchSet::new(vec![Patch::ai(
        "ai1",
        Target::Node(nid("p1")),
        Op::SetMarkdown { md: "AI 改写".to_string() },
    )]);

    assert_eq!(commit(&mut m, &set).unwrap_err(), CommitError::UnreviewedAi(PatchId("ai1".to_string())));
    assert_eq!(m.get_text(&nid("p1")), Some("原文"));

    let human = PatchSet::new(vec![Patch::authored(
        "h1",
        Target::Node(nid("p1")),
        Op::SetMarkdown { md: "人改的".to_string() },
    )]);
    assert!(commit(&mut m, &human).is_ok());
    assert_eq!(m.get_text(&nid("p1")), Some("人改的"));
}

#[test]
fn approved_ai_patch_commits_and_undo_restores() {
    let mut m = ProseModel::new();
    m.insert("p1", "原文");
    let set = PatchSet::new(vec![Patch::ai(
        "ai1",
        Target::Node(nid("p1")),
        Op::SetMarkdown { md: "AI 改写".to_string() },
    )])
    .approve_ai();
    let inverse = commit(&mut m, &set).unwrap();
    assert_eq!(m.get_text(&nid("p1")), Some("AI 改写"));

    undo(&mut m, &inverse).unwrap();
    assert_eq!(m.get_text(&nid("p1")), Some("原文"));
}

#[test]
fn mixed_set_with_unreviewed_ai_rejects_whole_group() {
    let mut m = ProseModel::new();
    m.insert("p1", "甲");
    m.insert("p2", "乙");
    let set = PatchSet::new(vec![
        Patch::authored("h1", Target::Node(nid("p1")), Op::SetMarkdown { md: "人改".to_string() }),
        Patch::ai("ai1", Target::Node(nid("p2")), Op::SetMarkdown { md: "AI改".to_string() }),
    ]);

    assert!(matches!(commit(&mut m, &set), Err(CommitError::UnreviewedAi(_))));
    assert_eq!(m.get_text(&nid("p1")), Some("甲"));
    assert_eq!(m.get_text(&nid("p2")), Some("乙"));
}

#[test]
fn remove_restore_preserves_opaque_kind() {
    let mut m = ProseModel::new();
    let root = m.root().clone();
    m.apply_op(
        &Target::Node(root.clone()),
        &Op::InsertSection { parent: root.clone(), index: 0, id: nid("o"), text: "图片占位".to_string() },
    )
    .unwrap();
    m.apply_op(&Target::Node(nid("o")), &Op::SetKind { kind: NodeKind::Opaque }).unwrap();

    let inv = m.apply_op(&Target::Node(nid("o")), &Op::RemoveNode { id: nid("o") }).unwrap();
    assert_eq!(m.node_kind(&nid("o")), None);
    m.apply_op(&Target::Node(root), &inv).unwrap();
    assert_eq!(m.node_kind(&nid("o")), Some(NodeKind::Opaque));
    assert_eq!(m.get_text(&nid("o")), Some("图片占位"));
}
