//! What holds of every document: inverses, undo, rollback, order of patches, errors and their text.
use polaris::{
    apply_fragment_edit, assemble, commit, document_blocks, render_html, undo, AssembleError,
    CharRange, CommitError, DocumentModel, EditError, NodeId, NodeKind, NodeSnapshot, Op, Patch,
    PatchError, PatchId, PatchSet, PatchSource, ProseModel, Target, TopoError,
};

fn node(id: &str) -> NodeId {
    NodeId(id.to_string())
}

fn at(id: &str) -> Target {
    Target::Node(node(id))
}

fn write(id: &str, target: &str, text: &str) -> Patch {
    Patch::authored(id, at(target), Op::SetMarkdown { md: text.to_string() })
}

/// root -> a ("alpha", heading), b ("beta") -> c ("gamma")
fn small_tree() -> ProseModel {
    let mut m = ProseModel::new();
    m.insert("a", "alpha");
    m.insert("b", "beta");
    m.apply_op(&at("a"), &Op::SetKind { kind: NodeKind::Heading { level: 2 } }).unwrap();
    let under_b = Op::InsertSection {
        parent: node("b"),
        index: 0,
        id: node("c"),
        text: "gamma".to_string(),
    };
    m.apply_op(&at("b"), &under_b).unwrap();
    m
}

/// Everything that is visible of a document.
fn picture(m: &ProseModel) -> (String, Vec<Vec<NodeId>>) {
    let mut lists = Vec::new();
    for id in ["root", "a", "b", "c", "n"] {
        lists.push(m.children(&node(id)).map(|c| c.to_vec()).unwrap_or_default());
    }
    (render_html(m).html, lists)
}

#[test]
fn every_op_is_undone_by_its_inverse() {
    let ops = vec![
        (at("a"), Op::SetMarkdown { md: "other".to_string() }),
        (at("a"), Op::SetSpan { range: CharRange::chars(1, 3), text: "语言".to_string() }),
        (at("a"), Op::SetKind { kind: NodeKind::Opaque }),
        (
            at("b"),
            Op::InsertSection { parent: node("b"), index: 1, id: node("n"), text: "new".to_string() },
        ),
        (at("b"), Op::RemoveNode { id: node("b") }),
        (
            at("root"),
            Op::CreateNode {
                parent: node("root"),
                index: 1,
                snapshot: NodeSnapshot {
                    id: node("n"),
                    kind: NodeKind::Opaque,
                    text: "block".to_string(),
                    children: vec![],
                },
            },
        ),
    ];
    for (target, op) in ops {
        let mut m = small_tree();
        let before = picture(&m);
        let rev = m.rev();
        let inverse = m.apply_op(&target, &op).unwrap();
        assert_ne!(picture(&m), before);
        assert_eq!(m.rev(), rev + 1);
        m.apply_op(&target, &inverse).unwrap();
        assert_eq!(picture(&m), before);
        assert_eq!(m.rev(), rev + 2);
    }
}

#[test]
fn failed_ops_change_nothing_and_say_why() {
    let cases = vec![
        (at("x"), Op::SetMarkdown { md: String::new() }, PatchError::UnknownTarget(node("x"))),
        (at("x"), Op::SetKind { kind: NodeKind::Opaque }, PatchError::UnknownTarget(node("x"))),
        (
            at("a"),
            Op::SetSpan { range: CharRange::chars(3, 2), text: String::new() },
            PatchError::RangeOutOfBounds(CharRange::chars(3, 2)),
        ),
        (
            at("a"),
            Op::SetSpan { range: CharRange::chars(0, 6), text: String::new() },
            PatchError::RangeOutOfBounds(CharRange::chars(0, 6)),
        ),
        (
            at("b"),
            Op::InsertSection { parent: node("b"), index: 0, id: node("a"), text: String::new() },
            PatchError::DuplicateNode(node("a")),
        ),
        (
            at("b"),
            Op::InsertSection { parent: node("b"), index: 5, id: node("n"), text: String::new() },
            PatchError::IndexOutOfBounds { parent: node("b"), index: 5, len: 1 },
        ),
        (
            at("x"),
            Op::InsertSection { parent: node("x"), index: 0, id: node("n"), text: String::new() },
            PatchError::UnknownTarget(node("x")),
        ),
        (at("root"), Op::RemoveNode { id: node("root") }, PatchError::NotRemovable(node("root"))),
        (at("x"), Op::RemoveNode { id: node("x") }, PatchError::UnknownTarget(node("x"))),
    ];
    for (target, op, error) in cases {
        let mut m = small_tree();
        let before = picture(&m);
        let rev = m.rev();
        assert_eq!(m.apply_op(&target, &op), Err(error));
        assert_eq!(picture(&m), before);
        assert_eq!(m.rev(), rev);
    }
}

#[test]
fn undo_gives_back_the_content_from_before_the_commit() {
    let mut m = small_tree();
    let before = picture(&m);
    let set = PatchSet::new(vec![
        write("1", "a", "one"),
        Patch::authored("2", at("b"), Op::RemoveNode { id: node("b") }),
        Patch::authored(
            "3",
            at("a"),
            Op::InsertSection { parent: node("a"), index: 0, id: node("n"), text: "n".to_string() },
        ),
        write("4", "n", "nn"),
    ]);
    let inverse = commit(&mut m, &set).unwrap();
    assert_eq!(inverse.patches.len(), 4);
    let order: Vec<&str> = inverse.patches.iter().map(|p| p.target_id()).collect();
    assert_eq!(order, ["n", "a", "b", "a"]);
    assert_ne!(picture(&m), before);
    undo(&mut m, &inverse).unwrap();
    assert_eq!(picture(&m), before);
}

trait TargetId {
    fn target_id(&self) -> &str;
}

impl TargetId for Patch {
    fn target_id(&self) -> &str {
        match &self.target {
            Target::Node(id) => id.0.as_str(),
        }
    }
}

#[test]
fn failed_commit_leaves_the_content_and_reports_the_patch() {
    let mut m = small_tree();
    let before = picture(&m);
    let set = PatchSet::new(vec![
        write("1", "a", "one"),
        Patch::authored("2", at("b"), Op::RemoveNode { id: node("b") }),
        write("3", "c", "gone with its parent"),
    ]);
    let error = commit(&mut m, &set).unwrap_err();
    assert_eq!(
        error,
        CommitError::Aborted {
            patch: PatchId("3".to_string()),
            cause: PatchError::UnknownTarget(node("c")),
        }
    );
    assert_eq!(picture(&m), before);
}

#[test]
fn unordered_sets_are_refused_before_anything_runs() {
    let id = |s: &str| PatchId(s.to_string());
    let cycle = PatchSet::new(vec![
        write("1", "a", "x").with_deps(&["2"]),
        write("2", "a", "y").with_deps(&["1"]),
    ]);
    let dangling = PatchSet::new(vec![write("1", "a", "x").with_deps(&["9"])]);
    let twice = PatchSet::new(vec![write("1", "a", "x"), write("1", "b", "y")]);
    let cases = vec![
        (cycle, TopoError::Cycle(vec![id("1"), id("2")])),
        (dangling, TopoError::DanglingDependency { patch: id("1"), missing: id("9") }),
        (twice, TopoError::DuplicateId(id("1"))),
    ];
    for (set, error) in cases {
        let mut m = small_tree();
        let rev = m.rev();
        assert_eq!(commit(&mut m, &set).unwrap_err(), CommitError::Topo(error));
        assert_eq!(m.rev(), rev);
    }
}

#[test]
fn review_gate_stands_before_the_order_check() {
    let unreviewed = Patch::ai("1", at("a"), Op::SetMarkdown { md: "x".to_string() })
        .with_deps(&["missing"]);
    let mut m = small_tree();
    assert_eq!(
        commit(&mut m, &PatchSet::new(vec![unreviewed])).unwrap_err(),
        CommitError::UnreviewedAi(PatchId("1".to_string()))
    );
    let approved =
        PatchSet::new(vec![Patch::ai("1", at("a"), Op::SetMarkdown { md: "x".to_string() })])
            .approve_ai();
    assert_eq!(approved.patches[0].source, PatchSource::Ai { reviewed: true });
    assert!(commit(&mut m, &approved).is_ok());
    assert_eq!(m.get_text(&node("a")), Some("x"));
}

#[test]
fn dependencies_come_first_and_ties_keep_their_order() {
    let set = PatchSet::new(vec![
        write("d", "a", "").with_deps(&["b", "c"]),
        write("c", "a", ""),
        write("b", "a", "").with_deps(&["a"]),
        write("a", "a", ""),
    ]);
    let order: Vec<&str> =
        set.topo_order().unwrap().iter().map(|p| p.id.0.as_str()).collect();
    assert_eq!(order, ["c", "a", "b", "d"]);
}

#[test]
fn assembling_reports_both_kinds_of_failure() {
    let mut m = small_tree();
    let unknown = assemble(&mut m, vec![write("1", "a", "kept"), write("2", "x", "")]);
    assert_eq!(unknown.unwrap_err(), AssembleError::Apply(PatchError::UnknownTarget(node("x"))));
    assert_eq!(m.get_text(&node("a")), Some("kept"));
    let twice = assemble(&mut m, vec![write("1", "a", "x"), write("1", "a", "y")]);
    assert_eq!(
        twice.unwrap_err(),
        AssembleError::Topo(TopoError::DuplicateId(PatchId("1".to_string())))
    );
}

#[test]
fn derived_patches_depend_on_the_heading_patches() {
    let mut m = small_tree();
    m.set_toc("b");
    let set = assemble(&mut m, vec![write("t", "c", "text"), write("h", "a", "Title")]).unwrap();
    let derived = set.patches.last().unwrap();
    assert_eq!(derived.depends_on, vec![PatchId("h".to_string())]);
    assert_eq!(derived.source, PatchSource::Derived { from: PatchId("h".to_string()) });
    assert_eq!(derived.target_id(), "b");
}

#[test]
fn each_node_shows_once_and_spans_cover_whole_texts() {
    let m = small_tree();
    let blocks = document_blocks(&m);
    let ids: Vec<&str> = blocks.iter().map(|b| b.node.0.as_str()).collect();
    assert_eq!(ids, ["a", "b", "c"]);
    let rendered = render_html(&m);
    for b in &blocks {
        let span = rendered.source_map.span_for(&b.node).unwrap();
        assert_eq!(span.range, CharRange::chars(0, b.text.chars().count()));
    }
}

#[test]
fn fragment_edit_sets_one_text_and_nothing_else() {
    let mut m = small_tree();
    let spans = render_html(&m).source_map;
    apply_fragment_edit(&mut m, &spans, &node("b"), "第二段").unwrap();
    assert_eq!(m.get_text(&node("a")), Some("alpha"));
    assert_eq!(m.get_text(&node("b")), Some("第二段"));
    assert_eq!(m.get_text(&node("c")), Some("gamma"));
    assert_eq!(m.children(&node("b")).unwrap().len(), 1);
    // The source map is now out of date: its range reaches past the shorter text.
    let stale = apply_fragment_edit(&mut m, &spans, &node("b"), "x");
    assert_eq!(
        stale.unwrap_err(),
        EditError::Commit(CommitError::Aborted {
            patch: PatchId("edit".to_string()),
            cause: PatchError::RangeOutOfBounds(CharRange::chars(0, 4)),
        })
    );
}

#[test]
fn error_texts_match_their_debug_output() {
    let odd = "a\"b\\\n\u{7}\u{200b}语'";
    let id = PatchId(odd.to_string());
    let patch_errors = vec![
        PatchError::UnknownTarget(node(odd)),
        PatchError::RangeOutOfBounds(CharRange::chars(3, 20)),
        PatchError::DuplicateNode(node("n")),
        PatchError::IndexOutOfBounds { parent: node(odd), index: 12, len: 3 },
        PatchError::NotRemovable(node("root")),
    ];
    for e in &patch_errors {
        assert_eq!(e.shown(), format!("{e:?}"));
    }
    let topo_errors = vec![
        TopoError::DanglingDependency { patch: id.clone(), missing: PatchId(String::new()) },
        TopoError::DuplicateId(id.clone()),
        TopoError::Cycle(vec![]),
        TopoError::Cycle(vec![id.clone(), PatchId("2".to_string())]),
    ];
    for e in topo_errors {
        assert_eq!(e.shown(), format!("{e:?}"));
        let e = CommitError::Topo(e);
        assert_eq!(e.shown(), format!("{e:?}"));
    }
    for cause in patch_errors {
        let e = CommitError::Aborted { patch: id.clone(), cause };
        assert_eq!(e.shown(), format!("{e:?}"));
    }
    let e = CommitError::UnreviewedAi(id);
    assert_eq!(e.shown(), format!("{e:?}"));
}

#[test]
fn insert_replaces_the_text_of_a_node_that_is_there() {
    let mut m = small_tree();
    m.insert("b", "again");
    assert_eq!(m.get_text(&node("b")), Some("again"));
    assert_eq!(m.children(&node("root")).unwrap(), [node("a"), node("b")]);
    assert_eq!(m.children(&node("b")).unwrap(), [node("c")]);
}

#[test]
fn texts_and_ids_cannot_pose_as_markup() {
    let mut m = ProseModel::new();
    m.insert("a\"><b&", "<p>\"x\" & 'y'</p>");
    assert_eq!(
        render_html(&m).html,
        "<p data-node=\"a&quot;><b&amp;\">&lt;p&gt;\"x\" &amp; 'y'&lt;/p&gt;</p>"
    );
}

fn leaf(id: &str, text: &str, children: Vec<NodeSnapshot>) -> NodeSnapshot {
    NodeSnapshot { id: node(id), kind: NodeKind::Paragraph, text: text.to_string(), children }
}

#[test]
fn rebuilding_never_overwrites_a_node() {
    let mut m = ProseModel::new();
    m.insert("a", "A");
    let root = m.root().clone();
    let rebuild = |index: usize, snapshot: NodeSnapshot| Op::CreateNode {
        parent: node("root"),
        index,
        snapshot,
    };
    let cases = vec![
        (rebuild(1, leaf("x", "X", vec![leaf("a", "B", vec![])])), "a"),
        (rebuild(1, leaf("a", "B", vec![])), "a"),
        (rebuild(1, leaf("x", "X", vec![leaf("x", "Y", vec![])])), "x"),
        (
            rebuild(1, leaf("x", "", vec![leaf("y", "", vec![leaf("z", "", vec![])]), leaf("z", "", vec![])])),
            "z",
        ),
        (rebuild(1, leaf("x", "", vec![leaf("y", "", vec![leaf("a", "", vec![])]), leaf("y", "", vec![])])), "y"),
        (rebuild(9, leaf("x", "", vec![leaf("a", "", vec![])])), "a"),
    ];
    for (op, id) in cases {
        let result = m.apply_op(&Target::Node(root.clone()), &op);
        assert_eq!(result, Err(PatchError::DuplicateNode(node(id))));
        assert_eq!(m.get_text(&node("a")), Some("A"));
        assert_eq!(m.get_text(&node("x")), None);
        assert_eq!(m.children(&root).unwrap(), [node("a")]);
    }
    let fits = rebuild(0, leaf("x", "X", vec![leaf("y", "Y", vec![])]));
    let inverse = m.apply_op(&Target::Node(root.clone()), &fits).unwrap();
    assert_eq!(m.children(&root).unwrap(), [node("x"), node("a")]);
    assert_eq!(m.children(&node("x")).unwrap(), [node("y")]);
    m.apply_op(&Target::Node(root.clone()), &inverse).unwrap();
    assert_eq!(m.children(&root).unwrap(), [node("a")]);
    assert_eq!(m.get_text(&node("y")), None);
}

#[test]
fn failed_undo_leaves_the_content() {
    let mut m = small_tree();
    let before = picture(&m);
    let set = PatchSet::new(vec![write("1", "a", "one"), write("2", "nowhere", "x")]);
    assert_eq!(
        undo(&mut m, &set).unwrap_err(),
        CommitError::Aborted {
            patch: PatchId("2".to_string()),
            cause: PatchError::UnknownTarget(node("nowhere")),
        }
    );
    assert_eq!(picture(&m), before);
}

#[test]
fn inverse_patches_carry_the_ops_that_were_handed_back() {
    let mut m = small_tree();
    let inverse = commit(&mut m, &PatchSet::new(vec![write("1", "a", "x"), write("2", "a", "y")]));
    let inverse = inverse.unwrap();
    let seen: Vec<(&str, &str, &Op)> =
        inverse.patches.iter().map(|p| (p.id.0.as_str(), p.target_id(), &p.op)).collect();
    assert_eq!(
        seen,
        [
            ("inv:2", "a", &Op::SetMarkdown { md: "x".to_string() }),
            ("inv:1", "a", &Op::SetMarkdown { md: "alpha".to_string() }),
        ]
    );
}
