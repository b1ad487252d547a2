//! Editing sessions: loading, editing, undo, review of AI proposals, saving.
use polaris::ai::{ai_clean_prompt, ai_rewrite_prompt, parse_ai_reply, parse_clean_reply};
use polaris::{
    char_diff, document_blocks, sample_model, AiReply, AiRequest, DiffPart, DocumentModel, DocxBlock,
    DocxOp, FakeBackend, NodeId, NodeKind, PolarisApp,
};

#[test]
fn open_docx_via_fake_backend_loads_into_model() {
    let mut app = PolarisApp::new();
    let backend = FakeBackend::new(vec![
        DocxBlock::Heading { level: 1, text: "标题".to_string(), para_id: None },
        DocxBlock::Paragraph { text: "正文".to_string(), para_id: None },
    ]);
    app.load_from_backend(&backend, "ignored.docx").unwrap();

    assert_eq!(app.blocks.len(), 2);
    assert_eq!(app.blocks[0].kind, NodeKind::Heading { level: 1 });
    assert_eq!(app.blocks[0].text, "标题");
    assert!(app.undo_stack.is_empty());

    let node = app.blocks[0].node.clone();
    app.commit_edit(&node, "改过的标题").unwrap();
    assert_eq!(app.model.node_kind(&node), Some(NodeKind::Heading { level: 1 }));
}

#[test]
fn pending_ops_covers_set_remove_add() {
    let mut app = PolarisApp::new();
    let backend = FakeBackend::new(vec![
        DocxBlock::Heading { level: 1, text: "标题".to_string(), para_id: Some("AA".to_string()) },
        DocxBlock::Paragraph { text: "甲".to_string(), para_id: Some("BB".to_string()) },
        DocxBlock::Paragraph { text: "乙".to_string(), para_id: Some("CC".to_string()) },
    ]);
    app.load_from_backend(&backend, "x.docx").unwrap();
    assert!(app.pending_ops().0.is_empty());

    app.commit_edit(&NodeId("docx:0".to_string()), "新标题").unwrap();
    app.delete_block(&NodeId("docx:1".to_string()));
    app.add_paragraph();

    let (ops, skipped) = app.pending_ops();
    assert_eq!(skipped, 0);
    assert!(ops.iter().any(|o| matches!(o, DocxOp::SetText { path, replace, .. }
        if path == "/body/p[@paraId=AA]" && replace == "新标题")));
    assert!(ops.iter().any(|o| matches!(o, DocxOp::Remove { path } if path == "/body/p[@paraId=BB]")));
    assert!(ops.iter().any(|o| matches!(o, DocxOp::Add { after, text }
        if after.as_deref() == Some("p[@paraId=CC]") && text == "新段落")));
}

#[test]
fn pending_ops_targets_by_identity_with_table_between() {
    let mut app = PolarisApp::new();
    let backend = FakeBackend::new(vec![
        DocxBlock::Paragraph { text: "前段".to_string(), para_id: Some("AA".to_string()) },
        DocxBlock::Unstructured { kind: "table".to_string(), raw: "[Table: 1 rows]".to_string(), para_id: None, image: None, anchor: None },
        DocxBlock::Paragraph { text: "后段".to_string(), para_id: Some("CC".to_string()) },
    ]);
    app.load_from_backend(&backend, "x.docx").unwrap();

    app.commit_edit(&NodeId("docx:2".to_string()), "后段改").unwrap();
    let (ops, skipped) = app.pending_ops();
    assert_eq!(skipped, 0);
    assert_eq!(
        ops,
        vec![DocxOp::SetText {
            path: "/body/p[@paraId=CC]".to_string(),
            find: "后段".to_string(),
            replace: "后段改".to_string(),
        }]
    );
}

#[test]
fn new_paragraph_after_table_anchors_to_table_not_before_it() {
    let mut app = PolarisApp::new();
    let backend = FakeBackend::new(vec![
        DocxBlock::Paragraph { text: "前段".to_string(), para_id: Some("AA".to_string()) },
        DocxBlock::Unstructured {
            kind: "table".to_string(),
            raw: "[Table]".to_string(),
            para_id: None,
            image: None,
            anchor: Some("tbl[1]".to_string()),
        },
    ]);
    app.load_from_backend(&backend, "x.docx").unwrap();
    app.add_paragraph();

    let (ops, skipped) = app.pending_ops();
    assert_eq!(skipped, 0);
    assert_eq!(
        ops,
        vec![DocxOp::Add { after: Some("tbl[1]".to_string()), text: "新段落".to_string() }]
    );
}

#[test]
fn new_paragraph_after_plain_paragraph_still_anchors_to_it() {
    let mut app = PolarisApp::new();
    let backend = FakeBackend::new(vec![DocxBlock::Paragraph {
        text: "唯一段".to_string(),
        para_id: Some("AA".to_string()),
    }]);
    app.load_from_backend(&backend, "x.docx").unwrap();
    app.add_paragraph();
    let (ops, _) = app.pending_ops();
    assert_eq!(
        ops,
        vec![DocxOp::Add { after: Some("p[@paraId=AA]".to_string()), text: "新段落".to_string() }]
    );
}

#[test]
fn opaque_blocks_are_readonly_and_delete_gated() {
    let mut app = PolarisApp::new();
    let backend = FakeBackend::new(vec![
        DocxBlock::Paragraph { text: "前段".to_string(), para_id: Some("AA".to_string()) },
        DocxBlock::Unstructured { kind: "table".to_string(), raw: "[T]".to_string(), para_id: None, image: None, anchor: None },
        DocxBlock::Unstructured {
            kind: "image".to_string(),
            raw: "alt=\"图\"".to_string(),
            para_id: Some("IMG".to_string()),
            image: None,
            anchor: None,
        },
    ]);
    app.load_from_backend(&backend, "x.docx").unwrap();

    assert_eq!(app.blocks[1].kind, NodeKind::Opaque);
    assert_eq!(app.blocks[1].text, "[T]");
    assert_eq!(app.blocks[2].kind, NodeKind::Opaque);

    assert!(app.commit_edit(&NodeId("docx:1".to_string()), "乱改").is_err());
    assert_eq!(app.model.get_text(&NodeId("docx:1".to_string())), Some("[T]"));

    let blocks = app.blocks.clone();
    assert!(app.deletable(&blocks[0]));
    assert!(!app.deletable(&blocks[1]));
    assert!(app.deletable(&blocks[2]));
}

#[test]
fn deleting_image_opaque_writes_back_by_identity() {
    let mut app = PolarisApp::new();
    let backend = FakeBackend::new(vec![
        DocxBlock::Paragraph { text: "前段".to_string(), para_id: Some("AA".to_string()) },
        DocxBlock::Unstructured {
            kind: "image".to_string(),
            raw: "alt=\"图\"".to_string(),
            para_id: Some("IMG".to_string()),
            image: None,
            anchor: None,
        },
    ]);
    app.load_from_backend(&backend, "x.docx").unwrap();
    app.delete_block(&NodeId("docx:1".to_string()));
    let (ops, skipped) = app.pending_ops();
    assert_eq!(skipped, 0);
    assert_eq!(ops, vec![DocxOp::Remove { path: "/body/p[@paraId=IMG]".to_string() }]);
}

#[test]
fn image_map_built_from_blocks_with_bytes_and_degrades_without() {
    let mut app = PolarisApp::new();
    let backend = FakeBackend::new(vec![
        DocxBlock::Paragraph { text: "前".to_string(), para_id: Some("AA".to_string()) },
        DocxBlock::Unstructured {
            kind: "image".to_string(),
            raw: "alt=\"图\"".to_string(),
            para_id: Some("IMG".to_string()),
            image: Some(b"PNGBYTES".to_vec()),
            anchor: None,
        },
        DocxBlock::Unstructured {
            kind: "image".to_string(),
            raw: "alt=\"没抽到\"".to_string(),
            para_id: Some("MISS".to_string()),
            image: None,
            anchor: None,
        },
    ]);
    app.load_from_backend(&backend, "x.docx").unwrap();

    let img = NodeId("docx:1".to_string());
    let miss = NodeId("docx:2".to_string());
    assert_eq!(app.image_map.get(&img.0).map(|b| b.as_slice()), Some(b"PNGBYTES".as_ref()));
    assert!(!app.image_map.contains_key(&miss.0));

    assert_eq!(app.blocks[2].text, "alt=\"没抽到\"");
    let blocks = app.blocks.clone();
    assert!(app.deletable(&blocks[1]));
    assert!(app.deletable(&blocks[2]));

    app.load_from_backend(
        &FakeBackend::new(vec![DocxBlock::Paragraph { text: "x".to_string(), para_id: None }]),
        "y.docx",
    )
    .unwrap();
    assert!(app.image_map.is_empty());
}

fn app_with_paragraphs(texts: &[&str]) -> (PolarisApp, Vec<NodeId>) {
    let mut app = PolarisApp::new();
    let blocks = texts
        .iter()
        .enumerate()
        .map(|(i, t)| DocxBlock::Paragraph { text: t.to_string(), para_id: Some(format!("P{i}")) })
        .collect();
    app.load_from_backend(&FakeBackend::new(blocks), "x.docx").unwrap();
    let ids = (0..texts.len()).map(|i| NodeId(format!("docx:{i}"))).collect();
    (app, ids)
}

fn app_with_paragraph(text: &str) -> (PolarisApp, NodeId) {
    let (app, ids) = app_with_paragraphs(&[text]);
    (app, ids.into_iter().next().unwrap())
}

fn ok_reply(node: &NodeId, old: &str, new: &str) -> AiReply {
    AiReply {
        request: AiRequest::Single { node: node.clone(), old: old.to_string() },
        result: Ok(new.to_string()),
    }
}

#[test]
fn char_diff_pure_insert_and_delete() {
    assert_eq!(char_diff("ab", "abc"), vec![DiffPart::Equal("ab".into()), DiffPart::Insert("c".into())]);
    assert_eq!(char_diff("abc", "ab"), vec![DiffPart::Equal("ab".into()), DiffPart::Delete("c".into())]);
}

#[test]
fn char_diff_middle_replace_merges_runs() {
    assert_eq!(
        char_diff("abXcd", "abYcd"),
        vec![
            DiffPart::Equal("ab".into()),
            DiffPart::Delete("X".into()),
            DiffPart::Insert("Y".into()),
            DiffPart::Equal("cd".into()),
        ]
    );
}

#[test]
fn char_diff_cjk_tail_deletion() {
    assert_eq!(
        char_diff("一、开场与破冰11113232", "一、开场与破冰"),
        vec![DiffPart::Equal("一、开场与破冰".into()), DiffPart::Delete("11113232".into())]
    );
    assert_eq!(
        char_diff("财兔的Ryan小汪老师", "财兔的Ryan"),
        vec![DiffPart::Equal("财兔的Ryan".into()), DiffPart::Delete("小汪老师".into())]
    );
}

#[test]
fn char_diff_edges_empty_and_identical() {
    assert_eq!(char_diff("同", "同"), vec![DiffPart::Equal("同".into())]);
    assert_eq!(char_diff("", "新"), vec![DiffPart::Insert("新".into())]);
    assert_eq!(char_diff("旧", ""), vec![DiffPart::Delete("旧".into())]);
    assert!(char_diff("", "").is_empty());

    assert_eq!(char_diff("猫", "狗"), vec![DiffPart::Delete("猫".into()), DiffPart::Insert("狗".into())]);
}

#[test]
fn char_diff_reconstructs_both_sides() {
    for (old, new) in [("财兔的Ryan小汪老师", "财兔的Ryan。"), ("abXcd", "aYcdZ"), ("", "新增"), ("删除", "")] {
        let parts = char_diff(old, new);
        let recon_old: String = parts
            .iter()
            .filter_map(|p| match p {
                DiffPart::Equal(s) | DiffPart::Delete(s) => Some(s.as_str()),
                DiffPart::Insert(_) => None,
            })
            .collect();
        let recon_new: String = parts
            .iter()
            .filter_map(|p| match p {
                DiffPart::Equal(s) | DiffPart::Insert(s) => Some(s.as_str()),
                DiffPart::Delete(_) => None,
            })
            .collect();
        assert_eq!(recon_old, old, "old 重建失败: {old:?}→{new:?}");
        assert_eq!(recon_new, new, "new 重建失败: {old:?}→{new:?}");
    }
}

#[test]
fn ai_prompt_carries_text_and_constraints() {
    let p = ai_rewrite_prompt("待改写的段落");
    assert!(p.contains("待改写的段落"));
    assert!(p.contains("只输出改写后的正文"));
    assert!(p.contains("保持原意"));
}

#[test]
fn parse_ai_reply_strips_fences_quotes_whitespace() {
    assert_eq!(parse_ai_reply("  改写结果。\n"), "改写结果。");
    assert_eq!(parse_ai_reply("```\n改写结果。\n```"), "改写结果。");
    assert_eq!(parse_ai_reply("```text\n改写结果。\n```"), "改写结果。");
    assert_eq!(parse_ai_reply("“改写结果。”"), "改写结果。");
    assert_eq!(parse_ai_reply("「改写结果。」"), "改写结果。");
    assert_eq!(parse_ai_reply("内文有“引号”不剥。"), "内文有“引号”不剥。");
}

#[test]
fn ai_reply_becomes_proposal_then_accept_commits_and_undoes() {
    let (mut app, node) = app_with_paragraph("原始段落");
    app.receive_ai_result(ok_reply(&node, "原始段落", "更专业的段落。"));
    let p = app.pending_ai.as_ref().expect("应有待审提案");
    assert_eq!(p.changes.len(), 1);
    assert_eq!(p.changes[0].old, "原始段落");
    assert_eq!(p.changes[0].new, "更专业的段落。");
    assert!(p.changes[0].selected);
    assert_eq!(app.model.get_text(&node), Some("原始段落"));

    app.accept_ai();
    assert_eq!(app.model.get_text(&node), Some("更专业的段落。"));
    assert_eq!(app.blocks[0].text, "更专业的段落。");
    assert!(app.pending_ai.is_none());

    app.undo_last();
    assert_eq!(app.model.get_text(&node), Some("原始段落"));
}

#[test]
fn multi_change_partial_accept_is_one_atomic_undo_unit() {
    let (mut app, ids) = app_with_paragraphs(&["甲", "乙", "丙"]);
    app.receive_ai_result(ok_reply(&ids[0], "甲", "甲改。"));
    app.receive_ai_result(ok_reply(&ids[1], "乙", "乙改。"));
    app.receive_ai_result(ok_reply(&ids[2], "丙", "丙改。"));
    let p = app.pending_ai.as_mut().expect("应有提案");
    assert_eq!(p.changes.len(), 3);
    p.changes[1].selected = false;

    app.accept_ai();
    assert_eq!(app.model.get_text(&ids[0]), Some("甲改。"));
    assert_eq!(app.model.get_text(&ids[1]), Some("乙"));
    assert_eq!(app.model.get_text(&ids[2]), Some("丙改。"));
    assert_eq!(app.undo_stack.len(), 1);

    app.undo_last();
    assert_eq!(app.model.get_text(&ids[0]), Some("甲"));
    assert_eq!(app.model.get_text(&ids[2]), Some("丙"));
}

#[test]
fn same_node_new_reply_replaces_old_entry() {
    let (mut app, node) = app_with_paragraph("原文");
    app.receive_ai_result(ok_reply(&node, "原文", "第一版改写。"));
    app.receive_ai_result(ok_reply(&node, "原文", "第二版改写。"));
    let p = app.pending_ai.as_ref().unwrap();
    assert_eq!(p.changes.len(), 1);
    assert_eq!(p.changes[0].new, "第二版改写。");
}

#[test]
fn stale_change_skipped_on_accept_while_valid_ones_commit() {
    let (mut app, ids) = app_with_paragraphs(&["甲", "乙"]);
    app.receive_ai_result(ok_reply(&ids[0], "甲", "甲改。"));
    app.receive_ai_result(ok_reply(&ids[1], "乙", "乙改。"));
    app.commit_edit(&ids[0], "人改了甲").unwrap();

    app.accept_ai();
    assert_eq!(app.model.get_text(&ids[0]), Some("人改了甲"));
    assert_eq!(app.model.get_text(&ids[1]), Some("乙改。"));
    assert!(app.status.contains("失效"));
}

#[test]
fn ai_reply_reject_leaves_model_untouched() {
    let (mut app, node) = app_with_paragraph("改我呀");
    app.receive_ai_result(AiReply {
        request: AiRequest::Single { node: node.clone(), old: "改我呀".to_string() },
        result: Ok("改好了。".to_string()),
    });
    assert!(app.pending_ai.is_some());
    app.reject_ai();
    assert!(app.pending_ai.is_none());
    assert_eq!(app.model.get_text(&node), Some("改我呀"));
    assert!(app.undo_stack.is_empty());
}

#[test]
fn ai_reply_voided_if_paragraph_changed_during_flight() {
    let (mut app, node) = app_with_paragraph("原文");
    app.commit_edit(&node, "人在 AI 思考时改了。").unwrap();
    app.receive_ai_result(AiReply {
        request: AiRequest::Single { node: node.clone(), old: "原文".to_string() },
        result: Ok("AI 的改写。".to_string()),
    });
    assert!(app.pending_ai.is_none());
    assert!(app.status.contains("作废"));
    assert_eq!(app.model.get_text(&node), Some("人在 AI 思考时改了。"));
}

#[test]
fn ai_reply_voided_if_changed_after_proposal_before_accept() {
    let (mut app, node) = app_with_paragraph("原文");
    app.receive_ai_result(AiReply {
        request: AiRequest::Single { node: node.clone(), old: "原文".to_string() },
        result: Ok("AI 的改写。".to_string()),
    });
    app.commit_edit(&node, "人又改了一版。").unwrap();
    app.accept_ai();
    assert_eq!(app.model.get_text(&node), Some("人又改了一版。"));
    assert!(app.status.contains("失效"));
    assert!(app.status.contains("未提交"));
}

#[test]
fn ai_reply_no_change_or_error_only_sets_status() {
    let (mut app, node) = app_with_paragraph("已经很好。");
    app.receive_ai_result(AiReply {
        request: AiRequest::Single { node: node.clone(), old: "已经很好。".to_string() },
        result: Ok("已经很好。".to_string()),
    });
    assert!(app.pending_ai.is_none());
    assert!(app.status.contains("无改动建议"));

    app.receive_ai_result(AiReply {
        request: AiRequest::Single { node: node.clone(), old: "已经很好。".to_string() },
        result: Err("Not logged in".to_string()),
    });
    assert!(app.pending_ai.is_none());
    assert!(app.status.contains("AI 调用失败"));
    assert_eq!(app.model.get_text(&node), Some("已经很好。"));
}

#[test]
fn ai_clean_prompt_lists_segments_with_ids_and_constraints() {
    let segs = vec![
        (NodeId("docx:0".to_string()), "标题1111".to_string()),
        (NodeId("docx:3".to_string()), "正文".to_string()),
    ];
    let p = ai_clean_prompt(&segs);
    assert!(p.contains("[docx:0] 标题1111"));
    assert!(p.contains("[docx:3] 正文"));
    assert!(p.contains("JSON 数组"));
    assert!(p.contains("只包含需要修改的段落"));
}

#[test]
fn parse_clean_reply_filters_unknown_ids_and_no_ops() {
    let olds = vec![
        (NodeId("docx:0".to_string()), "标题1111".to_string()),
        (NodeId("docx:1".to_string()), "干净段".to_string()),
    ];

    let raw = "```json\n[\n  {\"id\": \"docx:0\", \"new\": \"标题\"},\n  {\"id\": \"docx:9\", \"new\": \"幻觉段\"},\n  {\"id\": \"docx:1\", \"new\": \"干净段\"},\n  {\"id\": \"docx:1\"}\n]\n```";
    let (changes, dropped) = parse_clean_reply(raw, &olds).unwrap();
    assert_eq!(changes.len(), 1);
    assert_eq!(changes[0].node, NodeId("docx:0".to_string()));
    assert_eq!(changes[0].old, "标题1111");
    assert_eq!(changes[0].new, "标题");
    assert_eq!(dropped, 3);

    assert!(parse_clean_reply("这不是JSON", &olds).is_err());
    assert_eq!(parse_clean_reply("[]", &olds).unwrap().0.len(), 0);
}

#[test]
fn clean_all_reply_merges_into_review_channel_and_commits_atomically() {
    let (mut app, ids) = app_with_paragraphs(&["标题1111", "干净段", "正文2222"]);
    let olds: Vec<(NodeId, String)> = vec![
        (ids[0].clone(), "标题1111".to_string()),
        (ids[1].clone(), "干净段".to_string()),
        (ids[2].clone(), "正文2222".to_string()),
    ];
    app.receive_ai_result(AiReply {
        request: AiRequest::CleanAll { olds },
        result: Ok(r#"[{"id":"docx:0","new":"标题"},{"id":"docx:2","new":"正文"}]"#.to_string()),
    });
    let p = app.pending_ai.as_ref().expect("应有提案");
    assert_eq!(p.changes.len(), 2);
    assert!(app.status.contains("共 2 条"));

    app.accept_ai();
    assert_eq!(app.model.get_text(&ids[0]), Some("标题"));
    assert_eq!(app.model.get_text(&ids[1]), Some("干净段"));
    assert_eq!(app.model.get_text(&ids[2]), Some("正文"));
    assert_eq!(app.undo_stack.len(), 1);
    app.undo_last();
    assert_eq!(app.model.get_text(&ids[0]), Some("标题1111"));
    assert_eq!(app.model.get_text(&ids[2]), Some("正文2222"));
}

#[test]
fn clean_all_bad_json_or_empty_only_sets_status() {
    let (mut app, ids) = app_with_paragraphs(&["甲"]);
    let olds = vec![(ids[0].clone(), "甲".to_string())];
    app.receive_ai_result(AiReply {
        request: AiRequest::CleanAll { olds: olds.clone() },
        result: Ok("模型抽风不回JSON".to_string()),
    });
    assert!(app.pending_ai.is_none());
    assert!(app.status.contains("解析失败"));

    app.receive_ai_result(AiReply {
        request: AiRequest::CleanAll { olds },
        result: Ok("[]".to_string()),
    });
    assert!(app.pending_ai.is_none());
    assert!(app.status.contains("无需清理"));
    assert_eq!(app.model.get_text(&ids[0]), Some("甲"));
}

#[test]
fn clean_targets_excludes_opaque_and_caps_at_limit() {
    let mut app = PolarisApp::new();
    let backend = FakeBackend::new(vec![
        DocxBlock::Paragraph { text: "甲".to_string(), para_id: Some("AA".to_string()) },
        DocxBlock::Unstructured { kind: "table".to_string(), raw: "[T]".to_string(), para_id: None, image: None, anchor: None },
        DocxBlock::Paragraph { text: "乙".to_string(), para_id: Some("BB".to_string()) },
    ]);
    app.load_from_backend(&backend, "x.docx").unwrap();
    let (targets, truncated) = app.clean_targets();
    assert_eq!(targets.len(), 2);
    assert!(targets.iter().all(|(_, t)| t == "甲" || t == "乙"));
    assert_eq!(truncated, 0);

    let many: Vec<DocxBlock> = (0..105)
        .map(|i| DocxBlock::Paragraph { text: format!("段{i}"), para_id: Some(format!("P{i}")) })
        .collect();
    app.load_from_backend(&FakeBackend::new(many), "y.docx").unwrap();
    let (targets, truncated) = app.clean_targets();
    assert_eq!(targets.len(), 100);
    assert_eq!(truncated, 5);
}

#[test]
fn paraidless_file_edits_skip_loudly() {
    let mut app = PolarisApp::new();
    let backend =
        FakeBackend::new(vec![DocxBlock::Paragraph { text: "x".to_string(), para_id: None }]);
    app.load_from_backend(&backend, "x.docx").unwrap();
    app.commit_edit(&NodeId("docx:0".to_string()), "y").unwrap();
    let (ops, skipped) = app.pending_ops();
    assert!(ops.is_empty());
    assert_eq!(skipped, 1);
}

#[test]
fn add_and_delete_paragraph_with_undo() {
    let mut app = PolarisApp::new();
    let n0 = app.blocks.len();

    app.add_paragraph();
    assert_eq!(app.blocks.len(), n0 + 1);
    assert_eq!(app.blocks.last().unwrap().text, "新段落");

    let added = app.blocks.last().unwrap().node.clone();
    app.delete_block(&added);
    assert_eq!(app.blocks.len(), n0);

    app.undo_last();
    assert_eq!(app.blocks.len(), n0 + 1);
    app.undo_last();
    assert_eq!(app.blocks.len(), n0);
}

#[test]
fn document_blocks_flattens_in_order_with_kind() {
    let m = sample_model();
    let blocks = document_blocks(&m);
    assert_eq!(blocks.len(), 5);
    assert_eq!(blocks[0].kind, NodeKind::Heading { level: 1 });
    assert_eq!(blocks[0].text, "Polaris 文档查看器");
    assert_eq!(blocks[1].kind, NodeKind::Heading { level: 2 });
    assert_eq!(blocks[2].kind, NodeKind::Paragraph);
    assert_eq!(blocks[2].node, NodeId("p1".to_string()));
}

#[test]
fn commit_edit_updates_model_and_undo_restores() {
    let mut app = PolarisApp::new();
    let node = NodeId("p1".to_string());
    let before = app.model.get_text(&node).map(|s| s.to_string());

    app.commit_edit(&node, "改写后的正文").unwrap();
    assert_eq!(app.model.get_text(&node), Some("改写后的正文"));
    assert_eq!(app.undo_stack.len(), 1);

    app.undo_last();
    assert_eq!(app.model.get_text(&node).map(|s| s.to_string()), before);
    assert!(app.undo_stack.is_empty());
}

#[test]
fn commit_edit_noop_when_unchanged() {
    let mut app = PolarisApp::new();
    let node = NodeId("p1".to_string());
    let same = app.model.get_text(&node).unwrap().to_string();
    app.commit_edit(&node, &same).unwrap();
    assert!(app.undo_stack.is_empty());
}

#[test]
fn edit_heading_keeps_kind() {
    let mut app = PolarisApp::new();
    let node = NodeId("t".to_string());
    app.commit_edit(&node, "新标题").unwrap();
    assert_eq!(app.model.get_text(&node), Some("新标题"));

    assert_eq!(app.model.node_kind(&node), Some(NodeKind::Heading { level: 1 }));
}

#[test]
fn unsaved_changes_tracked_against_load_snapshot() {
    let mut app = PolarisApp::new();
    let backend = FakeBackend::new(vec![DocxBlock::Paragraph { text: "甲".to_string(), para_id: None }]);
    app.load_from_backend(&backend, "x.docx").unwrap();
    assert!(!app.has_unsaved_changes());
    app.commit_edit(&NodeId("docx:0".to_string()), "乙").unwrap();
    assert!(app.has_unsaved_changes());
    app.undo_last();
    assert!(!app.has_unsaved_changes());
}

#[test]
fn approve_restore_requires_second_click_when_dirty() {
    let mut app = PolarisApp::new();
    let backend = FakeBackend::new(vec![DocxBlock::Paragraph { text: "甲".to_string(), para_id: None }]);
    app.load_from_backend(&backend, "x.docx").unwrap();
    let v1 = "/tmp/0000000000001.docx";
    let v2 = "/tmp/0000000000002.docx";
    assert!(app.approve_restore(v1));

    app.commit_edit(&NodeId("docx:0".to_string()), "乙").unwrap();
    assert!(!app.approve_restore(v1));
    assert!(!app.approve_restore(v2));
    assert!(app.approve_restore(v2));
}
