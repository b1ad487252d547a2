//! Sessions at their edges: statuses, saving, replies and requests.
use polaris::ai::{ai_clean_prompt, clean_changes, parse_ai_reply, parse_clean_reply, tool_reply};
use polaris::saving::{format_millis, restore_note, time_label, SavePlan};
use polaris::session::default_doc_path;
use polaris::{
    AiChange, AiReply, AiRequest, CommitError, DocumentModel, DocxBackend, DocxBlock, DocxOp,
    EditError, FakeBackend, NodeId, NodeKind, OfficeCliBackend, PatchId, PolarisApp,
};

fn node(id: &str) -> NodeId {
    NodeId(id.to_string())
}

fn paragraph(text: &str, id: Option<&str>) -> DocxBlock {
    DocxBlock::Paragraph { text: text.to_string(), para_id: id.map(|i| i.to_string()) }
}

fn opened(blocks: Vec<DocxBlock>) -> PolarisApp {
    let mut app = PolarisApp::new();
    app.load_from_backend(&FakeBackend::new(blocks), "/d/x.docx").unwrap();
    app
}

fn two_paragraphs() -> PolarisApp {
    opened(vec![paragraph("甲", Some("AA")), paragraph("乙", Some("BB"))])
}

struct Broken;

impl DocxBackend for Broken {
    fn read_blocks(&self, _path: &str) -> Result<Vec<DocxBlock>, String> {
        Err("disk on fire".to_string())
    }
}

#[test]
fn opening_reports_the_path_or_the_failure() {
    let mut app = two_paragraphs();
    app.open_path(&FakeBackend::new(vec![paragraph("丙", None)]), "/d/y.docx");
    assert_eq!(app.status, "已打开 /d/y.docx（1 块）");
    assert_eq!(app.loaded_path, Some("/d/y.docx".to_string()));
    app.open_path(&Broken, "/d/z.docx");
    assert_eq!(app.status, "打开失败: disk on fire");
    assert_eq!(app.loaded_path, Some("/d/y.docx".to_string()));
    assert_eq!(app.blocks[0].text, "丙");
}

#[test]
fn default_path_comes_from_the_wish_or_the_home() {
    let text = |s: &str| Some(s.to_string());
    assert_eq!(default_doc_path(text("/w.docx"), text("/home/u")), "/w.docx");
    assert_eq!(default_doc_path(None, text("/home/u")), "/home/u/Downloads/话术库.docx");
    assert_eq!(default_doc_path(None, None), "/Downloads/话术库.docx");
}

#[test]
fn office_program_has_a_default() {
    assert_eq!(OfficeCliBackend::new().program, "officecli");
    assert_eq!(OfficeCliBackend::default().program, "officecli");
    assert_eq!(OfficeCliBackend::with_program("/opt/o".to_string()).program, "/opt/o");
}

#[test]
fn saving_needs_an_open_file_and_a_change() {
    let mut app = PolarisApp::new();
    match app.plan_save() {
        Err(e) => assert_eq!(e, "先「打开 docx」再保存"),
        Ok(_) => panic!("nothing is open"),
    }
    app = two_paragraphs();
    match app.plan_save() {
        Ok(SavePlan::Nothing(s)) => assert_eq!(s, "无改动可保存"),
        _ => panic!("nothing has changed"),
    }
}

#[test]
fn saving_texts_leaves_nothing_to_save() {
    let mut app = two_paragraphs();
    app.commit_edit(&node("docx:1"), "乙二").unwrap();
    app.rebuild_blocks();
    assert!(app.has_unsaved_changes());
    match app.plan_save() {
        Ok(SavePlan::Write { file, ops, structural, note }) => {
            assert_eq!(file, "/d/x.docx");
            assert_eq!(
                ops,
                vec![DocxOp::SetText {
                    path: "/body/p[@paraId=BB]".to_string(),
                    find: "乙".to_string(),
                    replace: "乙二".to_string(),
                }]
            );
            assert!(!structural);
            assert_eq!(note, "已保存 1 处改动 → /d/x.docx（旧版已入历史）");
        }
        _ => panic!("there is a change"),
    }
    app.texts_saved();
    assert!(!app.has_unsaved_changes());
    let (ops, skipped) = app.pending_ops();
    assert!(ops.is_empty());
    assert_eq!(skipped, 0);
}

#[test]
fn saving_structure_asks_for_a_reload_and_counts_what_is_skipped() {
    let mut app = opened(vec![paragraph("甲", Some("AA")), paragraph("乙", None)]);
    app.commit_edit(&node("docx:1"), "改").unwrap();
    match app.plan_save() {
        Ok(SavePlan::Nothing(s)) => assert_eq!(
            s,
            "没有可写回的改动；另有 1 处改动无法写回（未结构化块/缺 paraId），已跳过"
        ),
        _ => panic!("nothing can be written"),
    }
    app.delete_block(&node("docx:0"));
    match app.plan_save() {
        Ok(SavePlan::Write { ops, structural, note, .. }) => {
            assert_eq!(ops, vec![DocxOp::Remove { path: "/body/p[@paraId=AA]".to_string() }]);
            assert!(structural);
            assert_eq!(
                note,
                "已保存 1 处改动 → /d/x.docx（旧版已入历史）；另有 1 处改动无法写回（未结构化块/缺 paraId），已跳过"
            );
        }
        _ => panic!("there is a paragraph to remove"),
    }
}

#[test]
fn undone_edits_leave_nothing_to_save_on_values() {
    let mut app = two_paragraphs();
    assert!(!app.has_unsaved_changes());
    app.commit_edit(&node("docx:0"), "改").unwrap();
    app.delete_block(&node("docx:1"));
    app.add_paragraph();
    assert!(app.has_unsaved_changes());
    app.undo_last();
    app.undo_last();
    app.undo_last();
    assert!(!app.has_unsaved_changes());
    assert!(app.pending_ops().0.is_empty());
    app.undo_last();
    assert_eq!(app.status, "没有可撤销的编辑");
}

#[test]
fn added_paragraphs_come_out_in_reading_order() {
    let mut app = two_paragraphs();
    app.add_paragraph_after(&node("docx:0"));
    let first = app.blocks[1].node.clone();
    app.add_paragraph_after(&first);
    let second = app.blocks[2].node.clone();
    app.commit_edit(&first, "一").unwrap();
    app.commit_edit(&second, "二").unwrap();
    let after = Some("p[@paraId=AA]".to_string());
    assert_eq!(
        app.pending_ops().0,
        vec![
            DocxOp::Add { after: after.clone(), text: "二".to_string() },
            DocxOp::Add { after, text: "一".to_string() },
        ]
    );
}

#[test]
fn unknown_nodes_cannot_be_edited() {
    let mut app = two_paragraphs();
    assert_eq!(app.commit_edit(&node("nowhere"), "x"), Err(EditError::NoSpan(node("nowhere"))));
    assert!(app.undo_stack.is_empty());
}

#[test]
fn going_back_to_a_version_is_reported() {
    assert_eq!(restore_note(Ok(true), "05-06 07:08"), "已回到 05-06 07:08 的版本（回版前状态已留底）");
    assert_eq!(
        restore_note(Ok(false), "05-06 07:08"),
        "已回到 05-06 07:08 的版本（当前状态已在历史中，未重复留底）"
    );
    assert_eq!(restore_note(Err("e".to_string()), "05-06 07:08"), "回版失败: e");
}

#[test]
fn moments_are_shown_as_local_time_or_as_numbers() {
    // The zone is that of the machine; every zone is within a day of the same moment.
    let shown = format_millis(1_700_000_000_000);
    let shape: String = shown.chars().map(|c| if c.is_ascii_digit() { '9' } else { c }).collect();
    assert_eq!(shape, "9999-99-99 99:99:99");
    assert_eq!(&shown[..8], "2023-11-");
    let next_day = format_millis(1_700_000_000_000 + 86_400_000);
    assert_ne!(next_day, shown);
    assert_eq!(next_day[10..], shown[10..]);
    assert!(format_millis(0) == "1970-01-01 00:00:00" || !format_millis(0).ends_with("00:00:00"));
    assert_eq!(&format_millis(253_402_300_800_000 + 259_200_000)[..9], "+10000-01");
    assert_eq!(&format_millis(u64::MAX)[..2], "19");
    assert_eq!(format_millis(8_210_266_876_800_000), "8210266876800000");
    assert_eq!(format_millis(9_000_000_000_000_000), "9000000000000000");
    assert_eq!(time_label(None, 42), "42");
    assert_eq!(time_label(Some("now".to_string()), 42), "now");
}

#[test]
fn replies_of_programs_are_text_or_both_outputs() {
    assert_eq!(tool_reply("ai", true, " raw \n".to_string(), "noise"), Ok(" raw \n".to_string()));
    assert_eq!(
        tool_reply("ai", false, " not signed in\n".to_string(), " code 1 "),
        Err("ai 调用失败: not signed in code 1".to_string())
    );
}

#[test]
fn wrappings_of_a_reply_come_off() {
    let cases = [
        ("plain", "plain"),
        ("  ```text\n正文\n```  ", "正文"),
        ("```\na\n```b```", "a\n```b"),
        ("```no newline", ""),
        ("\"quoted\"", "quoted"),
        ("“「套」”", "套"),
        ("\"", "\""),
        ("\"\"", ""),
        ("「“x”」", "“x”"),
        ("", ""),
    ];
    for (raw, text) in cases {
        assert_eq!(parse_ai_reply(raw), text, "{raw:?}");
    }
}

#[test]
fn clean_replies_keep_only_real_changes() {
    let olds = vec![(node("a"), "旧".to_string()), (node("b"), "same".to_string())];
    let raw = "```json\n[{\"id\":\"a\",\"new\":\"新\"},{\"id\":\"b\",\"new\":\"same\"},{\"id\":\"z\",\"new\":\"x\"},{\"id\":\"a\"},3]\n```";
    let (changes, dropped) = parse_clean_reply(raw, &olds).unwrap();
    assert_eq!(
        changes,
        vec![AiChange {
            node: node("a"),
            old: "旧".to_string(),
            new: "新".to_string(),
            selected: true,
        }]
    );
    assert_eq!(dropped, 4);
    let why = serde_json::from_str::<Vec<serde_json::Value>>("no").unwrap_err().to_string();
    assert_eq!(parse_clean_reply("no", &olds), Err(format!("模型回复不是合法 JSON 数组: {why}")));
    assert!(parse_clean_reply("{}", &olds).is_err());
    assert_eq!(clean_changes(&vec![], &olds), (vec![], 0));
}

#[test]
fn a_repeated_id_stands_for_its_last_text() {
    let olds = vec![(node("a"), "first".to_string()), (node("a"), "last".to_string())];
    let (changes, dropped) = parse_clean_reply("[{\"id\":\"a\",\"new\":\"last\"}]", &olds).unwrap();
    assert!(changes.is_empty());
    assert_eq!(dropped, 1);
}

#[test]
fn clean_prompt_is_the_task_and_the_segments() {
    let prompt = ai_clean_prompt(&[(node("a"), "甲".to_string()), (node("b"), "乙".to_string())]);
    assert!(prompt.ends_with("\n\n[a] 甲\n[b] 乙\n"));
    assert!(ai_clean_prompt(&[]).ends_with("\n\n"));
}

#[test]
fn requests_are_refused_while_one_is_under_way() {
    let mut app = two_paragraphs();
    let before = app.status.clone();
    assert!(app.start_ai_request(true, &node("docx:0")).is_none());
    assert!(app.start_ai_clean_all(true).is_none());
    assert_ne!(app.status, before);
    let (request, prompt) = app.start_ai_request(false, &node("docx:0")).unwrap();
    assert_eq!(request, AiRequest::Single { node: node("docx:0"), old: "甲".to_string() });
    assert!(prompt.ends_with("甲"));
    assert!(app.start_ai_request(false, &node("nowhere")).is_none());
    let (request, prompt) = app.start_ai_clean_all(false).unwrap();
    assert_eq!(
        request,
        AiRequest::CleanAll {
            olds: vec![(node("docx:0"), "甲".to_string()), (node("docx:1"), "乙".to_string())]
        }
    );
    assert!(prompt.contains("[docx:1] 乙\n"));
}

#[test]
fn replies_never_touch_the_document() {
    let mut app = two_paragraphs();
    let rev = app.model.rev();
    for result in [Ok("新甲".to_string()), Ok("甲".to_string()), Err("offline".to_string())] {
        app.receive_ai_result(AiReply {
            request: AiRequest::Single { node: node("docx:0"), old: "甲".to_string() },
            result,
        });
        assert_eq!(app.model.rev(), rev);
        assert_eq!(app.model.get_text(&node("docx:0")), Some("甲"));
    }
    app.accept_ai();
    assert_eq!(app.model.get_text(&node("docx:0")), Some("新甲"));
    assert_eq!(app.undo_stack.len(), 1);
    app.undo_last();
    assert_eq!(app.model.get_text(&node("docx:0")), Some("甲"));
}

#[test]
fn opaque_blocks_stay_as_they_are() {
    let mut app = opened(vec![DocxBlock::Unstructured {
        kind: "table".to_string(),
        raw: "t".to_string(),
        para_id: None,
        image: None,
        anchor: Some("/body/tbl[1]".to_string()),
    }]);
    assert_eq!(app.blocks[0].kind, NodeKind::Opaque);
    let b = app.blocks[0].clone();
    assert!(!app.deletable(&b));
    assert_eq!(app.clean_targets(), (vec![], 0));
    assert!(app.commit_edit(&node("docx:0"), "x").is_err());
}

#[test]
fn commit_errors_in_a_session_are_told() {
    let error = CommitError::UnreviewedAi(PatchId("ai:0".to_string()));
    assert_eq!(error.shown(), "UnreviewedAi(PatchId(\"ai:0\"))");
    let mut app = two_paragraphs();
    app.delete_block(&node("nowhere"));
    assert_eq!(
        app.status,
        "删除失败: Aborted { patch: PatchId(\"del\"), cause: UnknownTarget(NodeId(\"nowhere\")) }"
    );
    assert!(app.undo_stack.is_empty());
}

#[test]
fn every_change_has_its_op_or_is_counted() {
    let mut app = opened(vec![
        paragraph("一", Some("A1")),
        paragraph("二", None),
        paragraph("三", Some("A3")),
        paragraph("四", None),
    ]);
    app.commit_edit(&node("docx:0"), "一改").unwrap();
    app.commit_edit(&node("docx:1"), "二改").unwrap();
    app.delete_block(&node("docx:2"));
    app.delete_block(&node("docx:3"));
    app.add_paragraph();
    let (ops, skipped) = app.pending_ops();
    assert_eq!(
        ops,
        vec![
            DocxOp::SetText {
                path: "/body/p[@paraId=A1]".to_string(),
                find: "一".to_string(),
                replace: "一改".to_string(),
            },
            DocxOp::Remove { path: "/body/p[@paraId=A3]".to_string() },
            DocxOp::Add { after: Some("p[@paraId=A1]".to_string()), text: "新段落".to_string() },
        ]
    );
    assert_eq!(skipped, 2);
}

#[test]
fn stale_edits_are_unticked() {
    let mut app = two_paragraphs();
    assert!(app.untick_stale().is_empty());
    for (id, old) in [("docx:0", "甲"), ("docx:1", "乙")] {
        app.receive_ai_result(AiReply {
            request: AiRequest::Single { node: node(id), old: old.to_string() },
            result: Ok("新".to_string()),
        });
    }
    app.commit_edit(&node("docx:0"), "人改").unwrap();
    assert_eq!(app.untick_stale(), [false, true]);
    let ticks: Vec<bool> =
        app.pending_ai.as_ref().unwrap().changes.iter().map(|c| c.selected).collect();
    assert_eq!(ticks, [false, true]);
    app.accept_ai();
    assert_eq!(app.model.get_text(&node("docx:0")), Some("人改"));
    assert_eq!(app.model.get_text(&node("docx:1")), Some("新"));
}

#[test]
fn paragraphs_without_an_anchor_are_appended_in_order() {
    let mut app = opened(vec![paragraph("前", None)]);
    app.add_paragraph();
    app.add_paragraph();
    app.commit_edit(&node("new:0"), "一").unwrap();
    app.commit_edit(&node("new:1"), "二").unwrap();
    assert_eq!(
        app.pending_ops(),
        (
            vec![
                DocxOp::Add { after: None, text: "一".to_string() },
                DocxOp::Add { after: None, text: "二".to_string() },
            ],
            0
        )
    );
}

#[test]
fn cleaning_proposes_nothing_for_paragraphs_changed_meanwhile() {
    let mut app = opened(vec![paragraph("甲1", Some("P0")), paragraph("乙1", Some("P1"))]);
    app.commit_edit(&node("docx:0"), "人改").unwrap();
    let olds = vec![(node("docx:0"), "甲1".to_string()), (node("docx:1"), "乙1".to_string())];
    app.receive_ai_result(AiReply {
        request: AiRequest::CleanAll { olds: olds.clone() },
        result: Ok("[{\"id\":\"docx:0\",\"new\":\"甲\"}]".to_string()),
    });
    assert!(app.pending_ai.is_none());
    assert_eq!(app.status, "AI 清理建议全部作废；1 条在 AI 思考期间被改过，已作废");
    assert_eq!(app.model.get_text(&node("docx:0")), Some("人改"));

    app.receive_ai_result(AiReply {
        request: AiRequest::CleanAll { olds },
        result: Ok(
            "[{\"id\":\"docx:0\",\"new\":\"甲\"},{\"id\":\"docx:1\",\"new\":\"乙\"},{\"id\":\"z\",\"new\":\"\"}]"
                .to_string(),
        ),
    });
    let p = app.pending_ai.as_ref().unwrap();
    assert_eq!(p.changes.len(), 1);
    assert_eq!(p.changes[0].node, node("docx:1"));
    assert_eq!(
        app.status,
        "AI 清理建议待 review：共 1 条；1 条在 AI 思考期间被改过，已作废；丢弃无效项 1 条"
    );
}

#[test]
fn opening_a_file_leaves_nothing_to_undo_or_save() {
    let mut app = two_paragraphs();
    app.commit_edit(&node("docx:0"), "改").unwrap();
    assert!(!app.approve_restore("/v"));
    let blocks = vec![paragraph("丙", Some("CC")), paragraph("丁", None)];
    app.load_from_backend(&FakeBackend::new(blocks), "/d/z.docx").unwrap();
    assert_eq!(app.loaded_path, Some("/d/z.docx".to_string()));
    assert!(app.undo_stack.is_empty());
    assert!(app.confirm_restore.is_none());
    assert_eq!(app.para_map.get("docx:0"), Some(&"CC".to_string()));
    assert_eq!(app.para_map.get("docx:1"), None);
    assert_eq!(app.body_anchor.get("docx:0"), Some(&"p[@paraId=CC]".to_string()));
    assert!(!app.has_unsaved_changes());
    assert_eq!(app.pending_ops(), (vec![], 0));
    let root = app.model.root().clone();
    assert_eq!(app.model.children(&root).unwrap(), [node("docx:0"), node("docx:1")]);
}
