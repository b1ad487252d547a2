//! Talking to `officecli`: what its views and batches come to.
use polaris::office::{
    assemble_views, batch_result, build_batch, html_payloads, keep_present, launch_failure,
    parse_blocks, parse_failure, parse_html_images, parse_image_paras, parse_para_id, read_view,
    truncate_chars, ToolOutput,
};
use polaris::{import_blocks, DocumentModel, DocxBlock, DocxOp, NodeId, Op, ProseModel, Target};
use serde_json::Value;

fn value(text: &str) -> Value {
    serde_json::from_str(text).unwrap()
}

fn output(success: bool, stdout: &str, stderr: &str) -> ToolOutput {
    ToolOutput { success, stdout: stdout.as_bytes().to_vec(), stderr: stderr.to_string() }
}

#[test]
fn views_are_json_or_an_error() {
    let v = read_view("text", &output(true, "{\"data\": [1, \"x\"]}", "")).unwrap();
    assert_eq!(v, value("{\"data\": [1, \"x\"]}"));
    let failed = read_view("outline", &output(false, "{}", "  no such file\n"));
    assert_eq!(failed, Err("officecli view outline 退出码非零: no such file".to_string()));
    let garbled = read_view("text", &output(true, "{", ""));
    let why = serde_json::from_str::<Value>("{").unwrap_err().to_string();
    assert_eq!(garbled, Err(parse_failure("text", &why)));
    assert_eq!(parse_failure("text", "w"), "officecli text --json 解析失败: w");
    assert_eq!(
        launch_failure("officecli", "not found"),
        "启动 officecli 失败（officecli 装了吗？在 PATH 上吗？）: not found"
    );
}

#[test]
fn views_that_are_not_utf8_are_errors() {
    let run = ToolOutput { success: true, stdout: vec![b'"', 0xff, b'"'], stderr: String::new() };
    assert!(read_view("text", &run).is_err());
}

#[test]
fn views_come_together_with_pictures() {
    let text = value(
        "{\"data\": {\"elements\": [
            {\"type\": \"paragraph\", \"path\": \"/body/p[@paraId=A1]\", \"text\": \"标题\"},
            {\"type\": \"paragraph\", \"path\": \"/body/p[@paraId=B2]\", \"text\": \"\"}
        ]}}",
    );
    let outline =
        value("{\"data\": {\"headings\": [{\"line\": 1, \"level\": 2, \"text\": \"标题\"}]}}");
    let annotated = value(
        "{\"data\": {\"content\": \"[/body/p[@paraId=B2]] [Image: alt=\\\"pic\\\", 1cm\\u00d71cm]\"}}",
    );
    let html = value("{\"data\": \"<img src=\\\"data:image/png;base64,AQID\\\">\"}");
    let without = assemble_views(&text, &outline, &annotated, None).unwrap();
    let with = assemble_views(&text, &outline, &annotated, Some(&html)).unwrap();
    assert_eq!(without.len(), 2);
    assert_eq!(with.len(), 2);
    assert_eq!(with[0], without[0]);
    assert_eq!(
        with[0],
        DocxBlock::Heading {
            level: 2,
            text: "标题".to_string(),
            para_id: Some("A1".to_string()),
        }
    );
    match (&with[1], &without[1]) {
        (
            DocxBlock::Unstructured { image: shown, para_id, raw, .. },
            DocxBlock::Unstructured { image: missing, .. },
        ) => {
            assert_eq!(shown, &Some(vec![1, 2, 3]));
            assert_eq!(missing, &None);
            assert_eq!(para_id, &Some("B2".to_string()));
            assert!(raw.contains("pic"));
        }
        other => panic!("{other:?}"),
    }
}

#[test]
fn a_view_without_elements_cannot_be_read() {
    let empty = value("{}");
    assert!(parse_blocks(&empty, &empty).is_err());
    assert!(assemble_views(&empty, &empty, &empty, None).is_err());
}

#[test]
fn every_element_becomes_a_block() {
    let text = value(
        "{\"data\": {\"elements\": [
            {\"path\": \"/body/p[1]\", \"text\": \"a\"},
            {\"path\": \"/body/tbl[1]\", \"text\": \"t\"},
            {}
        ]}}",
    );
    let blocks = parse_blocks(&text, &value("{\"data\": {}}")).unwrap();
    let element = |raw: &str, anchor: Option<&str>| DocxBlock::Unstructured {
        kind: String::new(),
        raw: raw.to_string(),
        para_id: None,
        image: None,
        anchor: anchor.map(|a| a.to_string()),
    };
    assert_eq!(
        blocks,
        vec![element("a", Some("p[1]")), element("t", Some("tbl[1]")), element("", None)]
    );
}

#[test]
fn batches_read_back_as_the_same_commands() {
    let ops = vec![
        DocxOp::SetText {
            path: "/body/p[@paraId=A]".to_string(),
            find: "旧\"\\\n".to_string(),
            replace: "new".to_string(),
        },
        DocxOp::Remove { path: "/body/p[@paraId=B]".to_string() },
        DocxOp::Add { after: None, text: "t".to_string() },
        DocxOp::Add { after: Some("/body/tbl[1]".to_string()), text: "u".to_string() },
    ];
    let read = value(&build_batch(&ops));
    let list = read.as_array().unwrap();
    assert_eq!(list.len(), 4);
    assert_eq!(list[0]["command"].as_str(), Some("set"));
    assert_eq!(list[0]["props"]["find"].as_str(), Some("旧\"\\\n"));
    assert_eq!(list[0]["props"]["replace"].as_str(), Some("new"));
    assert_eq!(list[1]["command"].as_str(), Some("remove"));
    assert_eq!(list[1]["path"].as_str(), Some("/body/p[@paraId=B]"));
    assert_eq!(list[2]["command"].as_str(), Some("add"));
    assert_eq!(list[2]["props"]["text"].as_str(), Some("t"));
    assert!(list[2].get("after").is_none());
    assert_eq!(list[3]["after"].as_str(), Some("/body/tbl[1]"));
    assert_eq!(build_batch(&[]), "[]");
}

#[test]
fn batch_output_tells_success_from_partial_failure() {
    assert_eq!(batch_result(true, "x\nBatch complete: 3 ok, 0 failed\n", ""), Ok(()));
    assert_eq!(batch_result(true, "", "noise"), Ok(()));
    for failed in [1, 9, 10, 20, 100, 1000] {
        let line = format!("Batch complete: 30 succeeded, {failed} failed");
        assert_eq!(batch_result(true, &line, ""), Err(format!("部分改动未写回: {line}")));
    }
    for done in [0, 1, 10, 100] {
        let line = format!("Batch complete: {done} succeeded, 0 failed");
        assert_eq!(batch_result(true, &line, ""), Ok(()));
    }
    assert_eq!(batch_result(true, "0 failed: Batch complete", ""), Ok(()));
    assert_eq!(
        batch_result(true, "  Batch complete: 2 ok, 1 failed \r\nBatch complete: 0 failed", ""),
        Err("部分改动未写回: Batch complete: 2 ok, 1 failed".to_string())
    );
    assert_eq!(
        batch_result(false, "Batch complete: 0 failed", " bad \n"),
        Err("officecli batch 退出码非零: bad".to_string())
    );
}

#[test]
fn pictures_that_do_not_decode_are_left_out() {
    let html = "<img src=\"data:image/png;base64,AQID\"><img src='x.png'><img src=\"data:image/png;base64,***\"><img src=\"data:image/gif;base64,/w==\">";
    assert_eq!(html_payloads(html).len(), 3);
    assert_eq!(parse_html_images(html), vec![vec![1, 2, 3], vec![255]]);
    assert_eq!(keep_present(vec![None, Some(vec![1]), None]), vec![vec![1]]);
}

#[test]
fn image_lines_without_a_path_are_ignored() {
    assert!(parse_image_paras("").is_empty());
    assert!(parse_image_paras("[Image: alt=\"x\"]").is_empty());
}

#[test]
fn identities_and_cuts() {
    assert_eq!(parse_para_id("/body/p[@paraId=00AB]/r[1]"), Some("00AB".to_string()));
    assert_eq!(parse_para_id("/body/p[3]"), None);
    assert_eq!(truncate_chars("语言文字", 2), "语言…");
    assert_eq!(truncate_chars("语言", 2), "语言");
}

#[test]
fn import_stops_at_a_taken_id_and_keeps_what_came_before() {
    let mut m = ProseModel::new();
    let root = m.root().clone();
    m.insert("docx:2", "in the way");
    let blocks = vec![
        DocxBlock::Paragraph { text: "a".to_string(), para_id: None },
        DocxBlock::Heading { level: 1, text: "b".to_string(), para_id: None },
    ];
    let result = import_blocks(&mut m, &blocks);
    assert_eq!(result, Err("import block 1: DuplicateNode(NodeId(\"docx:2\"))".to_string()));
    assert_eq!(m.get_text(&NodeId("docx:1".to_string())), Some("a"));
    assert_eq!(m.children(&root).unwrap().len(), 2);
    m.apply_op(&Target::Node(root.clone()), &Op::RemoveNode { id: NodeId("docx:1".to_string()) })
        .unwrap();
    assert_eq!(m.children(&root).unwrap().len(), 1);
}

#[test]
fn import_gives_one_node_for_each_block() {
    let mut m = ProseModel::new();
    let blocks: Vec<DocxBlock> = (0..12)
        .map(|i| DocxBlock::Paragraph { text: format!("p{i}"), para_id: None })
        .collect();
    let ids = import_blocks(&mut m, &blocks).unwrap();
    assert_eq!(ids.len(), 12);
    assert_eq!(ids[11], NodeId("docx:11".to_string()));
    for (i, id) in ids.iter().enumerate() {
        assert_eq!(m.get_text(id), Some(format!("p{i}").as_str()));
    }
}
