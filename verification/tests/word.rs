//! Word documents: blocks, imports, what `officecli` prints and what it is told.
use polaris::office::{
    apply_image_paras, attach_images, build_batch, pair_images, parse_blocks, parse_html_images,
    parse_image_paras, parse_para_id,
};
use polaris::textmap::TextMap;
use polaris::{
    import_blocks, import_docx, render_html, DocumentModel, DocxBlock, DocxOp, FakeBackend, NodeId,
    NodeKind, ProseModel,
};
use serde_json::Value;

fn json(text: &str) -> Value {
    serde_json::from_str(text).unwrap()
}

fn import(blocks: Vec<DocxBlock>) -> ProseModel {
    let mut m = ProseModel::new();
    let backend = FakeBackend::new(blocks);
    import_docx(&backend, "ignored.docx", &mut m).unwrap();
    m
}

#[test]
fn maps_heading_and_paragraph_and_views() {
    let m = import(vec![
        DocxBlock::Heading { level: 1, text: "Intro".to_string(), para_id: None },
        DocxBlock::Paragraph { text: "Hello world".to_string(), para_id: None },
    ]);

    assert_eq!(m.get_text(&NodeId("docx:0".to_string())), Some("Intro"));
    assert_eq!(m.node_kind(&NodeId("docx:0".to_string())), Some(NodeKind::Heading { level: 1 }));
    assert_eq!(m.get_text(&NodeId("docx:1".to_string())), Some("Hello world"));
    assert_eq!(m.node_kind(&NodeId("docx:1".to_string())), Some(NodeKind::Paragraph));

    let r = render_html(&m);
    assert_eq!(
        r.html,
        "<h1 data-node=\"docx:0\">Intro</h1><p data-node=\"docx:1\">Hello world</p>"
    );
}

#[test]
fn unstructured_is_visible_not_dropped() {
    let m = import(vec![
        DocxBlock::Heading { level: 2, text: "Sec".to_string(), para_id: None },
        DocxBlock::Unstructured { kind: "table".to_string(), raw: "A | B".to_string(), para_id: None, image: None, anchor: None },
        DocxBlock::Paragraph { text: "after".to_string(), para_id: None },
    ]);

    assert_eq!(m.node_kind(&NodeId("docx:1".to_string())), Some(NodeKind::Opaque));
    let r = render_html(&m);

    assert_eq!(
        r.html,
        "<h2 data-node=\"docx:0\">Sec</h2><pre data-node=\"docx:1\">A | B</pre><p data-node=\"docx:2\">after</p>"
    );

    assert_eq!(r.source_map.spans.len(), 2);
}

#[test]
fn import_appends_in_document_order() {
    let mut m = ProseModel::new();
    let ids1 = import_docx(
        &FakeBackend::new(vec![DocxBlock::Paragraph { text: "one".to_string(), para_id: None }]),
        "a.docx",
        &mut m,
    )
    .unwrap();
    let ids2 = import_docx(
        &FakeBackend::new(vec![DocxBlock::Paragraph { text: "two".to_string(), para_id: None }]),
        "b.docx",
        &mut m,
    )
    .unwrap();
    assert_eq!(ids1, vec![NodeId("docx:0".to_string())]);
    assert_eq!(ids2, vec![NodeId("docx:1".to_string())]);
    let r = render_html(&m);
    assert_eq!(r.html, "<p data-node=\"docx:0\">one</p><p data-node=\"docx:1\">two</p>");
}

#[test]
fn cjk_heading_imports_and_renders() {
    let m = import(vec![DocxBlock::Heading { level: 1, text: "标题".to_string(), para_id: None }]);
    let r = render_html(&m);
    assert_eq!(r.html, "<h1 data-node=\"docx:0\">标题</h1>");
}

#[test]
fn parse_para_id_extracts_identity() {
    assert_eq!(parse_para_id("/body/p[@paraId=00100000]"), Some("00100000".to_string()));
    assert_eq!(parse_para_id("/body/p[3]"), None);
    assert_eq!(parse_para_id("/body/tbl[1]"), None);
}

#[test]
fn parse_blocks_merges_text_and_outline() {
    let text = json(r#"{
        "success": true,
        "data": { "elements": [
            { "path": "/body/p[1]", "type": "paragraph", "text": "Title" },
            { "path": "/body/p[2]", "type": "paragraph", "text": "一、节" },
            { "path": "/body/p[3]", "type": "paragraph", "text": "body text" },
            { "path": "/body/p[4]", "type": "paragraph", "text": "" },
            { "path": "/body/tbl[1]", "type": "table", "text": "r1c1 r1c2" }
        ]}
    }"#);
    let outline = json(r#"{
        "success": true,
        "data": { "headings": [
            { "line": 1, "text": "Title", "level": 1 },
            { "line": 2, "text": "一、节", "level": 2 }
        ]}
    }"#);
    let blocks = parse_blocks(&text, &outline).unwrap();
    assert_eq!(
        blocks,
        vec![
            DocxBlock::Heading { level: 1, text: "Title".to_string(), para_id: None },
            DocxBlock::Heading { level: 2, text: "一、节".to_string(), para_id: None },
            DocxBlock::Paragraph { text: "body text".to_string(), para_id: None },
            DocxBlock::Paragraph { text: "".to_string(), para_id: None },
            DocxBlock::Unstructured { kind: "table".to_string(), raw: "r1c1 r1c2".to_string(), para_id: None, image: None, anchor: Some("tbl[1]".to_string()) },
        ]
    );
}

#[test]
fn parse_blocks_para_id_paths_with_table_between() {
    let text = json(r#"{"data":{"elements":[
        {"path":"/body/p[@paraId=AA]","type":"paragraph","text":"总标题"},
        {"path":"/body/p[@paraId=BB]","type":"paragraph","text":"前段"},
        {"path":"/body/tbl[1]","type":"table","text":"[Table: 1 rows]"},
        {"path":"/body/p[@paraId=CC]","type":"paragraph","text":"表格后的节标题"},
        {"path":"/body/p[@paraId=DD]","type":"paragraph","text":"后段"}
    ]}}"#);
    let outline = json(r#"{"data":{"headings":[
        {"line":1,"level":1,"text":"总标题"},
        {"line":3,"level":2,"text":"表格后的节标题"}
    ]}}"#);
    let blocks = parse_blocks(&text, &outline).unwrap();
    assert_eq!(
        blocks,
        vec![
            DocxBlock::Heading { level: 1, text: "总标题".to_string(), para_id: Some("AA".to_string()) },
            DocxBlock::Paragraph { text: "前段".to_string(), para_id: Some("BB".to_string()) },

            DocxBlock::Unstructured { kind: "table".to_string(), raw: "[Table: 1 rows]".to_string(), para_id: None, image: None, anchor: Some("tbl[1]".to_string()) },
            DocxBlock::Heading { level: 2, text: "表格后的节标题".to_string(), para_id: Some("CC".to_string()) },
            DocxBlock::Paragraph { text: "后段".to_string(), para_id: Some("DD".to_string()) },
        ]
    );

    assert_eq!(blocks[1].body_anchor(), Some("p[@paraId=BB]".to_string()));
    assert_eq!(blocks[2].body_anchor(), Some("tbl[1]".to_string()));
}

#[test]
fn parse_blocks_then_import_and_render() {
    let text = json(r#"{"data":{"elements":[
        {"path":"/body/p[@paraId=AA]","type":"paragraph","text":"标题"},
        {"path":"/body/p[@paraId=BB]","type":"paragraph","text":"正文"}
    ]}}"#);
    let outline = json(r#"{"data":{"headings":[{"line":1,"level":1,"text":"标题"}]}}"#);
    let blocks = parse_blocks(&text, &outline).unwrap();
    let mut m = ProseModel::new();
    import_blocks(&mut m, &blocks).unwrap();
    let r = render_html(&m);
    assert_eq!(r.html, "<h1 data-node=\"docx:0\">标题</h1><p data-node=\"docx:1\">正文</p>");
}

#[test]
fn parse_blocks_missing_elements_errors_not_panics() {
    let bad = json(r#"{ "success": false }"#);
    assert!(parse_blocks(&bad, &bad).is_err());
}

#[test]
fn parse_image_paras_handles_multiline_alt() {
    let annotated = "[/body/p[@paraId=00100008]] 「333333」 ← First Paragraph | 宋体 12pt bold\n\
                     [/body/p[@paraId=5B163514]] [Image: alt=\"表格\n\
                     \n\
                     AI 生成的内容可能不正确。\", 15.2cm×18.8cm] ← Body Text\n\
                     [/body/p[@paraId=0010000A]] 「」 ← Normal | 宋体 12pt\n\
                     [/body/p[@paraId=AABBCC01]] [Image: alt=\"logo\", 2cm×2cm] ← Body Text\n";
    let images = parse_image_paras(annotated);
    assert_eq!(images.len(), 2);
    assert_eq!(images[0].0, "5B163514");
    assert!(images[0].1.starts_with("alt=\"表格"));
    assert!(images[0].1.contains("15.2cm×18.8cm"));
    assert_eq!(images[1], ("AABBCC01".to_string(), "alt=\"logo\", 2cm×2cm".to_string()));
}

#[test]
fn apply_image_paras_makes_pure_image_paragraph_visible() {
    let images = vec![("IMG1".to_string(), "alt=\"图\", 1cm×1cm".to_string())];
    let blocks = vec![
        DocxBlock::Paragraph { text: "有字".to_string(), para_id: Some("IMG1".to_string()) },
        DocxBlock::Paragraph { text: "".to_string(), para_id: Some("IMG1".to_string()) },
        DocxBlock::Paragraph { text: "".to_string(), para_id: Some("EMPTY".to_string()) },
        DocxBlock::Paragraph { text: "".to_string(), para_id: None },
    ];
    let out = apply_image_paras(blocks, &images);
    assert_eq!(out[0], DocxBlock::Paragraph { text: "有字".to_string(), para_id: Some("IMG1".to_string()) });
    assert_eq!(
        out[1],
        DocxBlock::Unstructured {
            kind: "image".to_string(),
            raw: "alt=\"图\", 1cm×1cm".to_string(),
            para_id: Some("IMG1".to_string()),
            image: None,
            anchor: None,
        }
    );
    assert_eq!(out[2], DocxBlock::Paragraph { text: "".to_string(), para_id: Some("EMPTY".to_string()) });
    assert_eq!(out[3], DocxBlock::Paragraph { text: "".to_string(), para_id: None });
}

#[test]
fn pure_image_paragraph_renders_as_visible_placeholder() {
    let images = vec![("X1".to_string(), "alt=\"产品图\"".to_string())];
    let blocks = apply_image_paras(
        vec![
            DocxBlock::Paragraph { text: "前".to_string(), para_id: Some("AA".to_string()) },
            DocxBlock::Paragraph { text: "".to_string(), para_id: Some("X1".to_string()) },
            DocxBlock::Paragraph { text: "后".to_string(), para_id: Some("BB".to_string()) },
        ],
        &images,
    );
    let mut m = ProseModel::new();
    import_blocks(&mut m, &blocks).unwrap();
    let r = render_html(&m);
    assert_eq!(
        r.html,
        "<p data-node=\"docx:0\">前</p><pre data-node=\"docx:1\">alt=\"产品图\"</pre><p data-node=\"docx:2\">后</p>"
    );
}

#[test]
fn parse_html_images_decodes_data_uris_in_order() {
    let html = r#"<html><body>
        <img src="data:image/png;base64,UDE=" alt="第一张"/>
        <img src="https://example.com/x.png"/>
        <img src="data:image/jpeg;base64,@@bad@@"/>
        <p>正文</p>
        <img src='data:image/png;base64,UDI='/>
    </body></html>"#;
    let imgs = parse_html_images(html);
    assert_eq!(imgs, vec![b"P1".to_vec(), b"P2".to_vec()]);
}

#[test]
fn pair_images_zips_by_document_order_and_tolerates_mismatch() {
    let ordered = vec![
        ("AA".to_string(), "x".to_string()),
        ("BB".to_string(), "y".to_string()),
        ("CC".to_string(), "z".to_string()),
    ];

    let map = pair_images(&ordered, vec![b"1".to_vec(), b"2".to_vec()]);
    assert_eq!(map.len(), 2);
    assert_eq!(map.get("AA"), Some(&b"1".to_vec()));
    assert_eq!(map.get("BB"), Some(&b"2".to_vec()));
    assert!(!map.contains_key("CC"));
}

#[test]
fn attach_images_fills_matching_opaque_blocks_only() {
    let mut map: TextMap<Vec<u8>> = TextMap::new();
    map.insert("IMG".to_string(), b"PNGBYTES".to_vec());
    let blocks = vec![
        DocxBlock::Paragraph { text: "前".to_string(), para_id: Some("AA".to_string()) },
        DocxBlock::Unstructured {
            kind: "image".to_string(),
            raw: "alt".to_string(),
            para_id: Some("IMG".to_string()),
            image: None,
            anchor: None,
        },

        DocxBlock::Unstructured { kind: "table".to_string(), raw: "[T]".to_string(), para_id: None, image: None, anchor: None },

        DocxBlock::Unstructured {
            kind: "image".to_string(),
            raw: "alt2".to_string(),
            para_id: Some("MISSING".to_string()),
            image: None,
            anchor: None,
        },
    ];
    let out = attach_images(blocks, &map);
    assert!(matches!(&out[1], DocxBlock::Unstructured { image: Some(b), .. } if b == b"PNGBYTES"));
    assert!(matches!(&out[2], DocxBlock::Unstructured { image: None, .. }));
    assert!(matches!(&out[3], DocxBlock::Unstructured { image: None, .. }));
}

#[test]
fn build_batch_emits_set_remove_add() {
    let ops = vec![
        DocxOp::SetText { path: "/body/p[@paraId=AA]".to_string(), find: "旧".to_string(), replace: "新".to_string() },
        DocxOp::Remove { path: "/body/p[@paraId=BB]".to_string() },
        DocxOp::Add { after: Some("p[@paraId=AA]".to_string()), text: "插段".to_string() },
        DocxOp::Add { after: None, text: "尾段".to_string() },
    ];
    let json = build_batch(&ops);
    let v: serde_json::Value = serde_json::from_str(&json).unwrap();
    assert_eq!(v.as_array().unwrap().len(), 4);
    assert_eq!(v[0]["command"], "set");
    assert_eq!(v[0]["path"], "/body/p[@paraId=AA]");
    assert_eq!(v[0]["props"]["replace"], "新");
    assert_eq!(v[1]["command"], "remove");
    assert_eq!(v[1]["path"], "/body/p[@paraId=BB]");
    assert_eq!(v[2]["command"], "add");
    assert_eq!(v[2]["after"], "p[@paraId=AA]");
    assert_eq!(v[2]["props"]["text"], "插段");
    assert!(v[3].get("after").is_none());
    assert_eq!(v[3]["props"]["text"], "尾段");
}
