//! Markdown serializer and parser.

use taino_edit_core::{
    markdown::{parse_markdown, parse_markdown_events, to_markdown, MdEnd, MdEvent, MdTag},
    AttrSpec, AttrValue, Attrs, MarkSpec, Node, NodeSpec, ParseRule, Schema, SchemaBuilder,
};

fn attr_specs(entries: Vec<(&str, AttrValue)>) -> Vec<(String, AttrSpec)> {
    entries
        .into_iter()
        .map(|(k, v)| (k.to_string(), AttrSpec { default: Some(v) }))
        .collect()
}

fn schema() -> Schema {
    SchemaBuilder::new()
        .node(
            "doc",
            NodeSpec {
                content: Some("block+".into()),
                ..Default::default()
            },
        )
        .node(
            "paragraph",
            NodeSpec {
                content: Some("inline*".into()),
                group: Some("block".into()),
                ..Default::default()
            },
        )
        .node(
            "heading",
            NodeSpec {
                content: Some("inline*".into()),
                group: Some("block".into()),
                attrs: attr_specs(vec![("level", AttrValue::from_u64(1))]),
                ..Default::default()
            },
        )
        .node(
            "blockquote",
            NodeSpec {
                content: Some("block+".into()),
                group: Some("block".into()),
                ..Default::default()
            },
        )
        .node(
            "code_block",
            NodeSpec {
                content: Some("text*".into()),
                group: Some("block".into()),
                marks: Some(String::new()),
                ..Default::default()
            },
        )
        .node(
            "list_item",
            NodeSpec {
                content: Some("block+".into()),
                ..Default::default()
            },
        )
        .node(
            "bullet_list",
            NodeSpec {
                content: Some("list_item+".into()),
                group: Some("block".into()),
                ..Default::default()
            },
        )
        .node(
            "ordered_list",
            NodeSpec {
                content: Some("list_item+".into()),
                group: Some("block".into()),
                attrs: attr_specs(vec![("start", AttrValue::from_u64(1))]),
                ..Default::default()
            },
        )
        .node(
            "image",
            NodeSpec {
                group: Some("inline".into()),
                inline: true,
                atom: true,
                attrs: attr_specs(vec![
                    ("src", AttrValue::from_str("")),
                    ("alt", AttrValue::from_str("")),
                ]),
                parse_dom: vec![ParseRule::tag("img")],
                ..Default::default()
            },
        )
        .node(
            "text",
            NodeSpec {
                group: Some("inline".into()),
                ..Default::default()
            },
        )
        .mark("strong", MarkSpec::default())
        .mark("em", MarkSpec::default())
        .mark("code", MarkSpec::default())
        .mark(
            "link",
            MarkSpec {
                attrs: attr_specs(vec![
                    ("href", AttrValue::from_str("")),
                    ("title", AttrValue::Null),
                ]),
                ..Default::default()
            },
        )
        .top_node("doc")
        .build()
        .unwrap()
}

fn p(s: &Schema, text: &str) -> Node {
    let t = s.text(text, vec![]).unwrap();
    s.node("paragraph", Attrs::new(), vec![t], vec![])
        .unwrap()
}

// ---- Serializer tests ----------------------------------------------------

#[test]
fn paragraph_serializes_to_plain_text() {
    let s = schema();
    let doc = s
        .node("doc", Attrs::new(), vec![p(&s, "hello")], vec![])
        .unwrap();
    assert_eq!(to_markdown(&doc).trim_end(), "hello");
}

#[test]
fn heading_emits_hashes() {
    let s = schema();
    let t = s.text("Title", vec![]).unwrap();
    let mut attrs = Attrs::new();
    attrs.insert("level".into(), AttrValue::from_u64(2));
    let h = s.node("heading", attrs, vec![t], vec![]).unwrap();
    let doc = s.node("doc", Attrs::new(), vec![h], vec![]).unwrap();
    assert_eq!(to_markdown(&doc).trim_end(), "## Title");
}

#[test]
fn strong_and_em_emit_stars() {
    let s = schema();
    let strong = s.mark_type("strong").unwrap().clone();
    let em = s.mark_type("em").unwrap().clone();
    let bold_run = s.text("bold", vec![strong.create(Attrs::new())]).unwrap();
    let italic_run = s
        .text(" and italic", vec![em.create(Attrs::new())])
        .unwrap();
    let para = s
        .node(
            "paragraph",
            Attrs::new(),
            vec![bold_run, italic_run],
            vec![],
        )
        .unwrap();
    let doc = s
        .node("doc", Attrs::new(), vec![para], vec![])
        .unwrap();
    let md = to_markdown(&doc);
    assert!(md.contains("**bold**"));
    assert!(md.contains("*and italic*") || md.contains("* and italic*"));
}

#[test]
fn link_round_trips_via_brackets_and_parens() {
    let s = schema();
    let link = s.mark_type("link").unwrap().clone();
    let mut href = Attrs::new();
    href.insert("href".into(), AttrValue::from_str("https://example.com"));
    let run = s.text("click", vec![link.create(href)]).unwrap();
    let para = s
        .node("paragraph", Attrs::new(), vec![run], vec![])
        .unwrap();
    let doc = s
        .node("doc", Attrs::new(), vec![para], vec![])
        .unwrap();
    let md = to_markdown(&doc);
    assert!(md.contains("[click](https://example.com)"), "got: {md}");
}

#[test]
fn bullet_list_emits_dash_prefix() {
    let s = schema();
    let item = |t: &str| {
        s.node("list_item", Attrs::new(), vec![p(&s, t)], vec![])
            .unwrap()
    };
    let ul = s
        .node(
            "bullet_list",
            Attrs::new(),
            vec![item("a"), item("b")],
            vec![],
        )
        .unwrap();
    let doc = s.node("doc", Attrs::new(), vec![ul], vec![]).unwrap();
    let md = to_markdown(&doc);
    assert!(md.contains("- a\n"), "got: {md}");
    assert!(md.contains("- b\n"), "got: {md}");
}

#[test]
fn ordered_list_emits_numeric_prefix() {
    let s = schema();
    let item = |t: &str| {
        s.node("list_item", Attrs::new(), vec![p(&s, t)], vec![])
            .unwrap()
    };
    let ol = s
        .node(
            "ordered_list",
            Attrs::new(),
            vec![item("a"), item("b"), item("c")],
            vec![],
        )
        .unwrap();
    let doc = s.node("doc", Attrs::new(), vec![ol], vec![]).unwrap();
    let md = to_markdown(&doc);
    assert!(md.contains("1. a"), "got: {md}");
    assert!(md.contains("2. b"), "got: {md}");
    assert!(md.contains("3. c"), "got: {md}");
}

#[test]
fn blockquote_lines_prefixed_with_greater_than() {
    let s = schema();
    let bq = s
        .node(
            "blockquote",
            Attrs::new(),
            vec![p(&s, "quoted")],
            vec![],
        )
        .unwrap();
    let doc = s.node("doc", Attrs::new(), vec![bq], vec![]).unwrap();
    let md = to_markdown(&doc);
    assert!(md.contains("> quoted"), "got: {md}");
}

#[test]
fn code_block_uses_fenced_triple_backtick() {
    let s = schema();
    let t = s.text("let x = 1;", vec![]).unwrap();
    let cb = s
        .node("code_block", Attrs::new(), vec![t], vec![])
        .unwrap();
    let doc = s.node("doc", Attrs::new(), vec![cb], vec![]).unwrap();
    let md = to_markdown(&doc);
    assert!(md.contains("```\nlet x = 1;\n```"), "got: {md}");
}

#[test]
fn image_emits_bang_link_form() {
    let s = schema();
    let mut a = Attrs::new();
    a.insert("src".into(), AttrValue::from_str("x.png"));
    a.insert("alt".into(), AttrValue::from_str("an X"));
    let img = s.node("image", a, vec![], vec![]).unwrap();
    let para = s
        .node("paragraph", Attrs::new(), vec![img], vec![])
        .unwrap();
    let doc = s
        .node("doc", Attrs::new(), vec![para], vec![])
        .unwrap();
    let md = to_markdown(&doc);
    assert!(md.contains("![an X](x.png)"), "got: {md}");
}

// ---- Parser tests --------------------------------------------------------

#[test]
fn parse_plain_paragraph() {
    let s = schema();
    let doc = parse_markdown(&s, "hello world").unwrap();
    assert_eq!(doc.child(0).node_type().name(), "paragraph");
    assert_eq!(doc.text_content(), "hello world");
}

#[test]
fn parse_heading_levels() {
    let s = schema();
    let doc = parse_markdown(&s, "# H1\n\n## H2\n\n### H3\n").unwrap();
    assert_eq!(doc.child_count(), 3);
    for (i, expected) in [(0, 1u64), (1, 2), (2, 3)] {
        let child = doc.child(i);
        assert_eq!(child.node_type().name(), "heading");
        assert_eq!(child.attrs().get("level"), Some(&AttrValue::from_u64(expected)));
    }
}

#[test]
fn parse_bold_and_italic() {
    let s = schema();
    let doc = parse_markdown(&s, "**bold** and *em*").unwrap();
    let kids: Vec<&str> = doc
        .child(0)
        .content()
        .iter()
        .map(|n| n.text().unwrap_or(""))
        .collect();
    assert!(kids.contains(&"bold"));
    assert!(kids.contains(&"em"));
}

#[test]
fn parse_link() {
    let s = schema();
    let doc = parse_markdown(&s, "[click](https://example.com)").unwrap();
    let txt = doc.child(0).child(0);
    let marks = txt.marks();
    assert!(marks.iter().any(|m| m.mark_type().name() == "link"
        && m.attrs().get("href") == Some(&AttrValue::from_str("https://example.com"))));
}

#[test]
fn parse_bullet_list() {
    let s = schema();
    let doc = parse_markdown(&s, "- a\n- b\n").unwrap();
    let ul = doc.child(0);
    assert_eq!(ul.node_type().name(), "bullet_list");
    assert_eq!(ul.child_count(), 2);
}

#[test]
fn parse_ordered_list() {
    let s = schema();
    let doc = parse_markdown(&s, "1. a\n2. b\n").unwrap();
    let ol = doc.child(0);
    assert_eq!(ol.node_type().name(), "ordered_list");
    assert_eq!(ol.child_count(), 2);
}

#[test]
fn parse_blockquote() {
    let s = schema();
    let doc = parse_markdown(&s, "> quoted\n").unwrap();
    assert_eq!(doc.child(0).node_type().name(), "blockquote");
}

#[test]
fn parse_code_block() {
    let s = schema();
    let doc = parse_markdown(&s, "```\nlet x = 1;\n```\n").unwrap();
    let cb = doc.child(0);
    assert_eq!(cb.node_type().name(), "code_block");
    assert_eq!(cb.text_content(), "let x = 1;\n");
}

#[test]
fn round_trip_paragraph_with_bold() {
    let s = schema();
    let doc = parse_markdown(&s, "**hi**").unwrap();
    let md = to_markdown(&doc);
    assert!(md.trim_end().contains("**hi**"), "got: {md}");
}

#[test]
fn round_trip_heading() {
    let s = schema();
    let doc = parse_markdown(&s, "## Title").unwrap();
    let md = to_markdown(&doc);
    assert_eq!(md.trim_end(), "## Title");
}

#[test]
fn round_trip_bullet_list() {
    let s = schema();
    let doc = parse_markdown(&s, "- a\n- b\n").unwrap();
    let md = to_markdown(&doc);
    assert!(md.contains("- a"));
    assert!(md.contains("- b"));
}

#[test]
fn parse_inline_code_applies_code_mark() {
    let s = schema();
    let doc = parse_markdown(&s, "run `cargo test` now").unwrap();
    // The "cargo test" run carries the code mark.
    let para = doc.child(0);
    let coded = para
        .content()
        .iter()
        .find(|n| n.text() == Some("cargo test"))
        .expect("the code run is present");
    assert!(
        coded.marks().iter().any(|m| m.mark_type().name() == "code"),
        "inline code should carry the code mark"
    );
}

#[test]
fn round_trip_inline_code() {
    let s = schema();
    let doc = parse_markdown(&s, "use `x` here").unwrap();
    let md = to_markdown(&doc);
    assert!(
        md.contains("`x`"),
        "inline code round-trips to backticks: {md}"
    );
    // And the literal text inside backticks is not markdown-escaped.
    let doc2 = parse_markdown(&s, "call `a*b`").unwrap();
    let md2 = to_markdown(&doc2);
    assert!(md2.contains("`a*b`"), "code content stays literal: {md2}");
}

// ---- Further serializer and parser cases -----------------------------------

fn doc_of(s: &Schema, blocks: Vec<Node>) -> Node {
    s.node("doc", Attrs::new(), blocks, vec![]).unwrap()
}

#[test]
fn whole_document_serializes_exactly() {
    let s = schema();
    let strong = s.mark_type("strong").unwrap().create(Attrs::new());
    let para = s
        .node(
            "paragraph",
            Attrs::new(),
            vec![
                s.text("a ", vec![]).unwrap(),
                s.text("b", vec![strong]).unwrap(),
                s.text(" c*d", vec![]).unwrap(),
            ],
            vec![],
        )
        .unwrap();
    let quote = s
        .node("blockquote", Attrs::new(), vec![p(&s, "one"), p(&s, "two")], vec![])
        .unwrap();
    let doc = doc_of(&s, vec![para, quote]);
    assert_eq!(to_markdown(&doc), "a **b** c\\*d\n\n> one\n>\n> two\n");
}

#[test]
fn empty_paragraph_leaves_a_single_newline() {
    let s = schema();
    let empty = s.node("paragraph", Attrs::new(), vec![], vec![]).unwrap();
    let doc = doc_of(&s, vec![empty]);
    assert_eq!(to_markdown(&doc), "\n");
}

#[test]
fn ordered_list_counts_from_its_start() {
    let s = schema();
    let item = |t: &str| s.node("list_item", Attrs::new(), vec![p(&s, t)], vec![]).unwrap();
    let mut a = Attrs::new();
    a.insert("start".into(), AttrValue::from_u64(9));
    let ol = s.node("ordered_list", a, vec![item("x"), item("y")], vec![]).unwrap();
    assert_eq!(to_markdown(&doc_of(&s, vec![ol])), "9. x\n10. y\n");
}

#[test]
fn list_item_blocks_after_the_first_are_indented() {
    let s = schema();
    let li = s
        .node("list_item", Attrs::new(), vec![p(&s, "first"), p(&s, "second")], vec![])
        .unwrap();
    let ul = s.node("bullet_list", Attrs::new(), vec![li], vec![]).unwrap();
    assert_eq!(to_markdown(&doc_of(&s, vec![ul])), "- first\n  second\n");
}

#[test]
fn inline_code_with_backticks_gets_a_longer_fence() {
    let s = schema();
    let code = s.mark_type("code").unwrap().create(Attrs::new());
    let run = s.text("a`b", vec![code]).unwrap();
    let para = s.node("paragraph", Attrs::new(), vec![run], vec![]).unwrap();
    assert_eq!(to_markdown(&doc_of(&s, vec![para])), "`` a`b ``\n");
}

#[test]
fn heading_levels_are_capped_at_six() {
    let s = schema();
    let mut a = Attrs::new();
    a.insert("level".into(), AttrValue::from_u64(9));
    let h = s.node("heading", a, vec![s.text("Deep", vec![]).unwrap()], vec![]).unwrap();
    assert_eq!(to_markdown(&doc_of(&s, vec![h])), "###### Deep\n");
}

#[test]
fn parse_result_that_breaks_the_schema_is_refused() {
    let s = schema();
    // A heading inside a blockquote is read whole.
    let doc = parse_markdown(&s, "> # Title\n").unwrap();
    assert_eq!(doc.child(0).node_type().name(), "blockquote");
    assert_eq!(doc.child(0).child(0).node_type().name(), "heading");
    // An empty document has no block, which `block+` refuses.
    assert!(parse_markdown(&s, "").is_err());
}

#[test]
fn events_build_the_same_document_as_text() {
    let s = schema();
    let events = vec![
        MdEvent::Start(MdTag::Heading(2)),
        MdEvent::Text("Title".to_string()),
        MdEvent::End(MdEnd::Heading),
        MdEvent::Start(MdTag::Paragraph),
        MdEvent::Start(MdTag::Strong),
        MdEvent::Text("hi".to_string()),
        MdEvent::End(MdEnd::Strong),
        MdEvent::End(MdEnd::Paragraph),
    ];
    let from_events = parse_markdown_events(&s, &events).unwrap();
    let from_text = parse_markdown(&s, "## Title\n\n**hi**\n").unwrap();
    assert_eq!(from_events, from_text);
    assert_eq!(to_markdown(&from_events), "## Title\n\n**hi**\n");
}
