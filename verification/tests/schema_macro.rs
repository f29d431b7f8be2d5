//! Compact schema declarations: a spec built field by field from
//! `NodeSpec::default()` gives the same schema as one written out in full,
//! and each supported key wires through.

use taino_edit_core::{AttrSpec, AttrValue, Attrs, DomSpec, MarkSpec, NodeSpec, ParseRule, Schema, SchemaBuilder};

/// Build the same schema by hand for an equivalence check.
fn built_by_hand() -> Schema {
    SchemaBuilder::new()
        .node(
            "doc",
            NodeSpec {
                content: Some("block+".into()),
                ..Default::default()
            },
        )
        .node(
            "paragraph",
            NodeSpec {
                content: Some("inline*".into()),
                group: Some("block".into()),
                to_dom: Some(DomSpec::element("p")),
                ..Default::default()
            },
        )
        .node(
            "text",
            NodeSpec {
                group: Some("inline".into()),
                ..Default::default()
            },
        )
        .top_node("doc")
        .build()
        .unwrap()
}

/// A node spec with only `content` set.
fn with_content(content: &str) -> NodeSpec {
    let mut s = NodeSpec::default();
    s.content = Some(content.into());
    s
}

#[test]
fn macro_matches_the_hand_built_builder() {
    let mut doc = NodeSpec::default();
    doc.content = Some("block+".into());
    let mut paragraph = NodeSpec::default();
    paragraph.content = Some("inline*".into());
    paragraph.group = Some("block".into());
    paragraph.to_dom = Some(DomSpec::element("p"));
    let mut text = NodeSpec::default();
    text.group = Some("inline".into());
    let by_macro = SchemaBuilder::new()
        .top_node("doc")
        .node("doc", doc)
        .node("paragraph", paragraph)
        .node("text", text)
        .build()
        .unwrap();

    let by_hand = built_by_hand();

    // Same node types, in the same declaration order.
    let names: Vec<&str> = by_macro.node_types().iter().map(|n| n.name()).collect();
    let hand_names: Vec<&str> = by_hand.node_types().iter().map(|n| n.name()).collect();
    assert_eq!(names, hand_names);
    assert_eq!(by_macro.top_node_type().name(), "doc");

    // And it produces a usable schema: a paragraph renders to <p>.
    let p = by_macro
        .node(
            "paragraph",
            Attrs::new(),
            vec![by_macro.text("hi", vec![]).unwrap()],
            vec![],
        )
        .unwrap();
    assert_eq!(p.to_html(), "<p>hi</p>");
}

#[test]
fn macro_supports_marks_attrs_parse_and_explicit_to_dom() {
    let mut paragraph = with_content("inline*");
    paragraph.group = Some("block".into());
    paragraph.to_dom = Some(DomSpec::element("p"));
    paragraph.parse_dom = vec![ParseRule::tag("p")];
    let mut heading = with_content("inline*");
    heading.group = Some("block".into());
    heading.attrs.push((
        "level".to_string(),
        AttrSpec {
            default: Some(AttrValue::from_u64(1)),
        },
    ));
    heading.to_dom = Some(DomSpec::element("h").tag_suffix_from("level", 1));
    heading.parse_dom = vec![ParseRule::tag("h1"), ParseRule::tag("h2"), ParseRule::tag("h3")];
    let mut text = NodeSpec::default();
    text.group = Some("inline".into());
    let mut strong = MarkSpec::default();
    strong.to_dom = Some(DomSpec::element("strong"));
    strong.parse_dom = vec![ParseRule::tag("strong"), ParseRule::tag("b")];
    strong.inclusive = true;
    let mut em = MarkSpec::default();
    em.to_dom = Some(DomSpec::element("em"));
    let s = SchemaBuilder::new()
        .node("doc", with_content("block+"))
        .node("paragraph", paragraph)
        .node("heading", heading)
        .node("text", text)
        .mark("strong", strong)
        .mark("em", em)
        .build()
        .unwrap();

    // Top node defaults to "doc" when none is named.
    assert_eq!(s.top_node_type().name(), "doc");

    // Marks landed.
    assert!(s.mark_type("strong").is_some());
    assert!(s.mark_type("em").is_some());

    // The `attrs` block gave `level` a default of 1, used when omitted.
    let h = s
        .node(
            "heading",
            Attrs::new(),
            vec![s.text("Title", vec![]).unwrap()],
            vec![],
        )
        .unwrap();
    assert_eq!(h.to_html(), "<h1>Title</h1>");

    // The rendering honours an overridden level.
    let mut level = Attrs::new();
    level.insert("level".into(), AttrValue::from_u64(2));
    let h2 = s
        .node("heading", level, vec![s.text("Sub", vec![]).unwrap()], vec![])
        .unwrap();
    assert_eq!(h2.to_html(), "<h2>Sub</h2>");

    // Plain tag rules map each tag to the node type (no attribute
    // extraction, so the level isn't recovered).
    let parsed = s.parse_html("<h3>X</h3>").unwrap();
    let first = parsed.content().iter().next().unwrap();
    assert_eq!(first.node_type().name(), "heading");
    // The mark rules map the alias `<b>` onto `strong`.
    let bold = s.parse_html("<p><b>hi</b></p>").unwrap();
    assert!(bold.to_html().contains("<strong>hi</strong>"));
}

#[test]
fn trailing_commas_are_optional() {
    // `content: "text*"` references the `text` node directly, so this
    // minimal schema is valid on its own.
    let mut text = NodeSpec::default();
    text.group = Some("inline".into());
    let s = SchemaBuilder::new()
        .node("doc", with_content("text*"))
        .node("text", text)
        .build()
        .unwrap();
    assert_eq!(s.node_types().len(), 2);
    let _ = ParseRule::tag("p");
}
