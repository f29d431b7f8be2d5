//! Input rules, editing side: the text before the caret, the enclosing
//! top-level block, and the transactions a matched trigger builds.

use taino_edit_core::{
    replace_trigger_text, retype_block, text_before_caret, top_block_range, wrap_block, AttrSpec, AttrValue,
    Attrs, EditorState, NodeSpec, Schema, SchemaBuilder, Selection,
};

fn schema() -> Schema {
    SchemaBuilder::new()
        .node(
            "doc",
            NodeSpec {
                content: Some("block+".into()),
                ..Default::default()
            },
        )
        .node(
            "blockquote",
            NodeSpec {
                content: Some("block+".into()),
                group: Some("block".into()),
                ..Default::default()
            },
        )
        .node(
            "heading",
            NodeSpec {
                content: Some("inline*".into()),
                group: Some("block".into()),
                attrs: vec![("level".to_string(), AttrSpec { default: Some(AttrValue::Number(1)) })],
                ..Default::default()
            },
        )
        .node(
            "paragraph",
            NodeSpec {
                content: Some("inline*".into()),
                group: Some("block".into()),
                ..Default::default()
            },
        )
        .node(
            "text",
            NodeSpec {
                group: Some("inline".into()),
                ..Default::default()
            },
        )
        .top_node("doc")
        .build()
        .unwrap()
}

fn state_with(s: &Schema, text: &str, caret: usize) -> EditorState {
    let p = s
        .node("paragraph", Default::default(), vec![s.text(text, vec![]).unwrap()], vec![])
        .unwrap();
    let d = s.node("doc", Default::default(), vec![p], vec![]).unwrap();
    let st = EditorState::new(d, s.clone());
    let mut t = st.tr();
    t.set_selection(Selection::caret(caret));
    st.apply(t)
}

fn level_attrs(n: u64) -> Attrs {
    let mut a = Attrs::new();
    a.insert("level".into(), AttrValue::Number(n));
    a
}

#[test]
fn text_before_caret_reads_the_block_up_to_the_caret() {
    let s = schema();
    let st = state_with(&s, "a(c)", 5);
    let (text, pos) = text_before_caret(&st).expect("caret inside a block");
    assert_eq!(text, "a(c)");
    assert_eq!(pos, 5);

    let st = state_with(&s, "hello", 3);
    let (text, pos) = text_before_caret(&st).expect("caret inside a block");
    assert_eq!(text, "he");
    assert_eq!(pos, 3);
}

#[test]
fn text_before_caret_needs_a_caret_inside_a_block() {
    let s = schema();
    // Between blocks (depth 0).
    let st = state_with(&s, "hi", 0);
    assert!(text_before_caret(&st).is_none());
    // A range selection.
    let st = state_with(&s, "hi", 1);
    let mut t = st.tr();
    t.set_selection(Selection::Text { anchor: 1, head: 3 });
    let st = st.apply(t);
    assert!(text_before_caret(&st).is_none());
}

#[test]
fn top_block_range_spans_the_enclosing_block() {
    let s = schema();
    let st = state_with(&s, "abc", 2);
    assert_eq!(top_block_range(&st, 2), Some((0, 5)));
    assert_eq!(top_block_range(&st, 0), None);
    assert_eq!(top_block_range(&st, 99), None);
}

#[test]
fn matched_text_is_replaced() {
    let s = schema();
    // "a(c)" with the caret at the end (pos 5): the trigger is 2..5.
    let st = state_with(&s, "a(c)", 5);
    let tx = replace_trigger_text(&st, 2, 5, "©").expect("replacement applies");
    let next = st.apply(tx);
    assert_eq!(next.doc().text_content(), "a©");
}

#[test]
fn heading_trigger_retypes_the_block() {
    let s = schema();
    // "## " at the start of a paragraph, caret after it (pos 4).
    let st = state_with(&s, "## ", 4);
    let tx = retype_block(&st, 1, 4, "heading", level_attrs(2)).expect("retype applies");
    let next = st.apply(tx);
    assert_eq!(next.doc().child(0).node_type().name(), "heading");
    assert_eq!(next.doc().child(0).attrs().get("level"), Some(&AttrValue::Number(2)));
    assert_eq!(next.doc().text_content(), "");
}

#[test]
fn quote_trigger_wraps_the_block() {
    let s = schema();
    // "> " at the start of a paragraph, caret after it (pos 3).
    let st = state_with(&s, "> ", 3);
    let tx = wrap_block(&st, 1, 3, "blockquote", Attrs::new()).expect("wrap applies");
    let next = st.apply(tx);
    assert_eq!(next.doc().child(0).node_type().name(), "blockquote");
    assert_eq!(next.doc().child(0).child(0).node_type().name(), "paragraph");
    assert_eq!(next.doc().text_content(), "");
}

#[test]
fn unknown_types_build_nothing() {
    let s = schema();
    let st = state_with(&s, "> ", 3);
    assert!(wrap_block(&st, 1, 3, "aside", Attrs::new()).is_none());
    assert!(retype_block(&st, 1, 3, "title", Attrs::new()).is_none());
}
