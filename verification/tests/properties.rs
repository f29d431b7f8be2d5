//! Concrete checks of the library's stated behaviour: replacing inside a
//! block and between blocks, chains, joins, wrapping, selections, splits,
//! history depths and JSON errors.

use taino_edit_core::{
    chain, join_backward, trigger_range, wrap_in, Attrs, Command, DocError, EditorState, Fragment, JsonValue, Node,
    NodeSpec, ReplaceError, Schema, SchemaBuilder, Selection, Slice, Transaction, Transform,
};

fn schema() -> Schema {
    SchemaBuilder::new()
        .node(
            "doc",
            NodeSpec {
                content: Some("block+".into()),
                ..Default::default()
            },
        )
        .node(
            "paragraph",
            NodeSpec {
                content: Some("inline*".into()),
                group: Some("block".into()),
                ..Default::default()
            },
        )
        .node(
            "blockquote",
            NodeSpec {
                content: Some("block+".into()),
                group: Some("block".into()),
                ..Default::default()
            },
        )
        .node(
            "text",
            NodeSpec {
                group: Some("inline".into()),
                ..Default::default()
            },
        )
        .top_node("doc")
        .build()
        .unwrap()
}

fn p(s: &Schema, t: &str) -> Node {
    let kids = if t.is_empty() { vec![] } else { vec![s.text(t, vec![]).unwrap()] };
    s.node("paragraph", Attrs::new(), kids, vec![]).unwrap()
}

fn doc(s: &Schema, paras: &[&str]) -> Node {
    let kids = paras.iter().map(|t| p(s, t)).collect();
    s.node("doc", Attrs::new(), kids, vec![]).unwrap()
}

fn at(st: EditorState, sel: Selection) -> EditorState {
    let mut t = st.tr();
    t.set_selection(sel);
    st.apply(t)
}

fn text_slice(s: &Schema, t: &str) -> Slice {
    Slice::new(Fragment::from_node(s.text(t, vec![]).unwrap()), 0, 0)
}

#[test]
fn replace_inside_a_paragraph_puts_the_slice_between_the_cut_ends() {
    let s = schema();
    let d = doc(&s, &["Hello"]);
    let out = d.replace(3, 5, &text_slice(&s, "XY"), &s).unwrap();
    assert_eq!(out, doc(&s, &["HeXYo"]));
}

#[test]
fn replace_between_blocks_inserts_the_slice_blocks() {
    let s = schema();
    let d = doc(&s, &["ab", "cd"]);
    let slice = Slice::new(Fragment::from_node(p(&s, "new")), 0, 0);
    let out = d.replace(4, 4, &slice, &s).unwrap();
    assert_eq!(out, doc(&s, &["ab", "new", "cd"]));
}

#[test]
fn replace_with_a_nonempty_slice_changes_the_size() {
    let s = schema();
    let d = doc(&s, &["Hello"]);
    let out = d.replace(2, 2, &text_slice(&s, "abc"), &s).unwrap();
    assert_eq!(out.content().size(), d.content().size() + 3);
}

#[test]
fn an_empty_chain_does_not_apply() {
    let s = schema();
    let st = EditorState::new(doc(&s, &["Hi"]), s.clone());
    let c = chain(vec![]);
    let (applies, tx) = c.run(&st, true);
    assert!(!applies);
    assert!(tx.is_none());
}

#[test]
fn a_chain_dispatches_its_first_applicable_command() {
    let s = schema();
    let st = EditorState::new(doc(&s, &["Hi"]), s.clone());
    // A caret: deleting the selection does not apply, selecting all does.
    let c = chain(vec![Command::DeleteSelection, Command::SelectAll]);
    assert!(c.run(&st, false).0);
    let tx: Transaction = c.run(&st, true).1.unwrap();
    assert_eq!(st.apply(tx).selection(), Selection::All);
}

#[test]
fn join_backward_between_paragraphs_deletes_the_boundary_and_sets_the_caret() {
    let s = schema();
    let st = at(EditorState::new(doc(&s, &["ab", "cd"]), s.clone()), Selection::caret(5));
    let (applies, tx) = join_backward(&st, true);
    assert!(applies);
    let next = st.apply(tx.unwrap());
    assert_eq!(next.doc(), &doc(&s, &["abcd"]));
    assert_eq!(next.selection(), Selection::caret(3));
}

#[test]
fn join_backward_in_the_first_block_does_not_apply() {
    let s = schema();
    let st = at(EditorState::new(doc(&s, &["ab"]), s.clone()), Selection::caret(1));
    assert!(!join_backward(&st, false).0);
    assert!(!join_backward(&st, true).0);
}

#[test]
fn wrap_in_an_unknown_type_does_not_apply() {
    let s = schema();
    let st = at(EditorState::new(doc(&s, &["Hi"]), s.clone()), Selection::caret(2));
    assert!(!wrap_in("nope", Attrs::new()).run(&st, false).0);
    assert!(wrap_in("blockquote", Attrs::new()).run(&st, false).0);
}

#[test]
fn a_node_selection_ends_past_the_selected_node() {
    let s = schema();
    let d = doc(&s, &["ab", "cde"]);
    assert_eq!(Selection::Node { pos: 4 }.to(&d), 9);
    assert_eq!(Selection::Node { pos: 0 }.to(&d), 4);
}

#[test]
fn split_at_depth_rejects_positions_past_the_end_and_too_shallow_ones() {
    let s = schema();
    let d = doc(&s, &["ab"]);
    let mut t = Transform::new(d.clone());
    assert!(t.split_at_depth(99, 1, &s).is_err());
    assert!(t.split_at_depth(0, 1, &s).is_err());
    assert!(t.split_at_depth(2, 2, &s).is_err());
    assert!(t.split_at_depth(2, 1, &s).is_ok());
    assert_eq!(t.doc(), &doc(&s, &["a", "b"]));
}

#[test]
fn a_recorded_change_can_be_undone_and_nothing_is_left_to_redo() {
    let s = schema();
    let st = EditorState::new(doc(&s, &["ab"]), s.clone());
    let mut tx = st.tr();
    tx.transform().insert(2, text_slice(&s, "X"), &s).unwrap();
    let next = st.apply(tx);
    assert_eq!(next.history().undo_depth(), 1);
    assert_eq!(next.history().redo_depth(), 0);
    let back = next.undo().unwrap();
    assert_eq!(back.doc(), &doc(&s, &["ab"]));
    assert_eq!(back.history().undo_depth(), 0);
    assert_eq!(back.history().redo_depth(), 1);
}

#[test]
fn reading_a_node_of_an_unknown_type_names_the_type() {
    let s = schema();
    let v = JsonValue::Object(vec![("type".to_string(), JsonValue::String("nope".to_string()))]);
    match s.node_from_json(&v) {
        Err(DocError::UnknownNodeType(name)) => assert_eq!(name, "nope"),
        other => panic!("unexpected: {:?}", other),
    }
}

#[test]
fn a_schema_whose_types_have_no_content_expressions_builds() {
    let s = SchemaBuilder::new()
        .node("doc", NodeSpec::default())
        .node("text", NodeSpec::default())
        .top_node("doc")
        .build();
    assert!(s.is_ok());
}

#[test]
fn a_trigger_match_covers_the_positions_before_the_caret() {
    // "ab--" before a caret at 7: the match "--" (characters 2..4) ends at
    // the caret and covers positions 5..7.
    assert_eq!(trigger_range(4, 2, 4, 7), Some((5, 7)));
    // A match that does not reach the caret triggers nothing.
    assert_eq!(trigger_range(4, 1, 3, 7), None);
    // Nor does one longer than the caret position.
    assert_eq!(trigger_range(4, 0, 4, 3), None);
}

#[test]
fn a_slice_opened_deeper_than_its_position_is_refused() {
    let s = schema();
    let d = doc(&s, &["ab"]);
    let deep = Slice::new(Fragment::from_node(p(&s, "x")), 2, 0);
    assert_eq!(d.replace(1, 1, &deep, &s), Err(ReplaceError::OpenTooDeep));
    let uneven = Slice::new(Fragment::from_node(p(&s, "x")), 1, 0);
    assert_eq!(d.replace(1, 1, &uneven, &s), Err(ReplaceError::InconsistentOpenDepths));
}

#[test]
fn deleting_inside_a_paragraph_shrinks_it_by_the_range() {
    let s = schema();
    let d = doc(&s, &["Hello"]);
    let out = d.replace(3, 5, &Slice::empty(), &s).unwrap();
    assert_eq!(out, doc(&s, &["Heo"]));
    assert_eq!(out.content().size(), d.content().size() - 2);
}

#[test]
fn deleting_a_whole_block_removes_its_positions() {
    let s = schema();
    let d = doc(&s, &["ab", "cd"]);
    let out = d.replace(0, 4, &Slice::empty(), &s).unwrap();
    assert_eq!(out, doc(&s, &["cd"]));
    assert_eq!(out.content().size(), d.content().size() - 4);
}

#[test]
fn set_block_type_applies_only_where_the_new_type_can_hold_the_content() {
    let s = schema();
    let st = at(EditorState::new(doc(&s, &["Hi"]), s.clone()), Selection::caret(2));
    // A blockquote holds blocks, not text: the paragraph cannot become one.
    assert!(!taino_edit_core::set_block_type("blockquote", Attrs::new()).run(&st, false).0);
    assert!(!taino_edit_core::set_block_type("nope", Attrs::new()).run(&st, false).0);
    assert!(taino_edit_core::set_block_type("paragraph", Attrs::new()).run(&st, false).0);
}
