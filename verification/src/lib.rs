//! `taino_edit_core` — the framework-agnostic heart of a WYSIWYG rich-text
//! editor: a typed document tree validated against a schema, invertible
//! steps, position mapping, editor state with undo history, commands,
//! keymaps, and HTML / JSON / Markdown serialization.

mod strutil;
mod attrs;
mod error;
mod content;
mod mark;
mod fragment;
mod node;
mod schema;
mod html;
mod html_parse;
mod pos;
mod slice;
mod replace;
mod map;
mod json;
mod attr_change;
mod step;
mod step_json;
mod selection;
mod transform;
mod state;
mod commands;
mod keymap;
mod inputrules;
pub mod markdown;

pub use attrs::{AttrValue, Attrs};
pub use commands::{
    caret_left, caret_line_end, caret_line_start, caret_right, chain, delete_backward, delete_forward,
    delete_selection, join_backward, join_forward, lift, remove_mark, select_all, set_block_type, set_mark,
    split_block, toggle_mark, top_blocks_in_range, wrap_in, Command, Outcome,
};
pub use content::ContentMatch;
pub use error::{DocError, SchemaError};
pub use fragment::Fragment;
pub use html::{DomSpec, DomAttr, HtmlElement, ParseRule, MAX_DEPTH};
pub use mark::{same_mark_set, Mark, MarkType};
pub use node::{Node, NodeType};
pub use pos::ResolvedPos;
pub use json::JsonValue;
pub use inputrules::{replace_trigger_text, retype_block, text_before_caret, top_block_range, trigger_range, wrap_block};
pub use keymap::{base_keymap, is_valid_binding, KeyPress, Keymap};
pub use map::{MapResult, Mapping, StepMap, DEL_SIDE};
pub use replace::ReplaceError;
pub use state::{EditorState, History, Transaction, DEFAULT_HISTORY_DEPTH};
pub use transform::Transform;
pub use step::{step_from_json, AddMarkStep, AnyStep, AttrStep, RemoveMarkStep, ReplaceAroundStep, ReplaceStep, Step, StepError};
pub use selection::Selection;
pub use slice::Slice;
pub use schema::{AttrSpec, MarkSpec, NodeSpec, Schema, SchemaBuilder};
