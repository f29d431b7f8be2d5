//! Markdown serialization: [`to_markdown`] renders a document as
//! CommonMark-subset text.
//!
//! The mapping uses the canonical node and mark names (`paragraph`,
//! `heading`, `blockquote`, `code_block`, `bullet_list`, `ordered_list`,
//! `list_item`, `image`, and the marks `strong`, `em`, `link`, `code`).
//! Unknown blocks and inline nodes fall back to inline HTML so no content is
//! lost.

use vstd::prelude::*;

use pulldown_cmark::{Event, Options, Parser, Tag, TagEnd};

use crate::attrs::{attrs_lookup, AttrValue, AttrValueV, Attrs, AttrsV};
use crate::error::DocError;
use crate::html::html_of;
use crate::html_parse::{lemma_scan, scan, Stop};
use crate::mark::{clone_marks, marks_view, Mark, MarkType, MarkV};
use crate::node::{nodes_size, text_of, Node};
use crate::schema::{default_for, filled_attr, valid_tree, Schema};
use crate::strutil::{chars_of, decimal, decimal_chars, push_chars, push_str, str_eq, string_from_chars};

verus! {

// ---- marks ------------------------------------------------------------------

/// What the serializer keeps of an open mark: its type and attributes.
pub type MarkKey = (MarkType, AttrsV);

/// The key of `m`.
pub open spec fn key_of(m: Mark) -> MarkKey {
    (m.mark_type_spec(), m.spec_attrs())
}

/// The keys of a list of marks.
pub open spec fn keys_of(s: Seq<Mark>) -> Seq<MarkKey> {
    Seq::new(s.len(), |i: int| key_of(s[i]))
}

/// Whether the key `k` stands for a mark equal to `m`.
pub open spec fn same_key(k: MarkKey, m: Mark) -> bool {
    k.0.spec_id() == m.spec_type_id() && k.1 == m.spec_attrs()
}

/// The string attribute `key` of `attrs`, or the empty string.
pub open spec fn str_attr(attrs: AttrsV, key: Seq<char>) -> Seq<char> {
    match attrs_lookup(attrs, key) {
        Some(AttrValueV::String(s)) => s,
        _ => Seq::empty(),
    }
}

/// The markup that opens a mark: `**`, `*`, `[`, or nothing.
pub open spec fn open_md(k: MarkKey) -> Seq<char> {
    let n = k.0.spec_name();
    if n == "strong"@ {
        "**"@
    } else if n == "em"@ {
        "*"@
    } else if n == "link"@ {
        "["@
    } else {
        Seq::empty()
    }
}

/// The markup that closes a mark: `**`, `*`, `](href)`, or nothing.
pub open spec fn close_md(k: MarkKey) -> Seq<char> {
    let n = k.0.spec_name();
    if n == "strong"@ {
        "**"@
    } else if n == "em"@ {
        "*"@
    } else if n == "link"@ {
        "]("@ + str_attr(k.1, "href"@) + ")"@
    } else {
        Seq::empty()
    }
}

/// Closing every open mark, innermost first.
pub open spec fn close_all(a: Seq<MarkKey>) -> Seq<char>
    decreases a.len(),
{
    if a.len() == 0 {
        Seq::empty()
    } else {
        close_md(a.last()) + close_all(a.drop_last())
    }
}

/// Whether one of `marks` equals the mark `k` stands for.
pub open spec fn key_in(k: MarkKey, marks: Seq<Mark>) -> bool {
    exists|i: int| 0 <= i < marks.len() && same_key(k, #[trigger] marks[i])
}

/// Whether one of the open marks `a` equals `m`.
pub open spec fn mark_open_in(a: Seq<MarkKey>, m: Mark) -> bool {
    exists|i: int| 0 <= i < a.len() && same_key(#[trigger] a[i], m)
}

/// Close open marks, innermost first, until one that `marks` still
/// carries: the markup and the marks left open.
pub open spec fn close_unmatched(a: Seq<MarkKey>, marks: Seq<Mark>) -> (Seq<char>, Seq<MarkKey>)
    decreases a.len(),
{
    if a.len() == 0 || key_in(a.last(), marks) {
        (Seq::empty(), a)
    } else {
        let r = close_unmatched(a.drop_last(), marks);
        (close_md(a.last()) + r.0, r.1)
    }
}

/// Open, in order, those of the first `k` of `marks` that are not open yet.
pub open spec fn open_missing(a: Seq<MarkKey>, marks: Seq<Mark>, k: int) -> (Seq<char>, Seq<MarkKey>)
    decreases k,
{
    if k <= 0 || k > marks.len() {
        (Seq::empty(), a)
    } else {
        let r = open_missing(a, marks, k - 1);
        let m = marks[k - 1];
        if mark_open_in(r.1, m) {
            r
        } else {
            (r.0 + open_md(key_of(m)), r.1.push(key_of(m)))
        }
    }
}

/// Whether one of `marks` is named `code`.
pub open spec fn has_code(marks: Seq<Mark>) -> bool {
    exists|i: int| 0 <= i < marks.len() && (#[trigger] marks[i]).mark_type_spec().spec_name() == "code"@
}

/// `c` escaped for Markdown text.
pub open spec fn escape_md_char(c: char) -> Seq<char> {
    if c == '\\' || c == '`' || c == '*' || c == '_' || c == '[' || c == ']' || c == '<' || c == '>' {
        seq!['\\', c]
    } else {
        seq![c]
    }
}

/// `s` escaped for Markdown text: each of `` \ ` * _ [ ] < > `` gets a
/// backslash.
pub open spec fn escape_md(s: Seq<char>) -> Seq<char>
    decreases s.len(),
{
    if s.len() == 0 {
        Seq::empty()
    } else {
        escape_md(s.drop_last()) + escape_md_char(s.last())
    }
}

/// Whether `c` is markup in Markdown text (a backslash, a code tick,
/// emphasis, link brackets or an HTML angle bracket).
pub open spec fn md_markup_char(c: char) -> bool {
    c == '\\' || c == '`' || c == '*' || c == '_' || c == '[' || c == ']' || c == '<' || c == '>'
}

/// Read `e` as plain Markdown text: a backslash before a markup character
/// stands for that character; any other markup character is markup, not
/// text (`None`); every other character stands for itself.
pub open spec fn read_md_text(e: Seq<char>) -> Option<Seq<char>>
    decreases e.len(),
{
    if e.len() == 0 {
        Some(Seq::empty())
    } else if e.len() >= 2 && e[0] == '\\' && md_markup_char(e[1]) {
        match read_md_text(e.skip(2)) {
            Some(r) => Some(seq![e[1]] + r),
            None => None,
        }
    } else if md_markup_char(e[0]) {
        None
    } else {
        match read_md_text(e.skip(1)) {
            Some(r) => Some(seq![e[0]] + r),
            None => None,
        }
    }
}

/// Escaping distributes over concatenation.
proof fn lemma_escape_md_concat(a: Seq<char>, b: Seq<char>)
    ensures
        escape_md(a + b) == escape_md(a) + escape_md(b),
    decreases b.len(),
{
    if b.len() == 0 {
        assert(a + b =~= a);
        assert(escape_md(a) + escape_md(b) =~= escape_md(a));
    } else {
        lemma_escape_md_concat(a, b.drop_last());
        assert((a + b).drop_last() =~= a + b.drop_last());
        assert((a + b).last() == b.last());
        assert(escape_md(a) + escape_md(b.drop_last()) + escape_md_char(b.last())
            =~= escape_md(a) + (escape_md(b.drop_last()) + escape_md_char(b.last())));
    }
}

/// Plain text escaped for Markdown reads back as the same text: every
/// markup character in it comes out behind a backslash, so none of it is
/// taken for markup, and nothing is lost or added.
pub proof fn law_escaped_md_reads_back(s: Seq<char>)
    ensures
        read_md_text(escape_md(s)) == Some(s),
    decreases s.len(),
{
    if s.len() > 0 {
        let c = s[0];
        let rest = s.skip(1);
        law_escaped_md_reads_back(rest);
        assert(s =~= seq![c] + rest);
        lemma_escape_md_concat(seq![c], rest);
        assert(seq![c].drop_last() =~= Seq::<char>::empty());
        assert(seq![c].last() == c);
        assert(escape_md(Seq::<char>::empty()) =~= Seq::<char>::empty());
        assert(escape_md(seq![c]) == escape_md(seq![c].drop_last()) + escape_md_char(c));
        assert(escape_md(seq![c]) =~= escape_md_char(c));
        let e = escape_md_char(c) + escape_md(rest);
        if md_markup_char(c) {
            assert(e[0] == '\\' && e[1] == c);
            assert(e.skip(2) =~= escape_md(rest));
        } else {
            assert(e[0] == c);
            assert(e.skip(1) =~= escape_md(rest));
        }
        assert(seq![c] + rest =~= s);
    } else {
        assert(escape_md(s) =~= Seq::<char>::empty());
    }
}

/// The longest run of backticks in `s`, and the run `s` ends with.
pub open spec fn tick_runs(s: Seq<char>) -> (nat, nat)
    decreases s.len(),
{
    if s.len() == 0 {
        (0, 0)
    } else {
        let r = tick_runs(s.drop_last());
        if s.last() == '`' {
            let c = r.1 + 1;
            (if c > r.0 {
                c
            } else {
                r.0
            }, c)
        } else {
            (r.0, 0)
        }
    }
}

/// `n` copies of `c`.
pub open spec fn repeat(c: char, n: nat) -> Seq<char> {
    Seq::new(n, |i: int| c)
}

/// A text node's Markdown given the open marks `a`, and the marks open
/// after it. Inline code closes everything and is fenced with one more
/// backtick than its longest backtick run (padded with spaces when it
/// holds backticks); other text closes the marks it does not carry, opens
/// its new ones, and is escaped.
pub open spec fn text_md(a: Seq<MarkKey>, n: Node) -> (Seq<char>, Seq<MarkKey>) {
    let marks = n.spec_marks();
    let text = n.spec_text()->0;
    if has_code(marks) {
        let run = tick_runs(text).0;
        let fence = repeat('`', run + 1);
        let body = if run > 0 {
            " "@ + text + " "@
        } else {
            text
        };
        (close_all(a) + fence + body + fence, Seq::empty())
    } else {
        let c = close_unmatched(a, marks);
        let o = open_missing(c.1, marks, marks.len() as int);
        (c.0 + o.0 + escape_md(text), o.1)
    }
}

/// An inline node's Markdown given the open marks `a`, and the marks open
/// after it: text as in [`text_md`]; an image as `![alt](src)` and any
/// other node as HTML, after closing every open mark.
pub open spec fn inline_node_md(a: Seq<MarkKey>, n: Node) -> (Seq<char>, Seq<MarkKey>) {
    if n.spec_text() is Some {
        text_md(a, n)
    } else {
        let body = if n.spec_type().spec_name() == "image"@ {
            "!["@ + str_attr(n.spec_attrs(), "alt"@) + "]("@ + str_attr(n.spec_attrs(), "src"@) + ")"@
        } else {
            html_of(n)
        };
        (close_all(a) + body, Seq::empty())
    }
}

/// The Markdown of the first `k` children of `p`, and the marks open after.
pub open spec fn inline_fold(p: Node, k: int) -> (Seq<char>, Seq<MarkKey>)
    decreases k,
{
    if k <= 0 || k > p.spec_children().len() {
        (Seq::empty(), Seq::empty())
    } else {
        let r = inline_fold(p, k - 1);
        let s = inline_node_md(r.1, p.spec_children()[k - 1]);
        (r.0 + s.0, s.1)
    }
}

/// The inline Markdown of a textblock's content, every mark closed at the
/// end.
pub open spec fn inline_md(p: Node) -> Seq<char> {
    let r = inline_fold(p, p.spec_children().len() as int);
    r.0 + close_all(r.1)
}

fn name_is(t: &MarkType, name: &str) -> (r: bool)
    ensures
        r == (t.spec_name() == name@),
{
    str_eq(t.name(), name)
}

/// Append the string attribute `key` of `attrs` (or nothing).
fn push_str_attr(out: &mut Vec<char>, attrs: &Attrs, key: &str)
    ensures
        final(out)@ == old(out)@ + str_attr(attrs@, key@),
{
    match attrs.lookup(key) {
        Some(AttrValue::String(s)) => {
            push_str(out, s.as_str());
        },
        _ => {
            assert(old(out)@ + str_attr(attrs@, key@) =~= old(out)@);
        },
    }
}

fn push_open(out: &mut Vec<char>, m: &Mark)
    ensures
        final(out)@ == old(out)@ + open_md(key_of(*m)),
{
    let t = m.mark_type();
    if name_is(t, "strong") {
        push_str(out, "**");
    } else if name_is(t, "em") {
        push_str(out, "*");
    } else if name_is(t, "link") {
        push_str(out, "[");
    } else {
        assert(old(out)@ + open_md(key_of(*m)) =~= old(out)@);
    }
}

fn push_close(out: &mut Vec<char>, m: &Mark)
    ensures
        final(out)@ == old(out)@ + close_md(key_of(*m)),
{
    let t = m.mark_type();
    if name_is(t, "strong") {
        push_str(out, "**");
    } else if name_is(t, "em") {
        push_str(out, "*");
    } else if name_is(t, "link") {
        push_str(out, "](");
        push_str_attr(out, m.attrs(), "href");
        push_str(out, ")");
    } else {
        assert(old(out)@ + close_md(key_of(*m)) =~= old(out)@);
    }
}

/// Close every open mark in `active`, innermost first.
fn close_every(out: &mut Vec<char>, active: &mut Vec<Mark>)
    ensures
        final(out)@ == old(out)@ + close_all(keys_of(old(active)@)),
        final(active)@.len() == 0,
{
    let ghost start = out@;
    let ghost a0 = keys_of(active@);
    while active.len() > 0
        invariant
            a0 == keys_of(old(active)@),
            start == old(out)@,
            keys_of(active@) == a0.take(active@.len() as int),
            active@.len() <= a0.len(),
            start + close_all(a0) == out@ + close_all(keys_of(active@)),
        decreases active.len(),
    {
        let ghost before = active@;
        let m = active.pop().unwrap();
        proof {
            assert(keys_of(before).drop_last() =~= keys_of(active@));
            assert(keys_of(before).last() == key_of(m));
            assert(keys_of(active@) =~= a0.take(active@.len() as int));
        }
        push_close(out, &m);
        proof {
            assert(start + close_all(a0) =~= out@ + close_all(keys_of(active@)));
        }
    }
    proof {
        assert(close_all(keys_of(active@)) =~= Seq::<char>::empty());
        assert(start + close_all(a0) =~= out@);
    }
}

fn same_mark_in(m: &Mark, marks: &[Mark]) -> (r: bool)
    ensures
        r == key_in(key_of(*m), marks@),
{
    let mut i: usize = 0;
    while i < marks.len()
        invariant
            i <= marks@.len(),
            forall|j: int| 0 <= j < i ==> !same_key(key_of(*m), #[trigger] marks@[j]),
        decreases marks.len() - i,
    {
        if marks[i].same_mark(m) {
            proof {
                assert(same_key(key_of(*m), marks@[i as int]));
            }
            return true;
        }
        i = i + 1;
    }
    false
}

fn open_in(active: &Vec<Mark>, m: &Mark) -> (r: bool)
    ensures
        r == mark_open_in(keys_of(active@), *m),
{
    let mut i: usize = 0;
    while i < active.len()
        invariant
            i <= active@.len(),
            forall|j: int| 0 <= j < i ==> !same_key(#[trigger] keys_of(active@)[j], *m),
        decreases active.len() - i,
    {
        if active[i].same_mark(m) {
            proof {
                assert(same_key(keys_of(active@)[i as int], *m));
            }
            return true;
        }
        i = i + 1;
    }
    false
}

/// Append `s` escaped for Markdown.
fn push_escaped_md(out: &mut Vec<char>, s: &str)
    ensures
        final(out)@ == old(out)@ + escape_md(s@),
{
    let ghost start = out@;
    let cs = chars_of(s);
    let mut i: usize = 0;
    while i < cs.len()
        invariant
            i <= cs@.len(),
            cs@ == s@,
            out@ == start + escape_md(cs@.take(i as int)),
        decreases cs.len() - i,
    {
        let c = cs[i];
        proof {
            assert(cs@.take(i as int + 1).drop_last() =~= cs@.take(i as int));
        }
        if c == '\\' || c == '`' || c == '*' || c == '_' || c == '[' || c == ']' || c == '<' || c == '>' {
            out.push('\\');
        }
        out.push(c);
        i = i + 1;
        proof {
            assert(cs@.take(i as int).last() == c);
            assert(out@ =~= start + escape_md(cs@.take(i as int)));
        }
    }
    proof {
        assert(cs@.take(cs@.len() as int) =~= s@);
    }
}

/// Whether `marks` holds a `code` mark.
fn any_code(marks: &[Mark]) -> (r: bool)
    ensures
        r == has_code(marks@),
{
    let mut i: usize = 0;
    while i < marks.len()
        invariant
            i <= marks@.len(),
            forall|j: int| 0 <= j < i ==> (#[trigger] marks@[j]).mark_type_spec().spec_name() != "code"@,
        decreases marks.len() - i,
    {
        if name_is(marks[i].mark_type(), "code") {
            return true;
        }
        i = i + 1;
    }
    false
}

/// The longest run of backticks in `s`.
fn longest_tick_run(s: &Vec<char>) -> (r: usize)
    ensures
        r == tick_runs(s@).0,
        r <= s@.len(),
{
    let mut best: usize = 0;
    let mut cur: usize = 0;
    let mut i: usize = 0;
    while i < s.len()
        invariant
            i <= s@.len(),
            (best as nat, cur as nat) == tick_runs(s@.take(i as int)),
            cur <= i,
            best <= i,
        decreases s.len() - i,
    {
        proof {
            assert(s@.take(i as int + 1).drop_last() =~= s@.take(i as int));
        }
        if s[i] == '`' {
            cur = cur + 1;
            if cur > best {
                best = cur;
            }
        } else {
            cur = 0;
        }
        i = i + 1;
    }
    proof {
        assert(s@.take(s@.len() as int) =~= s@);
    }
    best
}

fn push_repeat(out: &mut Vec<char>, c: char, n: usize)
    ensures
        final(out)@ == old(out)@ + repeat(c, n as nat),
{
    let ghost start = out@;
    let mut i: usize = 0;
    while i < n
        invariant
            i <= n,
            out@ == start + repeat(c, i as nat),
        decreases n - i,
    {
        out.push(c);
        i = i + 1;
        proof {
            assert(out@ =~= start + repeat(c, i as nat));
        }
    }
}

/// Emit a text node given the open marks (see [`text_md`]).
fn emit_with_marks(node: &Node, out: &mut Vec<char>, active: &mut Vec<Mark>)
    requires
        node.spec_text() is Some,
        node.spec_text()->0.len() + 2 <= usize::MAX,
    ensures
        final(out)@ == old(out)@ + text_md(keys_of(old(active)@), *node).0,
        keys_of(final(active)@) == text_md(keys_of(old(active)@), *node).1,
{
    let marks = node.marks();
    let text = match node.text() {
        Some(t) => t,
        None => "",
    };
    let ghost a0 = keys_of(active@);
    let ghost start = out@;
    if any_code(marks) {
        close_every(out, active);
        let cs = chars_of(text);
        let run = longest_tick_run(&cs);
        proof {
            assert(run <= cs@.len());
        }
        push_repeat(out, '`', run + 1);
        if run > 0 {
            push_str(out, " ");
            push_str(out, text);
            push_str(out, " ");
        } else {
            push_str(out, text);
        }
        push_repeat(out, '`', run + 1);
        proof {
            assert(keys_of(active@) =~= Seq::<MarkKey>::empty());
            assert(out@ =~= start + text_md(a0, *node).0);
        }
        return;
    }
    // Close marks the node does not carry, innermost first.
    while active.len() > 0
        invariant
            a0 == keys_of(old(active)@),
            start == old(out)@,
            marks@ == node.spec_marks(),
            close_unmatched(keys_of(active@), marks@).1 == close_unmatched(a0, marks@).1,
            out@ + close_unmatched(keys_of(active@), marks@).0 == start + close_unmatched(a0, marks@).0,
        ensures
            close_unmatched(keys_of(active@), marks@).0 == Seq::<char>::empty(),
            close_unmatched(keys_of(active@), marks@).1 == keys_of(active@),
            close_unmatched(keys_of(active@), marks@).1 == close_unmatched(a0, marks@).1,
            out@ + close_unmatched(keys_of(active@), marks@).0 == start + close_unmatched(a0, marks@).0,
        decreases active.len(),
    {
        let last = active.len() - 1;
        proof {
            assert(keys_of(active@).last() == key_of(active@[last as int]));
        }
        if same_mark_in(&active[last], marks) {
            break;
        }
        let ghost before = active@;
        let m = active.pop().unwrap();
        proof {
            assert(keys_of(before).drop_last() =~= keys_of(active@));
        }
        push_close(out, &m);
        proof {
            assert(out@ + close_unmatched(keys_of(active@), marks@).0 =~= start + close_unmatched(a0, marks@).0);
        }
    }
    let ghost closed = close_unmatched(a0, marks@);
    proof {
        assert(keys_of(active@) == closed.1);
        assert(close_unmatched(keys_of(active@), marks@).0 =~= Seq::<char>::empty());
    }
    let ghost mid = out@;
    // Open the node's marks that are not open yet, in order.
    let mut i: usize = 0;
    while i < marks.len()
        invariant
            i <= marks@.len(),
            marks@ == node.spec_marks(),
            out@ == mid + open_missing(closed.1, marks@, i as int).0,
            keys_of(active@) == open_missing(closed.1, marks@, i as int).1,
        decreases marks.len() - i,
    {
        let m = &marks[i];
        if !open_in(active, m) {
            push_open(out, m);
            let ghost before = active@;
            active.push(m.clone_mark());
            proof {
                assert(keys_of(active@) =~= keys_of(before).push(key_of(*m)));
            }
        }
        i = i + 1;
        proof {
            assert(out@ =~= mid + open_missing(closed.1, marks@, i as int).0);
        }
    }
    push_escaped_md(out, text);
    proof {
        assert(out@ =~= start + text_md(a0, *node).0);
    }
}

/// A child's size is at most its parent's content size.
proof fn lemma_child_size(s: Seq<Node>, k: int)
    requires
        0 <= k < s.len(),
    ensures
        s[k].spec_size() <= crate::node::nodes_size(s),
{
    assert(s.take(k + 1).drop_last() =~= s.take(k));
    assert(s.take(k + 1).last() == s[k]);
    crate::node::lemma_nodes_size_prefix(s, k + 1);
}

/// Serialize the inline content of a textblock (see [`inline_md`]).
fn serialize_inline(parent: &Node, out: &mut Vec<char>)
    ensures
        final(out)@ == old(out)@ + inline_md(*parent),
{
    parent.check_wf();
    let children = parent.content().children();
    let ghost start = out@;
    let mut active: Vec<Mark> = Vec::new();
    let mut i: usize = 0;
    proof {
        assert(keys_of(active@) =~= Seq::<MarkKey>::empty());
    }
    while i < children.len()
        invariant
            i <= children@.len(),
            children@ == parent.spec_children(),
            parent.wf(),
            start == old(out)@,
            out@ == start + inline_fold(*parent, i as int).0,
            keys_of(active@) == inline_fold(*parent, i as int).1,
        decreases children.len() - i,
    {
        let child = &children[i];
        let ghost before = out@;
        let ghost a = keys_of(active@);
        if child.is_text() {
            proof {
                lemma_child_size(children@, i as int);
                assert(parent.spec_content().spec_size() == crate::node::nodes_size(children@));
            }
            emit_with_marks(child, out, &mut active);
        } else {
            close_every(out, &mut active);
            if str_eq(child.node_type().name(), "image") {
                push_str(out, "![");
                push_str_attr(out, child.attrs(), "alt");
                push_str(out, "](");
                push_str_attr(out, child.attrs(), "src");
                push_str(out, ")");
            } else {
                let h = child.to_html();
                push_str(out, h.as_str());
            }
            proof {
                assert(keys_of(active@) =~= Seq::<MarkKey>::empty());
            }
        }
        proof {
            assert(out@ =~= start + inline_fold(*parent, i as int + 1).0);
        }
        i = i + 1;
    }
    let ghost before = out@;
    close_every(out, &mut active);
    proof {
        assert(out@ =~= start + inline_md(*parent));
    }
}

// ---- blocks -----------------------------------------------------------------

/// The lines of `s` from index `p` on, split at each `\n` (as
/// `str::split('\n')`: a trailing newline leaves an empty last line).
pub open spec fn split_from(s: Seq<char>, p: int) -> Seq<Seq<char>>
    decreases s.len() - p,
{
    let j = scan(s, p, Stop::Char('\n'));
    if p < 0 || p > s.len() || j >= s.len() {
        seq![s.subrange(p, s.len() as int)]
    } else {
        proof {
            lemma_scan(s, p, Stop::Char('\n'));
        }
        seq![s.subrange(p, j)] + split_from(s, j + 1)
    }
}

/// The lines of `s`.
pub open spec fn split_lines(s: Seq<char>) -> Seq<Seq<char>> {
    split_from(s, 0)
}

/// `ls` without its trailing empty lines.
pub open spec fn trim_empty_tail(ls: Seq<Seq<char>>) -> Seq<Seq<char>>
    decreases ls.len(),
{
    if ls.len() > 0 && ls.last().len() == 0 {
        trim_empty_tail(ls.drop_last())
    } else {
        ls
    }
}

/// `s` without its trailing newlines.
pub open spec fn trim_newlines(s: Seq<char>) -> Seq<char>
    decreases s.len(),
{
    if s.len() > 0 && s.last() == '\n' {
        trim_newlines(s.drop_last())
    } else {
        s
    }
}

/// The lines `ls`, each ended by a newline, the first after `first` and
/// the others after `rest`.
pub open spec fn line_block(ls: Seq<Seq<char>>, first: Seq<char>, rest: Seq<char>) -> Seq<char>
    decreases ls.len(),
{
    if ls.len() == 0 {
        Seq::empty()
    } else {
        line_block(ls.drop_last(), first, rest) + (if ls.len() == 1 {
            first
        } else {
            rest
        }) + ls.last() + "\n"@
    }
}

/// Quoted lines: `> line`, or `>` for an empty line, each after `indent`.
pub open spec fn quote_block(ls: Seq<Seq<char>>, indent: Seq<char>) -> Seq<char>
    decreases ls.len(),
{
    if ls.len() == 0 {
        Seq::empty()
    } else {
        quote_block(ls.drop_last(), indent) + indent + (if ls.last().len() == 0 {
            ">"@
        } else {
            "> "@ + ls.last()
        }) + "\n"@
    }
}

/// The number that numbers the `j`th item of an ordered list starting at
/// `start` (counting on from `u64::MAX` wraps to 0).
pub open spec fn counter_at(start: u64, j: nat) -> u64
    decreases j,
{
    if j == 0 {
        start
    } else {
        let c = counter_at(start, (j - 1) as nat);
        if c == u64::MAX {
            0
        } else {
            (c + 1) as u64
        }
    }
}

/// The bullet of the `j`th item: `- `, or `N. ` in an ordered list.
pub open spec fn bullet_for(start: Option<u64>, j: nat) -> Seq<char> {
    match start {
        None => "- "@,
        Some(s) => decimal(counter_at(s, j) as nat) + ". "@,
    }
}

/// The number of `#`s of a heading: its `level`, 1 when it has none, at
/// most 6.
pub open spec fn heading_hashes(attrs: AttrsV) -> nat {
    let lvl: u64 = match attrs_lookup(attrs, "level"@) {
        Some(AttrValueV::Number(v)) => v,
        _ => 1,
    };
    if lvl < 6 {
        lvl as nat
    } else {
        6
    }
}

/// The first number of an ordered list: its `start`, else 1.
pub open spec fn list_start(attrs: AttrsV) -> u64 {
    match attrs_lookup(attrs, "start"@) {
        Some(AttrValueV::Number(v)) => v,
        _ => 1,
    }
}

/// Whether `s` ends with a newline.
pub open spec fn ends_nl(s: Seq<char>) -> bool {
    s.len() > 0 && s.last() == '\n'
}

/// The Markdown of a block after `indent`: a paragraph's inline content;
/// a heading's `#`s, a space and its content; a blockquote's blocks, each
/// line quoted; a code block fenced with triple backticks, its text
/// verbatim; a list's items; any other block as HTML. Blocks end with a
/// blank line.
pub open spec fn block_md(n: Node, indent: Seq<char>) -> Seq<char>
    decreases n, n.spec_children().len() + 2,
{
    let name = n.spec_type().spec_name();
    let len = n.spec_children().len() as int;
    if name == "paragraph"@ {
        indent + inline_md(n) + "\n\n"@
    } else if name == "heading"@ {
        indent + repeat('#', heading_hashes(n.spec_attrs())) + " "@ + inline_md(n) + "\n\n"@
    } else if name == "blockquote"@ {
        quote_block(split_lines(trim_newlines(blocks_md(n, len))), indent) + "\n"@
    } else if name == "code_block"@ {
        indent + "```\n"@ + text_of(n) + (if ends_nl(text_of(n)) {
            Seq::empty()
        } else {
            "\n"@
        }) + indent + "```\n\n"@
    } else if name == "bullet_list"@ {
        list_md(n, len, indent, None) + "\n"@
    } else if name == "ordered_list"@ {
        list_md(n, len, indent, Some(list_start(n.spec_attrs()))) + "\n"@
    } else {
        indent + html_of(n) + "\n\n"@
    }
}

/// The Markdown of the first `k` children of `n`, one block after another.
pub open spec fn blocks_md(n: Node, k: int) -> Seq<char>
    decreases n, k,
{
    if k <= 0 || k > n.spec_children().len() {
        Seq::empty()
    } else {
        proof {
            assert(decreases_to!(n => n.spec_children()[k - 1]));
        }
        blocks_md(n, k - 1) + block_md(n.spec_children()[k - 1], Seq::empty())
    }
}

/// The first `k` items of the list `n`, numbered from `start` when it is
/// ordered.
pub open spec fn list_md(n: Node, k: int, indent: Seq<char>, start: Option<u64>) -> Seq<char>
    decreases n, k,
{
    if k <= 0 || k > n.spec_children().len() {
        Seq::empty()
    } else {
        proof {
            assert(decreases_to!(n => n.spec_children()[k - 1]));
        }
        list_md(n, k - 1, indent, start) + item_md(n.spec_children()[k - 1], indent, bullet_for(start, (k - 1) as nat))
    }
}

/// A list item: the lines of its blocks, the first after the bullet, the
/// others indented to line up with it.
pub open spec fn item_md(item: Node, indent: Seq<char>, bullet: Seq<char>) -> Seq<char>
    decreases item, item.spec_children().len() + 1,
{
    line_block(
        item_lines(item, item.spec_children().len() as int),
        indent + bullet,
        indent + repeat(' ', bullet.len()),
    )
}

/// The lines of the first `k` blocks of a list item, each block without its
/// trailing empty lines.
pub open spec fn item_lines(item: Node, k: int) -> Seq<Seq<char>>
    decreases item, k,
{
    if k <= 0 || k > item.spec_children().len() {
        Seq::empty()
    } else {
        proof {
            assert(decreases_to!(item => item.spec_children()[k - 1]));
        }
        item_lines(item, k - 1) + trim_empty_tail(split_lines(block_md(item.spec_children()[k - 1], Seq::empty())))
    }
}

/// `s` without the blank lines it ends with, ended by one newline (the
/// empty string stays empty).
pub open spec fn strip_blank_tail(s: Seq<char>) -> Seq<char>
    decreases s.len(),
{
    if s.len() >= 2 && s.last() == '\n' && s[s.len() - 2] == '\n' {
        strip_blank_tail(s.drop_last())
    } else {
        s
    }
}

/// The Markdown of a document: its blocks, with exactly one newline at the
/// end (none for an empty document).
pub open spec fn markdown_of(doc: Node) -> Seq<char> {
    let t = strip_blank_tail(blocks_md(doc, doc.spec_children().len() as int));
    if t.len() > 0 && t.last() != '\n' {
        t.push('\n')
    } else {
        t
    }
}

/// The values of a list of lines.
pub open spec fn lines_view(v: Seq<Vec<char>>) -> Seq<Seq<char>> {
    Seq::new(v.len(), |i: int| v[i]@)
}

/// Split `s` into lines (see [`split_lines`]).
fn split_lines_of(s: &Vec<char>) -> (r: Vec<Vec<char>>)
    ensures
        lines_view(r@) == split_lines(s@),
{
    let mut out: Vec<Vec<char>> = Vec::new();
    let mut p: usize = 0;
    loop
        invariant
            p <= s@.len(),
            lines_view(out@) + split_from(s@, p as int) == split_lines(s@),
        decreases s@.len() - p,
    {
        let mut j = p;
        while j < s.len() && s[j] != '\n'
            invariant
                p <= j <= s@.len(),
                scan(s@, j as int, Stop::Char('\n')) == scan(s@, p as int, Stop::Char('\n')),
            decreases s@.len() - j,
        {
            j = j + 1;
        }
        let mut line: Vec<char> = Vec::new();
        let mut k = p;
        while k < j
            invariant
                p <= k <= j <= s@.len(),
                line@ == s@.subrange(p as int, k as int),
            decreases j - k,
        {
            line.push(s[k]);
            k = k + 1;
            proof {
                assert(line@ =~= s@.subrange(p as int, k as int));
            }
        }
        let ghost before = out@;
        out.push(line);
        proof {
            assert(lines_view(out@) =~= lines_view(before).push(s@.subrange(p as int, j as int)));
        }
        if j >= s.len() {
            proof {
                assert(lines_view(out@) =~= split_lines(s@));
            }
            return out;
        }
        p = j + 1;
    }
}

/// Append the first `upto` lines of `ls`, each ended by a newline: the
/// first after `first` unless lines of the same block came before
/// (`started`), the others after `rest`.
fn push_lines(out: &mut Vec<char>, ls: &Vec<Vec<char>>, upto: usize, first: &Vec<char>, rest: &Vec<char>, started: bool)
    requires
        upto <= ls@.len(),
    ensures
        final(out)@ == old(out)@ + line_block_from(lines_view(ls@).take(upto as int), first@, rest@, started),
{
    let ghost start = out@;
    let mut i: usize = 0;
    while i < upto
        invariant
            i <= upto <= ls@.len(),
            out@ == start + line_block_from(lines_view(ls@).take(i as int), first@, rest@, started),
        decreases upto - i,
    {
        let ghost before = out@;
        if !started && i == 0 {
            push_chars(out, first);
        } else {
            push_chars(out, rest);
        }
        push_chars(out, &ls[i]);
        push_str(out, "\n");
        proof {
            assert(lines_view(ls@).take(i as int + 1).drop_last() =~= lines_view(ls@).take(i as int));
            assert(lines_view(ls@).take(i as int + 1).last() == ls@[i as int]@);
        }
        i = i + 1;
        proof {
            assert(out@ =~= start + line_block_from(lines_view(ls@).take(i as int), first@, rest@, started));
        }
    }
}

/// The lines `ls`, continuing a block in which lines came before when
/// `started`.
pub open spec fn line_block_from(ls: Seq<Seq<char>>, first: Seq<char>, rest: Seq<char>, started: bool) -> Seq<char>
    decreases ls.len(),
{
    if ls.len() == 0 {
        Seq::empty()
    } else {
        line_block_from(ls.drop_last(), first, rest, started) + (if !started && ls.len() == 1 {
            first
        } else {
            rest
        }) + ls.last() + "\n"@
    }
}

/// Lines appended after earlier ones continue the same block.
proof fn lemma_line_block_concat(a: Seq<Seq<char>>, b: Seq<Seq<char>>, first: Seq<char>, rest: Seq<char>)
    ensures
        line_block(a + b, first, rest) == line_block(a, first, rest) + line_block_from(b, first, rest, a.len() > 0),
    decreases b.len(),
{
    if b.len() == 0 {
        assert(a + b =~= a);
        assert(line_block(a, first, rest) =~= line_block(a, first, rest) + Seq::<char>::empty());
    } else {
        assert((a + b).drop_last() =~= a + b.drop_last());
        lemma_line_block_concat(a, b.drop_last(), first, rest);
    }
}

/// The index past the last non-empty line of `ls` (trailing empty lines
/// dropped).
fn trimmed_end(ls: &Vec<Vec<char>>) -> (r: usize)
    ensures
        r <= ls@.len(),
        lines_view(ls@).take(r as int) == trim_empty_tail(lines_view(ls@)),
{
    let mut e = ls.len();
    proof {
        assert(lines_view(ls@).take(e as int) =~= lines_view(ls@));
    }
    while e > 0 && ls[e - 1].len() == 0
        invariant
            e <= ls@.len(),
            trim_empty_tail(lines_view(ls@).take(e as int)) == trim_empty_tail(lines_view(ls@)),
        decreases e,
    {
        proof {
            assert(lines_view(ls@).take(e as int).drop_last() =~= lines_view(ls@).take(e - 1));
        }
        e = e - 1;
    }
    e
}

/// Serialize one block after `indent` (see [`block_md`]).
fn write_block(node: &Node, out: &mut Vec<char>, indent: &Vec<char>)
    ensures
        final(out)@ == old(out)@ + block_md(*node, indent@),
    decreases *node, 1nat,
{
    let ghost start = out@;
    let name = node.node_type().name();
    if str_eq(name, "paragraph") {
        push_chars(out, indent);
        serialize_inline(node, out);
        push_str(out, "\n\n");
        proof {
            assert(out@ =~= start + block_md(*node, indent@));
        }
    } else if str_eq(name, "heading") {
        let lvl: u64 = match node.attrs().lookup("level") {
            Some(AttrValue::Number(v)) => *v,
            _ => 1,
        };
        let hashes: usize = if lvl < 6 { lvl as usize } else { 6 };
        push_chars(out, indent);
        push_repeat(out, '#', hashes);
        push_str(out, " ");
        serialize_inline(node, out);
        push_str(out, "\n\n");
        proof {
            assert(out@ =~= start + block_md(*node, indent@));
        }
    } else if str_eq(name, "blockquote") {
        write_quote(node, out, indent);
    } else if str_eq(name, "code_block") {
        push_chars(out, indent);
        push_str(out, "```\n");
        let t = node.text_content();
        let tc = chars_of(t.as_str());
        push_chars(out, &tc);
        if !(tc.len() > 0 && tc[tc.len() - 1] == '\n') {
            push_str(out, "\n");
        }
        push_chars(out, indent);
        push_str(out, "```\n\n");
        proof {
            assert(out@ =~= start + block_md(*node, indent@));
        }
    } else if str_eq(name, "bullet_list") || str_eq(name, "ordered_list") {
        write_list(node, out, indent);
    } else {
        push_chars(out, indent);
        let h = node.to_html();
        push_str(out, h.as_str());
        push_str(out, "\n\n");
        proof {
            assert(out@ =~= start + block_md(*node, indent@));
        }
    }
}

/// Serialize a blockquote: its blocks, each line quoted.
fn write_quote(node: &Node, out: &mut Vec<char>, indent: &Vec<char>)
    requires
        node.spec_type().spec_name() != "paragraph"@,
        node.spec_type().spec_name() != "heading"@,
        node.spec_type().spec_name() == "blockquote"@,
    ensures
        final(out)@ == old(out)@ + block_md(*node, indent@),
    decreases *node, 0nat,
{
    let ghost start = out@;
        let mut inner: Vec<char> = Vec::new();
        let children = node.content().children();
        let empty: Vec<char> = Vec::new();
        let mut i: usize = 0;
        while i < children.len()
            invariant
                i <= children@.len(),
                children@ == node.spec_children(),
                empty@ == Seq::<char>::empty(),
                inner@ == blocks_md(*node, i as int),
            decreases children.len() - i,
        {
            proof {
                assert(decreases_to!(*node => node.spec_children()[i as int]));
            }
            write_block(&children[i], &mut inner, &empty);
            i = i + 1;
        }
        let mut end = inner.len();
        proof {
            assert(inner@.take(end as int) =~= inner@);
        }
        while end > 0 && inner[end - 1] == '\n'
            invariant
                end <= inner@.len(),
                trim_newlines(inner@.take(end as int)) == trim_newlines(inner@),
            decreases end,
        {
            proof {
                assert(inner@.take(end as int).drop_last() =~= inner@.take(end - 1));
            }
            end = end - 1;
        }
        proof {
            if end == inner@.len() {
                assert(inner@.take(end as int) =~= inner@);
            }
        }
        let mut kept: Vec<char> = Vec::new();
        let mut k: usize = 0;
        while k < end
            invariant
                k <= end <= inner@.len(),
                kept@ == inner@.take(k as int),
            decreases end - k,
        {
            kept.push(inner[k]);
            k = k + 1;
            proof {
                assert(kept@ =~= inner@.take(k as int));
            }
        }
        let lines = split_lines_of(&kept);
        let mut j: usize = 0;
        while j < lines.len()
            invariant
                j <= lines@.len(),
                out@ == start + quote_block(lines_view(lines@).take(j as int), indent@),
            decreases lines.len() - j,
        {
            proof {
                assert(lines_view(lines@).take(j as int + 1).drop_last() =~= lines_view(lines@).take(j as int));
                assert(lines_view(lines@).take(j as int + 1).last() == lines@[j as int]@);
            }
            push_chars(out, indent);
            if lines[j].len() == 0 {
                push_str(out, ">");
            } else {
                push_str(out, "> ");
                push_chars(out, &lines[j]);
            }
            push_str(out, "\n");
            j = j + 1;
            proof {
                assert(out@ =~= start + quote_block(lines_view(lines@).take(j as int), indent@));
            }
        }
        push_str(out, "\n");
        proof {
            assert(lines_view(lines@).take(lines@.len() as int) =~= lines_view(lines@));
            assert(out@ =~= start + block_md(*node, indent@));
        }
}

/// Serialize a bullet or ordered list.
fn write_list(node: &Node, out: &mut Vec<char>, indent: &Vec<char>)
    requires
        node.spec_type().spec_name() != "paragraph"@,
        node.spec_type().spec_name() != "heading"@,
        node.spec_type().spec_name() != "blockquote"@,
        node.spec_type().spec_name() != "code_block"@,
        node.spec_type().spec_name() == "bullet_list"@ || node.spec_type().spec_name() == "ordered_list"@,
    ensures
        final(out)@ == old(out)@ + block_md(*node, indent@),
    decreases *node, 0nat,
{
    let ghost start = out@;
    let name = node.node_type().name();
        let ordered = !str_eq(name, "bullet_list");
        let first_num: u64 = match node.attrs().lookup("start") {
            Some(AttrValue::Number(v)) => *v,
            _ => 1,
        };
        let ghost start_opt: Option<u64> = if ordered {
            Some(list_start(node.spec_attrs()))
        } else {
            None
        };
        let mut counter: u64 = first_num;
        let items = node.content().children();
        let empty: Vec<char> = Vec::new();
        let mut i: usize = 0;
        while i < items.len()
            invariant
                i <= items@.len(),
                items@ == node.spec_children(),
                empty@ == Seq::<char>::empty(),
                ordered ==> counter == counter_at(list_start(node.spec_attrs()), i as nat),
                start_opt == (if ordered {
                    Some(list_start(node.spec_attrs()))
                } else {
                    None
                }),
                first_num == list_start(node.spec_attrs()),
                out@ == start + list_md(*node, i as int, indent@, start_opt),
            decreases items.len() - i,
        {
            let item = &items[i];
            proof {
                assert(decreases_to!(*node => node.spec_children()[i as int]));
            }
            let mut bullet: Vec<char> = Vec::new();
            if ordered {
                let digits = decimal_chars(counter);
                push_chars(&mut bullet, &digits);
                push_str(&mut bullet, ". ");
                counter = if counter == u64::MAX { 0 } else { counter + 1 };
            } else {
                push_str(&mut bullet, "- ");
            }
            let mut first: Vec<char> = Vec::new();
            push_chars(&mut first, indent);
            push_chars(&mut first, &bullet);
            let mut rest: Vec<char> = Vec::new();
            push_chars(&mut rest, indent);
            push_repeat(&mut rest, ' ', bullet.len());
            let ghost item_start = out@;
            let subs = item.content().children();
            let mut started = false;
            let mut s: usize = 0;
            while s < subs.len()
                invariant
                    s <= subs@.len(),
                    i < items@.len(),
                    items@ == node.spec_children(),
                    *item == items@[i as int],
                    subs@ == item.spec_children(),
                    empty@ == Seq::<char>::empty(),
                    started == (item_lines(*item, s as int).len() > 0),
                    out@ == item_start + line_block(item_lines(*item, s as int), first@, rest@),
                decreases subs.len() - s,
            {
                proof {
                    assert(decreases_to!(*node => node.spec_children()[i as int]));
                    assert(decreases_to!(*item => item.spec_children()[s as int]));
                }
                let mut piece: Vec<char> = Vec::new();
                write_block(&subs[s], &mut piece, &empty);
                let lines = split_lines_of(&piece);
                let te = trimmed_end(&lines);
                proof {
                    lemma_line_block_concat(item_lines(*item, s as int), lines_view(lines@).take(te as int), first@, rest@);
                }
                push_lines(out, &lines, te, &first, &rest, started);
                started = started || te > 0;
                proof {
                    assert(item_lines(*item, s as int + 1) =~= item_lines(*item, s as int) + lines_view(lines@).take(te as int));
                }
                s = s + 1;
            }
            proof {
                assert(bullet@ == bullet_for(start_opt, i as nat));
                assert(first@ == indent@ + bullet_for(start_opt, i as nat));
                assert(out@ == item_start + item_md(*item, indent@, bullet@));
                assert(list_md(*node, i as int + 1, indent@, start_opt) == list_md(*node, i as int, indent@, start_opt)
                    + item_md(*item, indent@, bullet_for(start_opt, i as nat)));
            }
            i = i + 1;
        }
        let ghost listed = out@;
        push_str(out, "\n");
        proof {
            assert(listed == start + list_md(*node, node.spec_children().len() as int, indent@, start_opt));
            assert(block_md(*node, indent@) == list_md(*node, node.spec_children().len() as int, indent@, start_opt) + "\n"@);
            assert(out@ =~= start + block_md(*node, indent@));
        }
}

/// Serialize `doc` to CommonMark-subset Markdown (see [`markdown_of`]).
pub fn to_markdown(doc: &Node) -> (r: String)
    ensures
        r@ == markdown_of(*doc),
{
    let mut out: Vec<char> = Vec::new();
    let children = doc.content().children();
    let empty: Vec<char> = Vec::new();
    let mut i: usize = 0;
    while i < children.len()
        invariant
            i <= children@.len(),
            children@ == doc.spec_children(),
            empty@ == Seq::<char>::empty(),
            out@ == blocks_md(*doc, i as int),
        decreases children.len() - i,
    {
        write_block(&children[i], &mut out, &empty);
        i = i + 1;
    }
    let ghost full = out@;
    while out.len() >= 2 && out[out.len() - 1] == '\n' && out[out.len() - 2] == '\n'
        invariant
            strip_blank_tail(out@) == strip_blank_tail(full),
        decreases out.len(),
    {
        out.pop();
    }
    if out.len() > 0 && out[out.len() - 1] != '\n' {
        out.push('\n');
    }
    string_from_chars(&out)
}

// ---- parser -----------------------------------------------------------------

/// The kind of element a Markdown event opens.
#[derive(Debug, Clone)]
pub enum MdTag {
    Paragraph,
    /// A heading of the given level (1 to 6).
    Heading(u64),
    BlockQuote,
    CodeBlock,
    /// A list, ordered from the given number when it has one.
    List(Option<u64>),
    Item,
    Emphasis,
    Strong,
    /// A link to the destination, with its title.
    Link(String, String),
    /// An image of the source, with its title.
    Image(String, String),
    /// Any other element.
    Other,
}

/// The kind of element a Markdown event closes.
#[derive(Debug, Clone, Copy, PartialEq, Eq, Structural)]
pub enum MdEnd {
    Paragraph,
    Heading,
    BlockQuote,
    CodeBlock,
    List,
    Item,
    Emphasis,
    Strong,
    Link,
    Image,
    Other,
}

/// One event of a Markdown parse.
#[derive(Debug, Clone)]
pub enum MdEvent {
    Start(MdTag),
    End(MdEnd),
    /// A run of text.
    Text(String),
    /// An inline code span.
    Code(String),
    SoftBreak,
    HardBreak,
    /// Any other event.
    Other,
}

#[verifier::external_type_specification]
#[verifier::external_body]
pub struct ExCmarkTag<'a>(Tag<'a>);

#[verifier::external_type_specification]
#[verifier::external_body]
pub struct ExCmarkTagEnd(TagEnd);

/// Which pulldown-cmark tag `t` is, with its heading level (pulldown-cmark
/// numbers `H1`..`H6` 1 to 6), list start, or link or image destination and
/// title.
#[verifier::external_body]
fn tag_kind(t: Tag<'_>) -> (r: MdTag)
    ensures
        r matches MdTag::Heading(l) ==> 1 <= l <= 6,
{
    match t {
        Tag::Paragraph => MdTag::Paragraph,
        Tag::Heading { level, .. } => MdTag::Heading(level as u64),
        Tag::BlockQuote(_) => MdTag::BlockQuote,
        Tag::CodeBlock(_) => MdTag::CodeBlock,
        Tag::List(start) => MdTag::List(start),
        Tag::Item => MdTag::Item,
        Tag::Emphasis => MdTag::Emphasis,
        Tag::Strong => MdTag::Strong,
        Tag::Link { dest_url, title, .. } => MdTag::Link(dest_url.to_string(), title.to_string()),
        Tag::Image { dest_url, title, .. } => MdTag::Image(dest_url.to_string(), title.to_string()),
        _ => MdTag::Other,
    }
}

/// Which pulldown-cmark end tag `t` is.
#[verifier::external_body]
fn end_kind(t: TagEnd) -> MdEnd {
    match t {
        TagEnd::Paragraph => MdEnd::Paragraph,
        TagEnd::Heading(_) => MdEnd::Heading,
        TagEnd::BlockQuote(_) => MdEnd::BlockQuote,
        TagEnd::CodeBlock => MdEnd::CodeBlock,
        TagEnd::List(_) => MdEnd::List,
        TagEnd::Item => MdEnd::Item,
        TagEnd::Emphasis => MdEnd::Emphasis,
        TagEnd::Strong => MdEnd::Strong,
        TagEnd::Link => MdEnd::Link,
        TagEnd::Image => MdEnd::Image,
        _ => MdEnd::Other,
    }
}

/// The view of a Markdown tag: its strings as character sequences.
pub enum MdTagV {
    Paragraph,
    Heading(u64),
    BlockQuote,
    CodeBlock,
    List(Option<u64>),
    Item,
    Emphasis,
    Strong,
    Link(Seq<char>, Seq<char>),
    Image(Seq<char>, Seq<char>),
    Other,
}

/// The view of a Markdown event: its strings as character sequences.
pub enum MdEventV {
    Start(MdTagV),
    End(MdEnd),
    Text(Seq<char>),
    Code(Seq<char>),
    SoftBreak,
    HardBreak,
    Other,
}

impl View for MdTag {
    type V = MdTagV;

    open spec fn view(&self) -> MdTagV {
        match self {
            MdTag::Paragraph => MdTagV::Paragraph,
            MdTag::Heading(l) => MdTagV::Heading(*l),
            MdTag::BlockQuote => MdTagV::BlockQuote,
            MdTag::CodeBlock => MdTagV::CodeBlock,
            MdTag::List(n) => MdTagV::List(*n),
            MdTag::Item => MdTagV::Item,
            MdTag::Emphasis => MdTagV::Emphasis,
            MdTag::Strong => MdTagV::Strong,
            MdTag::Link(d, t) => MdTagV::Link(d@, t@),
            MdTag::Image(d, t) => MdTagV::Image(d@, t@),
            MdTag::Other => MdTagV::Other,
        }
    }
}

impl View for MdEvent {
    type V = MdEventV;

    open spec fn view(&self) -> MdEventV {
        match self {
            MdEvent::Start(t) => MdEventV::Start(t@),
            MdEvent::End(e) => MdEventV::End(*e),
            MdEvent::Text(s) => MdEventV::Text(s@),
            MdEvent::Code(s) => MdEventV::Code(s@),
            MdEvent::SoftBreak => MdEventV::SoftBreak,
            MdEvent::HardBreak => MdEventV::HardBreak,
            MdEvent::Other => MdEventV::Other,
        }
    }
}

/// The events pulldown-cmark reads from the Markdown text `md` with every
/// extension enabled, as the reader tells them apart.
pub uninterp spec fn cmark_parse(md: Seq<char>) -> Seq<MdEventV>;

/// The Markdown events of `md`: pulldown-cmark's `Parser::new_ext` with
/// `Options::all()`, each event converted one for one (a start or end with
/// its tag, text or inline code with its string, a soft or hard break, or
/// another event). The events are named `cmark_parse(md)`; heading levels
/// are 1 to 6, as pulldown-cmark's `HeadingLevel` has them.
#[verifier::external_body]
fn markdown_events(md: &str) -> (r: Vec<MdEvent>)
    ensures
        r@.map_values(|e: MdEvent| e@) == cmark_parse(md@),
        forall|i: int| 0 <= i < r@.len() ==> (#[trigger] r@[i] matches MdEvent::Start(MdTag::Heading(l)) ==> 1 <= l <= 6),
{
    Parser::new_ext(md, Options::all()).map(|e| match e {
        Event::Start(t) => MdEvent::Start(tag_kind(t)),
        Event::End(t) => MdEvent::End(end_kind(t)),
        Event::Text(s) => MdEvent::Text(s.to_string()),
        Event::Code(s) => MdEvent::Code(s.to_string()),
        Event::SoftBreak => MdEvent::SoftBreak,
        Event::HardBreak => MdEvent::HardBreak,
        _ => MdEvent::Other,
    }).collect()
}

/// All of `v` are valid trees of `s`.
pub open spec fn all_valid(s: Schema, v: Seq<Node>) -> bool {
    forall|i: int| 0 <= i < v.len() ==> valid_tree(s, #[trigger] v[i])
}

/// `m` is the schema's mark type named `name`, with the attributes `given`
/// supplies completed with the type's declared defaults.
pub open spec fn schema_mark(s: Schema, name: Seq<char>, given: spec_fn(Seq<char>) -> Option<AttrValueV>, m: Mark) -> bool {
    &&& m.spec_type_id() < s.spec_mark_types().len()
    &&& s.spec_mark_types()[m.spec_type_id() as int] == m.mark_type_spec()
    &&& m.mark_type_spec().spec_name() == name
    &&& forall|k: Seq<char>| #[trigger] attrs_lookup(m.spec_attrs(), k) == match given(k) {
        Some(v) => Some(v),
        None => default_for(m.mark_type_spec().spec_decl().attrs@, k),
    }
}

/// No attributes given.
pub open spec fn no_attrs() -> spec_fn(Seq<char>) -> Option<AttrValueV> {
    |k: Seq<char>| None::<AttrValueV>
}

/// The attributes of a link: its destination, and its title when it has
/// one.
pub open spec fn link_attrs(dest: Seq<char>, title: Seq<char>) -> spec_fn(Seq<char>) -> Option<AttrValueV> {
    |k: Seq<char>| if k == "href"@ {
        Some(AttrValueV::String(dest))
    } else if k == "title"@ && title.len() > 0 {
        Some(AttrValueV::String(title))
    } else {
        None
    }
}

/// The index of the last of the first `k` marks whose type is named
/// `name` (or -1).
pub open spec fn last_named(ms: Seq<Mark>, name: Seq<char>, k: int) -> int
    decreases k,
{
    if k <= 0 {
        -1
    } else if ms[k - 1].mark_type_spec().spec_name() == name {
        k - 1
    } else {
        last_named(ms, name, k - 1)
    }
}

/// `ms` with the innermost mark named `name` removed.
pub open spec fn without_last_named(ms: Seq<Mark>, name: Seq<char>) -> Seq<Mark> {
    let i = last_named(ms, name, ms.len() as int);
    if i < 0 { ms } else { ms.remove(i) }
}

/// `after` is `before` with `n` appended, where `n` is a text node holding
/// `text` under the marks `marks` — or `before` itself when the schema has
/// no text type.
pub open spec fn text_appended(s: Schema, before: Seq<Node>, after: Seq<Node>, text: Seq<char>, marks: Seq<MarkV>) -> bool {
    if s.spec_node_names().contains("text"@) {
        &&& after.len() == before.len() + 1
        &&& after.drop_last() == before
        &&& after.last().spec_type().spec_is_text()
        &&& after.last().spec_text() == Some(text)
        &&& marks_view(after.last().spec_marks()) == marks
    } else {
        after == before
    }
}

/// `after` is `before`, with the mark `name` (with attributes `given`)
/// pushed when the schema has that mark type.
pub open spec fn mark_pushed(s: Schema, before: Seq<Mark>, after: Seq<Mark>, name: Seq<char>,
    given: spec_fn(Seq<char>) -> Option<AttrValueV>) -> bool {
    if s.spec_mark_names().contains(name) {
        &&& after.len() == before.len() + 1
        &&& after.drop_last() == before
        &&& schema_mark(s, name, given, after.last())
    } else {
        after == before
    }
}

/// The attributes of an image: its source, an empty alt text, and its
/// title when it has one.
pub open spec fn image_attrs(src: Seq<char>, title: Seq<char>) -> spec_fn(Seq<char>) -> Option<AttrValueV> {
    |k: Seq<char>| if k == "src"@ {
        Some(AttrValueV::String(src))
    } else if k == "alt"@ {
        Some(AttrValueV::String(Seq::empty()))
    } else if k == "title"@ && title.len() > 0 {
        Some(AttrValueV::String(title))
    } else {
        None
    }
}

/// Whether some mark of `ms` has a type named `name`.
pub open spec fn has_mark_named(ms: Seq<Mark>, name: Seq<char>) -> bool {
    exists|i: int| 0 <= i < ms.len() && (#[trigger] ms[i]).mark_type_spec().spec_name() == name
}

/// `after` is `before` with an inline code span appended: a text node
/// holding `text` under the marks `ms`, plus the schema's `code` mark when
/// it has one and none of `ms` is a code mark — or `before` itself when the
/// schema has no text type.
pub open spec fn code_appended(s: Schema, before: Seq<Node>, after: Seq<Node>, text: Seq<char>, ms: Seq<Mark>) -> bool {
    if s.spec_node_names().contains("text"@) {
        let lm = after.last().spec_marks();
        &&& after.len() == before.len() + 1
        &&& after.drop_last() == before
        &&& after.last().spec_type().spec_is_text()
        &&& after.last().spec_text() == Some(text)
        &&& if s.spec_mark_names().contains("code"@) && !has_mark_named(ms, "code"@) {
            &&& lm.len() == ms.len() + 1
            &&& marks_view(lm.drop_last()) == marks_view(ms)
            &&& schema_mark(s, "code"@, no_attrs(), lm.last())
        } else {
            marks_view(lm) == marks_view(ms)
        }
    } else {
        after == before
    }
}

/// `after` is `before`, with an image node appended when the schema has an
/// image type that accepts it: the image holds the attributes `given`
/// supplies (completed with defaults) and the marks `ms`, and no content.
pub open spec fn image_appended(s: Schema, before: Seq<Node>, after: Seq<Node>,
    given: spec_fn(Seq<char>) -> Option<AttrValueV>, ms: Seq<Mark>) -> bool {
    &&& after.len() <= before.len() + 1
    &&& after.take(before.len() as int) == before
    &&& after.len() == before.len() + 1 ==> {
        let img = after.last();
        &&& s.spec_node_names().contains("image"@)
        &&& img.spec_type().spec_name() == "image"@
        &&& img.spec_children().len() == 0
        &&& img.spec_text() is None
        &&& marks_view(img.spec_marks()) == marks_view(ms)
        &&& forall|k: Seq<char>| #[trigger] attrs_lookup(img.spec_attrs(), k) == match given(k) {
            Some(v) => Some(v),
            None => default_for(img.spec_type().spec_decl().attrs@, k),
        }
    }
}

/// One inline event applied to the nodes `o0` and the open marks `m0`,
/// giving `o1` and `m1`: text, breaks, code spans and images append nodes
/// under the open marks; strong, emphasis and link starts open a mark, their
/// ends close the innermost one; other events change nothing.
pub open spec fn inline_step(s: Schema, e: MdEvent, o0: Seq<Node>, m0: Seq<Mark>, o1: Seq<Node>, m1: Seq<Mark>) -> bool {
        match e {
            MdEvent::Text(t) => m1 == m0
                && text_appended(s, o0, o1, t@, marks_view(m0)),
            MdEvent::SoftBreak => m1 == m0
                && text_appended(s, o0, o1, seq![' '], marks_view(m0)),
            MdEvent::HardBreak => m1 == m0
                && text_appended(s, o0, o1, seq![' '], marks_view(m0)),
            MdEvent::Code(t) => m1 == m0
                && code_appended(s, o0, o1, t@, m0),
            MdEvent::Start(MdTag::Strong) => o1 == o0
                && mark_pushed(s, m0, m1, "strong"@, no_attrs()),
            MdEvent::Start(MdTag::Emphasis) => o1 == o0
                && mark_pushed(s, m0, m1, "em"@, no_attrs()),
            MdEvent::Start(MdTag::Link(d, t)) => o1 == o0
                && mark_pushed(s, m0, m1, "link"@, link_attrs(d@, t@)),
            MdEvent::Start(MdTag::Image(d, t)) => m1 == m0
                && image_appended(s, o0, o1, image_attrs(d@, t@), m0),
            MdEvent::End(MdEnd::Strong) => o1 == o0
                && m1 == without_last_named(m0, "strong"@),
            MdEvent::End(MdEnd::Emphasis) => o1 == o0
                && m1 == without_last_named(m0, "em"@),
            MdEvent::End(MdEnd::Link) => o1 == o0
                && m1 == without_last_named(m0, "link"@),
            _ => o1 == o0 && m1 == m0,
        }
}

/// The inline events `ev[from..to]` applied in turn to `o0` and `m0`, giving
/// `o1` and `m1`.
pub open spec fn inline_run(s: Schema, ev: Seq<MdEvent>, from: int, to: int, o0: Seq<Node>, m0: Seq<Mark>,
    o1: Seq<Node>, m1: Seq<Mark>) -> bool
    decreases to - from,
{
    if from >= to {
        o1 == o0 && m1 == m0
    } else {
        exists|o: Seq<Node>, m: Seq<Mark>| #[trigger] inline_step(s, ev[from], o0, m0, o, m)
            && inline_run(s, ev, from + 1, to, o, m, o1, m1)
    }
}

/// A run extended by one more event.
proof fn lemma_inline_run_extend(s: Schema, ev: Seq<MdEvent>, from: int, k: int, o0: Seq<Node>, m0: Seq<Mark>,
    o1: Seq<Node>, m1: Seq<Mark>, o2: Seq<Node>, m2: Seq<Mark>)
    requires
        from <= k,
        inline_run(s, ev, from, k, o0, m0, o1, m1),
        inline_step(s, ev[k], o1, m1, o2, m2),
    ensures
        inline_run(s, ev, from, k + 1, o0, m0, o2, m2),
    decreases k - from,
{
    if from == k {
        assert(inline_run(s, ev, k + 1, k + 1, o2, m2, o2, m2));
        assert(inline_step(s, ev[from], o0, m0, o2, m2));
    } else {
        let (o, m) = choose|o: Seq<Node>, m: Seq<Mark>| #[trigger] inline_step(s, ev[from], o0, m0, o, m)
            && inline_run(s, ev, from + 1, k, o, m, o1, m1);
        lemma_inline_run_extend(s, ev, from + 1, k, o, m, o1, m1, o2, m2);
        assert(inline_step(s, ev[from], o0, m0, o, m) && inline_run(s, ev, from + 1, k + 1, o, m, o2, m2));
    }
}

/// The index of the first `End(end)` at or after `pos` (or the length).
pub open spec fn end_at(ev: Seq<MdEvent>, pos: int, end: MdEnd) -> int
    decreases ev.len() - pos,
{
    if pos < 0 || pos >= ev.len() {
        ev.len() as int
    } else if ev[pos] == MdEvent::End(end) {
        pos
    } else {
        end_at(ev, pos + 1, end)
    }
}

/// Marks copied from `ms`: the same types and values.
pub open spec fn same_marks(a: Seq<Mark>, ms: Seq<Mark>) -> bool {
    &&& marks_view(a) == marks_view(ms)
    &&& a.len() == ms.len()
    &&& forall|i: int| 0 <= i < ms.len() ==> (#[trigger] a[i]).mark_type_spec() == ms[i].mark_type_spec()
}

/// The text of a code block from `pos`: text and code events verbatim, up
/// to the block's end.
pub open spec fn code_text(ev: Seq<MdEvent>, pos: int) -> Seq<char>
    decreases ev.len() - pos,
{
    if pos < 0 || pos >= ev.len() {
        Seq::empty()
    } else {
        match ev[pos] {
            MdEvent::Text(t) => t@ + code_text(ev, pos + 1),
            MdEvent::Code(t) => t@ + code_text(ev, pos + 1),
            MdEvent::End(MdEnd::CodeBlock) => Seq::empty(),
            _ => code_text(ev, pos + 1),
        }
    }
}

/// A text node holding `text` under `marks`, appended to `out` when the
/// schema has a text type.
fn push_text(schema: &Schema, out: &mut Vec<Node>, text: &str, marks: Vec<Mark>)
    requires
        all_valid(*schema, old(out)@),
    ensures
        all_valid(*schema, final(out)@),
        text_appended(*schema, old(out)@, final(out)@, text@, marks_view(marks@)),
        final(out)@.len() == old(out)@.len() + 1 ==> final(out)@.last().spec_marks() == marks@,
{
    schema.check_names();
    let ghost ms = marks@;
    match schema.text(text, marks) {
        Ok(n) => {
            proof {
                let id = n.spec_type().spec_id() as int;
                assert(schema.spec_node_types()[id] == n.spec_type());
                assert(schema.spec_node_names()[id] == "text"@);
            }
            push_valid(schema, out, n);
            proof {
                assert(out@.drop_last() =~= old(out)@);
            }
        },
        Err(_) => {},
    }
}

/// Whether `schema` has a node type named `name`.
fn has_type(schema: &Schema, name: &str) -> (r: bool)
    ensures
        r == schema.spec_node_names().contains(name@),
{
    match schema.node_type(name) {
        Some(t) => {
            proof {
                assert(schema.spec_node_names()[t.spec_id() as int] == name@);
            }
            true
        },
        None => false,
    }
}

/// The attributes of an image of `src` titled `title`.
fn image_attr_map(src: &str, title: &str) -> (r: Attrs)
    ensures
        r.wf(),
        forall|k: Seq<char>| #[trigger] r.spec_get(k) == image_attrs(src@, title@)(k),
{
    proof {
        reveal_strlit("src");
        reveal_strlit("alt");
        reveal_strlit("title");
        reveal_strlit("");
        assert("src"@[0] != "alt"@[0]);
        assert("src"@.len() != "title"@.len() && "alt"@.len() != "title"@.len());
        assert(""@ =~= Seq::<char>::empty());
    }
    let mut attrs = Attrs::new();
    let ghost a0 = attrs;
    attrs.insert("src".to_string(), AttrValue::from_str(src));
    attrs.insert("alt".to_string(), AttrValue::from_str(""));
    if crate::strutil::char_count(title) > 0 {
        attrs.insert("title".to_string(), AttrValue::from_str(title));
    }
    proof {
        assert forall|k: Seq<char>| #[trigger] attrs.spec_get(k) == image_attrs(src@, title@)(k) by {
            assert(a0.spec_get(k) is None);
        }
    }
    attrs
}

/// The mark of the type named `name` with `attrs`, completed with the
/// type's defaults, if the schema has that type.
fn mark_of(schema: &Schema, name: &str, attrs: Attrs) -> (r: Option<Mark>)
    requires
        attrs.wf(),
    ensures
        r is Some <==> schema.spec_mark_names().contains(name@),
        r matches Some(m) ==> schema_mark(*schema, name@, |k: Seq<char>| attrs.spec_get(k), m),
{
    match schema.mark_type(name) {
        Some(mt) => {
            proof {
                assert(schema.spec_mark_names()[mt.spec_id() as int] == name@);
            }
            let ghost given = attrs;
            let filled = Schema::fill_attrs(&mt.spec().attrs, attrs);
            let m = mt.create(filled);
            proof {
                assert forall|k: Seq<char>| #[trigger] attrs_lookup(m.spec_attrs(), k) == match given.spec_get(k) {
                    Some(v) => Some(v),
                    None => default_for(m.mark_type_spec().spec_decl().attrs@, k),
                } by {
                    assert(filled.spec_get(k) == filled_attr(mt.spec_decl().attrs@, given, k));
                }
            }
            Some(m)
        },
        None => None,
    }
}

/// The mark of the type named `name` with its default attributes, if the
/// schema has that type.
fn plain_mark(schema: &Schema, name: &str) -> (r: Option<Mark>)
    ensures
        r is Some <==> schema.spec_mark_names().contains(name@),
        r matches Some(m) ==> schema_mark(*schema, name@, no_attrs(), m),
{
    let empty = Attrs::new();
    let ghost e = empty;
    let r = mark_of(schema, name, empty);
    proof {
        assert(no_attrs() =~= |k: Seq<char>| e.spec_get(k)) by {
            assert forall|k: Seq<char>| #[trigger] no_attrs()(k) == e.spec_get(k) by {}
        }
    }
    r
}

/// The mark of a link to `dest` titled `title`, if the schema has a link
/// mark type.
fn link_mark(schema: &Schema, dest: &str, title: &str) -> (r: Option<Mark>)
    ensures
        r is Some <==> schema.spec_mark_names().contains("link"@),
        r matches Some(m) ==> schema_mark(*schema, "link"@, link_attrs(dest@, title@), m),
{
    proof {
        reveal_strlit("href");
        reveal_strlit("title");
        assert("href"@.len() != "title"@.len());
    }
    let mut a = Attrs::new();
    let ghost a0 = a;
    a.insert("href".to_string(), AttrValue::from_str(dest));
    let ghost a1 = a;
    if crate::strutil::char_count(title) > 0 {
        a.insert("title".to_string(), AttrValue::from_str(title));
    }
    let ghost a2 = a;
    proof {
        assert forall|k: Seq<char>| #[trigger] link_attrs(dest@, title@)(k) == a2.spec_get(k) by {
            assert(a0.spec_get(k) is None);
        }
        assert(link_attrs(dest@, title@) =~= |k: Seq<char>| a2.spec_get(k));
    }
    mark_of(schema, "link", a)
}

/// Remove the innermost open mark named `name`.
fn pop_mark(marks: &mut Vec<Mark>, name: &str)
    ensures
        final(marks)@ == without_last_named(old(marks)@, name@),
{
    let ghost ms = marks@;
    let mut k = marks.len();
    while k > 0
        invariant
            k <= marks@.len(),
            marks@ == ms,
            ms == old(marks)@,
            last_named(ms, name@, ms.len() as int) == last_named(ms, name@, k as int),
        decreases k,
    {
        if name_is(marks[k - 1].mark_type(), name) {
            proof {
                assert(last_named(ms, name@, k as int) == k - 1);
            }
            marks.remove(k - 1);
            proof {
                assert(marks@ == ms.remove(k - 1));
                assert(without_last_named(ms, name@) == ms.remove(k - 1));
            }
            return;
        }
        k = k - 1;
    }
}

/// Append a valid node.
fn push_valid(schema: &Schema, out: &mut Vec<Node>, n: Node)
    requires
        all_valid(*schema, old(out)@),
        valid_tree(*schema, n),
    ensures
        all_valid(*schema, final(out)@),
        final(out)@ == old(out)@.push(n),
{
    out.push(n);
}

/// Apply one inline event: text (carrying `marks`) and images become
/// nodes; mark starts and ends open and close marks. Text the schema cannot
/// hold is dropped.
fn consume_inline(schema: &Schema, ev: &MdEvent, out: &mut Vec<Node>, marks: &mut Vec<Mark>) -> (r: Result<(), DocError>)
    requires
        all_valid(*schema, old(out)@),
    ensures
        all_valid(*schema, final(out)@),
        r is Ok,
        inline_step(*schema, *ev, old(out)@, old(marks)@, final(out)@, final(marks)@),
{
    match ev {
        MdEvent::Text(t) => {
            push_text(schema, out, t.as_str(), clone_marks(marks.as_slice()));
        },
        MdEvent::Code(t) => {
            let mut cm = clone_marks(marks.as_slice());
            let ghost ms = marks@;
            match plain_mark(schema, "code") {
                Some(m) => {
                    let mut already = false;
                    let mut i: usize = 0;
                    while i < cm.len()
                        invariant
                            i <= cm@.len(),
                            cm@.len() == ms.len(),
                            forall|j: int| 0 <= j < ms.len() ==> (#[trigger] cm@[j]).mark_type_spec() == ms[j].mark_type_spec(),
                            already == exists|j: int| 0 <= j < i && (#[trigger] ms[j]).mark_type_spec().spec_name() == "code"@,
                        decreases cm.len() - i,
                    {
                        if name_is(cm[i].mark_type(), "code") {
                            already = true;
                        }
                        i = i + 1;
                    }
                    if !already {
                        let ghost before = cm@;
                        cm.push(m);
                        proof {
                            assert(cm@.drop_last() =~= before);
                            assert(marks_view(cm@.drop_last()) == marks_view(ms));
                        }
                    }
                },
                None => {},
            }
            let ghost cmv = cm@;
            push_text(schema, out, t.as_str(), cm);
            proof {
                if schema.spec_node_names().contains("text"@) {
                    assert(out@.last().spec_marks() == cmv);
                }
            }
        },
        MdEvent::SoftBreak | MdEvent::HardBreak => {
            proof {
                reveal_strlit(" ");
                assert(" "@ =~= seq![' ']);
            }
            push_text(schema, out, " ", clone_marks(marks.as_slice()));
        },
        MdEvent::Start(MdTag::Strong) => {
            match plain_mark(schema, "strong") {
                Some(m) => {
                    marks.push(m);
                    proof {
                        assert(marks@.drop_last() =~= old(marks)@);
                    }
                },
                None => {},
            }
        },
        MdEvent::Start(MdTag::Emphasis) => {
            match plain_mark(schema, "em") {
                Some(m) => {
                    marks.push(m);
                    proof {
                        assert(marks@.drop_last() =~= old(marks)@);
                    }
                },
                None => {},
            }
        },
        MdEvent::Start(MdTag::Link(dest, title)) => {
            match link_mark(schema, dest.as_str(), title.as_str()) {
                Some(m) => {
                    marks.push(m);
                    proof {
                        assert(marks@.drop_last() =~= old(marks)@);
                    }
                },
                None => {},
            }
        },
        MdEvent::Start(MdTag::Image(dest, title)) => {
            if has_type(schema, "image") {
                let attrs = image_attr_map(dest.as_str(), title.as_str());
                let ghost given = attrs;
                match schema.node_checked("image", attrs, Vec::new(), clone_marks(marks.as_slice())) {
                    Ok(img) => {
                        push_valid(schema, out, img);
                        proof {
                            assert(out@.take(old(out)@.len() as int) =~= old(out)@);
                            assert forall|k: Seq<char>| #[trigger] attrs_lookup(img.spec_attrs(), k) == match image_attrs(dest@, title@)(k) {
                                Some(v) => Some(v),
                                None => default_for(img.spec_type().spec_decl().attrs@, k),
                            } by {
                                assert(given.spec_get(k) == image_attrs(dest@, title@)(k));
                            }
                        }
                    },
                    Err(_) => {
                        proof {
                            assert(out@.take(old(out)@.len() as int) =~= old(out)@);
                        }
                    },
                }
            } else {
                proof {
                    assert(out@.take(old(out)@.len() as int) =~= old(out)@);
                }
            }
        },
        MdEvent::End(MdEnd::Strong) => pop_mark(marks, "strong"),
        MdEvent::End(MdEnd::Emphasis) => pop_mark(marks, "em"),
        MdEvent::End(MdEnd::Link) => pop_mark(marks, "link"),
        _ => {},
    }
    Ok(())
}

/// The nodes of one inline event met at block level.
fn consume_inline_event(schema: &Schema, ev: &MdEvent, inherited: &Vec<Mark>) -> (r: Vec<Node>)
    ensures
        all_valid(*schema, r@),
        exists|m0: Seq<Mark>, m1: Seq<Mark>| same_marks(m0, inherited@)
            && #[trigger] inline_step(*schema, *ev, Seq::<Node>::empty(), m0, r@, m1),
{
    let mut out: Vec<Node> = Vec::new();
    let mut marks = clone_marks(inherited.as_slice());
    let ghost m0 = marks@;
    let _ = consume_inline(schema, ev, &mut out, &mut marks);
    let ghost ov = out@;
    let ghost mf = marks@;
    proof {
        assert(same_marks(m0, inherited@));
        assert(inline_step(*schema, *ev, Seq::<Node>::empty(), m0, ov, mf));
    }
    out
}

/// Read inline events from `pos` up to the end tag `end` (or the end of
/// input): the nodes, and the index past the end tag.
fn parse_inline(schema: &Schema, ev: &Vec<MdEvent>, pos: usize, end: MdEnd, inherited: &Vec<Mark>) -> (r: Result<(Vec<Node>, usize), DocError>)
    requires
        pos <= ev@.len(),
    ensures
        r matches Ok(p) ==> all_valid(*schema, p.0@) && pos <= p.1 <= ev@.len(),
        r matches Ok(p) && p.1 == (if end_at(ev@, pos as int, end) < ev@.len() {
            end_at(ev@, pos as int, end) + 1
        } else {
            ev@.len() as int
        }),
        r matches Ok(p) ==> exists|m0: Seq<Mark>, m1: Seq<Mark>| same_marks(m0, inherited@)
            && #[trigger] inline_run(*schema, ev@, pos as int, end_at(ev@, pos as int, end), Seq::<Node>::empty(), m0, p.0@, m1),
{
    let mut out: Vec<Node> = Vec::new();
    let mut marks = clone_marks(inherited.as_slice());
    let ghost m0 = marks@;
    let mut k = pos;
    let mut next = ev.len();
    while k < ev.len()
        invariant_except_break
            pos <= k <= ev@.len(),
            all_valid(*schema, out@),
            same_marks(m0, inherited@),
            end_at(ev@, pos as int, end) == end_at(ev@, k as int, end),
            inline_run(*schema, ev@, pos as int, k as int, Seq::empty(), m0, out@, marks@),
            next == ev@.len(),
        ensures
            all_valid(*schema, out@),
            same_marks(m0, inherited@),
            pos <= next <= ev@.len(),
            next == (if end_at(ev@, pos as int, end) < ev@.len() {
                end_at(ev@, pos as int, end) + 1
            } else {
                ev@.len() as int
            }),
            inline_run(*schema, ev@, pos as int, end_at(ev@, pos as int, end), Seq::empty(), m0, out@, marks@),
        decreases ev@.len() - k,
    {
        let stop = match &ev[k] {
            MdEvent::End(t) => *t == end,
            _ => false,
        };
        if stop {
            proof {
                assert(end_at(ev@, k as int, end) == k);
            }
            next = k + 1;
            break;
        }
        proof {
            assert(ev@[k as int] != MdEvent::End(end));
        }
        let ghost o_before = out@;
        let ghost m_before = marks@;
        let _ = consume_inline(schema, &ev[k], &mut out, &mut marks);
        proof {
            lemma_inline_run_extend(*schema, ev@, pos as int, k as int, Seq::empty(), m0, o_before, m_before, out@, marks@);
        }
        k = k + 1;
        proof {
            if k == ev.len() {
                assert(end_at(ev@, k as int, end) == k);
            }
        }
    }
    let ghost mf = marks@;
    let ghost ov = out@;
    proof {
        assert(inline_run(*schema, ev@, pos as int, end_at(ev@, pos as int, end), Seq::<Node>::empty(), m0, ov, mf));
        assert(same_marks(m0, inherited@));
    }
    let res: Result<(Vec<Node>, usize), DocError> = Ok((out, next));
    proof {
        assert(res matches Ok(p) && p.0@ == ov);
    }
    res
}

/// The text of a code block up to its end: text and code events verbatim.
fn collect_code(ev: &Vec<MdEvent>, pos: usize) -> (r: (String, usize))
    requires
        pos <= ev@.len(),
    ensures
        pos <= r.1 <= ev@.len(),
        r.0@ == code_text(ev@, pos as int),
        r.1 == (if end_at(ev@, pos as int, MdEnd::CodeBlock) < ev@.len() {
            end_at(ev@, pos as int, MdEnd::CodeBlock) + 1
        } else {
            ev@.len() as int
        }),
{
    let mut out: Vec<char> = Vec::new();
    let mut k = pos;
    while k < ev.len()
        invariant
            pos <= k <= ev@.len(),
            out@ + code_text(ev@, k as int) == code_text(ev@, pos as int),
            end_at(ev@, pos as int, MdEnd::CodeBlock) == end_at(ev@, k as int, MdEnd::CodeBlock),
        decreases ev@.len() - k,
    {
        let ghost before = out@;
        match &ev[k] {
            MdEvent::Text(t) | MdEvent::Code(t) => {
                push_str(&mut out, t.as_str());
                proof {
                    assert(out@ + code_text(ev@, k as int + 1) =~= before + code_text(ev@, k as int));
                }
            },
            MdEvent::End(MdEnd::CodeBlock) => {
                proof {
                    assert(out@ + Seq::<char>::empty() =~= out@);
                }
                return (string_from_chars(&out), k + 1);
            },
            _ => {},
        }
        k = k + 1;
    }
    proof {
        assert(out@ + Seq::<char>::empty() =~= out@);
    }
    (string_from_chars(&out), k)
}

/// The index past the end of the element whose start came just before
/// `pos`, nested elements skipped.
fn skip_until_end(ev: &Vec<MdEvent>, pos: usize) -> (r: usize)
    requires
        pos <= ev@.len(),
    ensures
        pos <= r <= ev@.len(),
        r == element_end(ev@, pos as int, 0),
{
    // Elements open besides the one being skipped.
    let mut depth: usize = 0;
    let mut k = pos;
    while k < ev.len()
        invariant
            pos <= k <= ev@.len(),
            depth <= k - pos,
            element_end(ev@, pos as int, 0) == element_end(ev@, k as int, depth as nat),
        decreases ev@.len() - k,
    {
        match &ev[k] {
            MdEvent::Start(_) => {
                depth = depth + 1;
            },
            MdEvent::End(_) => {
                if depth == 0 {
                    return k + 1;
                }
                depth = depth - 1;
            },
            _ => {},
        }
        k = k + 1;
    }
    k
}

/// `after` is `before`, with the node `name` (attributes `given` completed
/// with defaults, children `children`, no marks) appended when the schema
/// has a type of that name.
pub open spec fn block_appended(s: Schema, before: Seq<Node>, after: Seq<Node>, name: Seq<char>,
    given: spec_fn(Seq<char>) -> Option<AttrValueV>, children: Seq<Node>) -> bool {
    if s.spec_node_names().contains(name) {
        let n = after.last();
        &&& after.len() == before.len() + 1
        &&& after.drop_last() == before
        &&& n.spec_type().spec_name() == name
        &&& n.spec_children() == children
        &&& n.spec_text() is None
        &&& n.spec_marks().len() == 0
        &&& forall|k: Seq<char>| #[trigger] attrs_lookup(n.spec_attrs(), k) == match given(k) {
            Some(v) => Some(v),
            None => default_for(n.spec_type().spec_decl().attrs@, k),
        }
    } else {
        after == before
    }
}

/// The index past the end of the element whose start came just before
/// `k`, with `depth` elements opened since (or the length).
pub open spec fn element_end(ev: Seq<MdEvent>, k: int, depth: nat) -> int
    decreases ev.len() - k,
{
    if k < 0 || k >= ev.len() {
        ev.len() as int
    } else {
        match ev[k] {
            MdEvent::Start(_) => element_end(ev, k + 1, depth + 1),
            MdEvent::End(_) => if depth == 0 { k + 1 } else { element_end(ev, k + 1, (depth - 1) as nat) },
            _ => element_end(ev, k + 1, depth),
        }
    }
}

/// Whether appending the block `name` with `children` succeeds: the schema
/// has no such type (nothing is appended), or the children fit together and
/// are valid content for it.
pub open spec fn builds(s: Schema, name: Seq<char>, children: Seq<Node>) -> bool {
    !s.spec_node_names().contains(name)
        || (nodes_size(children) + 2 <= usize::MAX && s.spec_content_valid(s.spec_id_of(name), children))
}

/// Build the node `name` (when the schema has it) and append it.
fn push_block(schema: &Schema, out: &mut Vec<Node>, name: &str, attrs: Attrs, children: Vec<Node>) -> (r: Result<(), DocError>)
    requires
        attrs.wf(),
        all_valid(*schema, old(out)@),
        all_valid(*schema, children@),
    ensures
        all_valid(*schema, final(out)@),
        r is Ok ==> block_appended(*schema, old(out)@, final(out)@, name@, |k: Seq<char>| attrs.spec_get(k), children@),
        r is Err ==> schema.spec_node_names().contains(name@),
        r is Ok <==> builds(*schema, name@, children@),
{
    if has_type(schema, name) {
        let n = schema.node_checked(name, attrs, children, Vec::new())?;
        push_valid(schema, out, n);
        proof {
            assert(out@.drop_last() =~= old(out)@);
        }
    }
    Ok(())
}

/// The attributes of an ordered list starting at `n`: its start, left out
/// when it is 1.
pub open spec fn list_attrs(n: u64) -> spec_fn(Seq<char>) -> Option<AttrValueV> {
    |k: Seq<char>| if k == "start"@ && n != 1 { Some(AttrValueV::Number(n)) } else { None }
}

/// The list node a list start opens: `ordered_list` with its `start`
/// (left out when it is 1), or `bullet_list`.
fn list_node(schema: &Schema, out: &mut Vec<Node>, start: &Option<u64>, items: Vec<Node>) -> (r: Result<(), DocError>)
    requires
        all_valid(*schema, old(out)@),
        all_valid(*schema, items@),
    ensures
        all_valid(*schema, final(out)@),
        r is Ok ==> match *start {
            Some(n) => block_appended(*schema, old(out)@, final(out)@, "ordered_list"@, list_attrs(n), items@),
            None => block_appended(*schema, old(out)@, final(out)@, "bullet_list"@, no_attrs(), items@),
        },
        r is Ok <==> builds(*schema, if start is Some { "ordered_list"@ } else { "bullet_list"@ }, items@),
{
    match start {
        Some(n) => {
            let mut a = Attrs::new();
            let ghost a0 = a;
            if *n != 1 {
                a.insert("start".to_string(), AttrValue::from_u64(*n));
            }
            let ghost a1 = a;
            proof {
                reveal_strlit("start");
                assert forall|k: Seq<char>| #[trigger] list_attrs(*n)(k) == a1.spec_get(k) by {
                    assert(a0.spec_get(k) is None);
                }
                assert(list_attrs(*n) =~= |k: Seq<char>| a1.spec_get(k));
            }
            push_block(schema, out, "ordered_list", a, items)
        },
        None => {
            let e = Attrs::new();
            let ghost e0 = e;
            proof {
                assert forall|k: Seq<char>| #[trigger] no_attrs()(k) == e0.spec_get(k) by {}
                assert(no_attrs() =~= |k: Seq<char>| e0.spec_get(k));
            }
            push_block(schema, out, "bullet_list", e, items)
        },
    }
}

/// The attributes of a heading of `level`.
pub open spec fn heading_attrs(level: u64) -> spec_fn(Seq<char>) -> Option<AttrValueV> {
    |k: Seq<char>| if k == "level"@ { Some(AttrValueV::Number(level)) } else { None }
}

/// The index just past the end tag `end` looked for from `k` (or the end of
/// input).
pub open spec fn past_end(ev: Seq<MdEvent>, k: int, end: MdEnd) -> int {
    if end_at(ev, k, end) < ev.len() { end_at(ev, k, end) + 1 } else { ev.len() as int }
}

/// Whether the inline events from `k` up to the end tag `end` give the
/// nodes `nodes`, starting with marks copied from `inh`.
pub open spec fn inline_nodes(s: Schema, ev: Seq<MdEvent>, inh: Seq<Mark>, k: int, end: MdEnd, nodes: Seq<Node>) -> bool {
    exists|m0: Seq<Mark>, m1: Seq<Mark>| same_marks(m0, inh)
        && #[trigger] inline_run(s, ev, k, end_at(ev, k, end), Seq::<Node>::empty(), m0, nodes, m1)
}

/// One event `k` met inside a container that keeps only paragraphs and
/// headings, read with `out` before it: a paragraph or heading is read up
/// to its end (`nx` past it) and appended, giving `mid`; anything else is
/// passed over.
pub open spec fn one_block(s: Schema, ev: Seq<MdEvent>, inh: Seq<Mark>, k: int, out: Seq<Node>, nx: int, mid: Seq<Node>) -> bool {
    match ev[k] {
        MdEvent::Start(MdTag::Paragraph) => nx == past_end(ev, k + 1, MdEnd::Paragraph)
            && exists|nodes: Seq<Node>| #[trigger] inline_nodes(s, ev, inh, k + 1, MdEnd::Paragraph, nodes)
                && block_appended(s, out, mid, "paragraph"@, no_attrs(), nodes),
        MdEvent::Start(MdTag::Heading(l)) => nx == past_end(ev, k + 1, MdEnd::Heading)
            && exists|nodes: Seq<Node>| #[trigger] inline_nodes(s, ev, inh, k + 1, MdEnd::Heading, nodes)
                && block_appended(s, out, mid, "heading"@, heading_attrs(l), nodes),
        _ => nx == k + 1 && mid == out,
    }
}

/// Reading a container's blocks from `k` on up to its end tag `end`, with
/// `out` read so far, stops at `fe` having read `fo`: only paragraphs and
/// headings are kept.
pub open spec fn until_read(s: Schema, ev: Seq<MdEvent>, inh: Seq<Mark>, k: int, end: MdEnd, out: Seq<Node>, fe: int, fo: Seq<Node>) -> bool
    decreases ev.len() - k,
{
    if k < 0 || k >= ev.len() {
        fe == k && fo == out
    } else if ev[k] == MdEvent::End(end) {
        fe == k + 1 && fo == out
    } else {
        exists|nx: int, mid: Seq<Node>| #[trigger] one_block(s, ev, inh, k, out, nx, mid) && k < nx <= ev.len()
            && until_read(s, ev, inh, nx, end, mid, fe, fo)
    }
}

/// A blockquote opened at `k` and read up to `nx` holds `kids`, appended
/// to `out` to give `mid`.
pub open spec fn quote_step(s: Schema, ev: Seq<MdEvent>, inh: Seq<Mark>, k: int, nx: int, out: Seq<Node>, kids: Seq<Node>,
    mid: Seq<Node>) -> bool {
    &&& k < nx
    &&& all_valid(s, kids)
    &&& until_read(s, ev, inh, k + 1, MdEnd::BlockQuote, Seq::<Node>::empty(), nx, kids)
    &&& block_appended(s, out, mid, "blockquote"@, no_attrs(), kids)
}

/// Whether `p` is the empty paragraph an empty list item gets.
pub open spec fn empty_paragraph(p: Node) -> bool {
    &&& p.spec_type().spec_name() == "paragraph"@
    &&& p.spec_children().len() == 0
    &&& p.spec_text() is None
    &&& p.spec_marks().len() == 0
}

/// A list item whose body read `blocks` is appended to `out`, giving `mid`:
/// an item with no blocks gets an empty paragraph when the schema has the
/// type.
pub open spec fn item_appended(s: Schema, out: Seq<Node>, mid: Seq<Node>, blocks: Seq<Node>) -> bool {
    if blocks.len() == 0 && s.spec_node_names().contains("paragraph"@) {
        exists|p: Node| #[trigger] empty_paragraph(p) && block_appended(s, out, mid, "list_item"@, no_attrs(), seq![p])
    } else {
        block_appended(s, out, mid, "list_item"@, no_attrs(), blocks)
    }
}

/// Reading list items from `k` on, with `out` read so far, stops at `fe`
/// (past the list's end) having read `fo`; events outside items are passed
/// over.
pub open spec fn items_read(s: Schema, ev: Seq<MdEvent>, inh: Seq<Mark>, k: int, out: Seq<Node>, fe: int, fo: Seq<Node>) -> bool
    decreases ev.len() - k,
{
    if k < 0 || k >= ev.len() {
        fe == k && fo == out
    } else {
        match ev[k] {
            MdEvent::Start(MdTag::Item) => exists|blocks: Seq<Node>, nx: int, mid: Seq<Node>|
                #![trigger item_appended(s, out, mid, blocks), within(k, nx, ev.len() as int)]
                within(k, nx, ev.len() as int) && k < nx <= ev.len()
                && body_read(s, ev, inh, k + 1, Seq::<Node>::empty(), nx, blocks)
                && item_appended(s, out, mid, blocks)
                && items_read(s, ev, inh, nx, mid, fe, fo),
            MdEvent::End(MdEnd::List) => fe == k + 1 && fo == out,
            _ => items_read(s, ev, inh, k + 1, out, fe, fo),
        }
    }
}

/// Reading a list item's body from `k` on, with `out` read so far, stops at
/// `fe` (past the item's end) having read `fo`: paragraphs, nested lists,
/// and bare text (wrapped in a paragraph) are kept.
pub open spec fn body_read(s: Schema, ev: Seq<MdEvent>, inh: Seq<Mark>, k: int, out: Seq<Node>, fe: int, fo: Seq<Node>) -> bool
    decreases ev.len() - k,
{
    if k < 0 || k >= ev.len() {
        fe == k && fo == out
    } else {
        match ev[k] {
            MdEvent::End(MdEnd::Item) => fe == k + 1 && fo == out,
            MdEvent::Start(MdTag::Paragraph) => {
                let nx = past_end(ev, k + 1, MdEnd::Paragraph);
                k < nx && exists|nodes: Seq<Node>, mid: Seq<Node>| #![trigger block_appended(s, out, mid, "paragraph"@, no_attrs(), nodes)]
                    inline_nodes(s, ev, inh, k + 1, MdEnd::Paragraph, nodes)
                    && block_appended(s, out, mid, "paragraph"@, no_attrs(), nodes)
                    && body_read(s, ev, inh, nx, mid, fe, fo)
            },
            MdEvent::Start(MdTag::List(st)) => exists|items: Seq<Node>, nx: int, mid: Seq<Node>|
                #![trigger list_appended(s, st, out, mid, items), within(k, nx, ev.len() as int)]
                within(k, nx, ev.len() as int) && k < nx <= ev.len()
                && items_read(s, ev, inh, k + 1, Seq::<Node>::empty(), nx, items)
                && list_appended(s, st, out, mid, items)
                && body_read(s, ev, inh, nx, mid, fe, fo),
            MdEvent::Text(t) => if s.spec_node_names().contains("paragraph"@) {
                exists|x: Node, mid: Seq<Node>| #![trigger block_appended(s, out, mid, "paragraph"@, no_attrs(), seq![x])]
                    x.spec_text() == Some(t@) && x.spec_type().spec_is_text() && marks_view(x.spec_marks()) == marks_view(inh)
                    && block_appended(s, out, mid, "paragraph"@, no_attrs(), seq![x])
                    && body_read(s, ev, inh, k + 1, mid, fe, fo)
            } else {
                body_read(s, ev, inh, k + 1, out, fe, fo)
            },
            _ => body_read(s, ev, inh, k + 1, out, fe, fo),
        }
    }
}

/// Whether `nx` lies past `k` and within `len`.
pub open spec fn within(k: int, nx: int, len: int) -> bool {
    k < nx <= len
}

/// The list `items` (ordered from `st` when it has a start) appended to
/// `out`, giving `mid`.
pub open spec fn list_appended(s: Schema, st: Option<u64>, out: Seq<Node>, mid: Seq<Node>, items: Seq<Node>) -> bool {
    match st {
        Some(n) => block_appended(s, out, mid, "ordered_list"@, list_attrs(n), items),
        None => block_appended(s, out, mid, "bullet_list"@, no_attrs(), items),
    }
}

/// A list opened at `k` (ordered from `st` when it has a start) and read
/// up to `nx` holds `items`, appended to `out` to give `mid`.
pub open spec fn list_step(s: Schema, ev: Seq<MdEvent>, inh: Seq<Mark>, st: Option<u64>, k: int, nx: int, out: Seq<Node>,
    items: Seq<Node>, mid: Seq<Node>) -> bool {
    &&& k < nx
    &&& all_valid(s, items)
    &&& items_read(s, ev, inh, k + 1, Seq::<Node>::empty(), nx, items)
    &&& match st {
        Some(n) => block_appended(s, out, mid, "ordered_list"@, list_attrs(n), items),
        None => block_appended(s, out, mid, "bullet_list"@, no_attrs(), items),
    }
}

/// An inline event `e` met among blocks gives `nodes` (starting with marks
/// copied from `inh`), wrapped in a paragraph appended to `out` when there
/// are any, giving `mid`.
pub open spec fn stray_step(s: Schema, e: MdEvent, inh: Seq<Mark>, out: Seq<Node>, nodes: Seq<Node>, m0: Seq<Mark>, m1: Seq<Mark>,
    mid: Seq<Node>) -> bool {
    &&& same_marks(m0, inh)
    &&& inline_step(s, e, Seq::<Node>::empty(), m0, nodes, m1)
    &&& if nodes.len() > 0 { block_appended(s, out, mid, "paragraph"@, no_attrs(), nodes) } else { mid == out }
}

/// Reading blocks from event `k` on, with `out` read so far, stops at index
/// `fe` having read `fo`: a paragraph or heading holds the inline nodes up
/// to its end; a code block holds its text; a blockquote or list holds
/// blocks read from its events (stopping somewhere past its start); other
/// elements are skipped; inline events met at this level become a
/// paragraph; an end event stops the reading just past it. A block type the
/// schema lacks adds nothing.
pub open spec fn blocks_read(s: Schema, ev: Seq<MdEvent>, inh: Seq<Mark>, k: int, out: Seq<Node>, fe: int, fo: Seq<Node>) -> bool
    decreases ev.len() - k,
{
    if k < 0 || k >= ev.len() {
        fe == k && fo == out
    } else {
        match ev[k] {
            MdEvent::End(_) => fe == k + 1 && fo == out,
            MdEvent::Start(MdTag::Paragraph) => {
                let nx = past_end(ev, k + 1, MdEnd::Paragraph);
                k < nx && exists|nodes: Seq<Node>, mid: Seq<Node>| #![trigger block_appended(s, out, mid, "paragraph"@, no_attrs(), nodes)]
                    inline_nodes(s, ev, inh, k + 1, MdEnd::Paragraph, nodes)
                    && block_appended(s, out, mid, "paragraph"@, no_attrs(), nodes)
                    && blocks_read(s, ev, inh, nx, mid, fe, fo)
            },
            MdEvent::Start(MdTag::Heading(l)) => {
                let nx = past_end(ev, k + 1, MdEnd::Heading);
                k < nx && exists|nodes: Seq<Node>, mid: Seq<Node>| #![trigger block_appended(s, out, mid, "heading"@, heading_attrs(l), nodes)]
                    inline_nodes(s, ev, inh, k + 1, MdEnd::Heading, nodes)
                    && block_appended(s, out, mid, "heading"@, heading_attrs(l), nodes)
                    && blocks_read(s, ev, inh, nx, mid, fe, fo)
            },
            MdEvent::Start(MdTag::CodeBlock) => {
                let nx = past_end(ev, k + 1, MdEnd::CodeBlock);
                k < nx && if s.spec_node_names().contains("code_block"@) {
                    exists|t: Node, mid: Seq<Node>| #![trigger block_appended(s, out, mid, "code_block"@, no_attrs(), seq![t])]
                        t.spec_text() == Some(code_text(ev, k + 1)) && t.spec_type().spec_is_text() && t.spec_marks().len() == 0
                        && block_appended(s, out, mid, "code_block"@, no_attrs(), seq![t])
                        && blocks_read(s, ev, inh, nx, mid, fe, fo)
                } else {
                    blocks_read(s, ev, inh, nx, out, fe, fo)
                }
            },
            MdEvent::Start(MdTag::BlockQuote) => exists|kids: Seq<Node>, nx: int, mid: Seq<Node>|
                #[trigger] quote_step(s, ev, inh, k, nx, out, kids, mid) && k < nx <= ev.len()
                && blocks_read(s, ev, inh, nx, mid, fe, fo),
            MdEvent::Start(MdTag::List(st)) => exists|items: Seq<Node>, nx: int, mid: Seq<Node>|
                #[trigger] list_step(s, ev, inh, st, k, nx, out, items, mid) && k < nx <= ev.len()
                && blocks_read(s, ev, inh, nx, mid, fe, fo),
            MdEvent::Start(_) => {
                let nx = element_end(ev, k + 1, 0);
                k < nx <= ev.len() && blocks_read(s, ev, inh, nx, out, fe, fo)
            },
            _ => exists|nodes: Seq<Node>, m0: Seq<Mark>, m1: Seq<Mark>, mid: Seq<Node>|
                #[trigger] stray_step(s, ev[k], inh, out, nodes, m0, m1, mid)
                && blocks_read(s, ev, inh, k + 1, mid, fe, fo),
        }
    }
}

/// Append the block `name` with no attributes (when the schema has it).
fn push_plain_block(schema: &Schema, out: &mut Vec<Node>, name: &str, children: Vec<Node>) -> (r: Result<(), DocError>)
    requires
        all_valid(*schema, old(out)@),
        all_valid(*schema, children@),
    ensures
        all_valid(*schema, final(out)@),
        r is Ok ==> block_appended(*schema, old(out)@, final(out)@, name@, no_attrs(), children@),
        r is Ok <==> builds(*schema, name@, children@),
{
    let e = Attrs::new();
    let ghost e0 = e;
    proof {
        assert forall|k: Seq<char>| #[trigger] no_attrs()(k) == e0.spec_get(k) by {}
        assert(no_attrs() =~= |k: Seq<char>| e0.spec_get(k));
    }
    push_block(schema, out, name, e, children)
}

/// Append a heading of `level` (when the schema has the type).
fn push_heading(schema: &Schema, out: &mut Vec<Node>, level: u64, children: Vec<Node>) -> (r: Result<(), DocError>)
    requires
        all_valid(*schema, old(out)@),
        all_valid(*schema, children@),
    ensures
        all_valid(*schema, final(out)@),
        r is Ok ==> block_appended(*schema, old(out)@, final(out)@, "heading"@, heading_attrs(level), children@),
{
    let mut a = Attrs::new();
    let ghost a0 = a;
    a.insert("level".to_string(), AttrValue::from_u64(level));
    let ghost a1 = a;
    proof {
        reveal_strlit("level");
        assert forall|k: Seq<char>| #[trigger] heading_attrs(level)(k) == a1.spec_get(k) by {
            assert(a0.spec_get(k) is None);
        }
        assert(heading_attrs(level) =~= |k: Seq<char>| a1.spec_get(k));
    }
    push_block(schema, out, "heading", a, children)
}

/// Read blocks from `pos` until an end event (or the end of input):
/// paragraphs, headings, blockquotes, code blocks and lists the schema has;
/// other elements are skipped; stray inline events become a paragraph.
/// Returns the index past the end event.
fn parse_blocks(schema: &Schema, ev: &Vec<MdEvent>, pos: usize, out: &mut Vec<Node>, inherited: &Vec<Mark>) -> (r: Result<usize, DocError>)
    requires
        pos <= ev@.len(),
        all_valid(*schema, old(out)@),
    ensures
        all_valid(*schema, final(out)@),
        r matches Ok(p) ==> pos <= p <= ev@.len(),
        r matches Ok(p) ==> blocks_read(*schema, ev@, inherited@, pos as int, old(out)@, p as int, final(out)@),
        pos == ev@.len() ==> r == Ok::<usize, DocError>(pos) && final(out)@ == old(out)@,
{
    let ghost out0 = out@;
    let ghost s = *schema;
    let ghost inh = inherited@;
    let mut k = pos;
    while k < ev.len()
        invariant
            pos <= k <= ev@.len(),
            all_valid(*schema, out@),
            s == *schema,
            inh == inherited@,
            out0 == old(out)@,
            forall|fe: int, fo: Seq<Node>| #[trigger] blocks_read(s, ev@, inh, k as int, out@, fe, fo)
                ==> blocks_read(s, ev@, inh, pos as int, out0, fe, fo),
        decreases ev@.len() - k,
    {
        let ghost k0 = k as int;
        let ghost o0 = out@;
        match &ev[k] {
            MdEvent::Start(tag) => {
                match tag {
                    MdTag::Paragraph => {
                        let (inlines, next) = parse_inline(schema, ev, k + 1, MdEnd::Paragraph, inherited)?;
                        let ghost nodes = inlines@;
                        push_plain_block(schema, out, "paragraph", inlines)?;
                        proof {
                            assert(inline_nodes(s, ev@, inh, k0 + 1, MdEnd::Paragraph, nodes));
                            assert forall|fe: int, fo: Seq<Node>| #[trigger] blocks_read(s, ev@, inh, next as int, out@, fe, fo)
                                implies blocks_read(s, ev@, inh, k0, o0, fe, fo) by {
                                assert(block_appended(s, o0, out@, "paragraph"@, no_attrs(), nodes));
                            }
                        }
                        k = next;
                    },
                    MdTag::Heading(level) => {
                        let (inlines, next) = parse_inline(schema, ev, k + 1, MdEnd::Heading, inherited)?;
                        let ghost nodes = inlines@;
                        push_heading(schema, out, *level, inlines)?;
                        proof {
                            assert(inline_nodes(s, ev@, inh, k0 + 1, MdEnd::Heading, nodes));
                            assert forall|fe: int, fo: Seq<Node>| #[trigger] blocks_read(s, ev@, inh, next as int, out@, fe, fo)
                                implies blocks_read(s, ev@, inh, k0, o0, fe, fo) by {
                                assert(block_appended(s, o0, out@, "heading"@, heading_attrs(*level), nodes));
                            }
                        }
                        k = next;
                    },
                    MdTag::BlockQuote => {
                        let mut children: Vec<Node> = Vec::new();
                        let next = parse_blocks_until(schema, ev, k + 1, MdEnd::BlockQuote, &mut children, inherited)?;
                        let ghost kids = children@;
                        push_plain_block(schema, out, "blockquote", children)?;
                        proof {
                            assert forall|fe: int, fo: Seq<Node>| #[trigger] blocks_read(s, ev@, inh, next as int, out@, fe, fo)
                                implies blocks_read(s, ev@, inh, k0, o0, fe, fo) by {
                                assert(block_appended(s, o0, out@, "blockquote"@, no_attrs(), kids));
                                assert(all_valid(s, kids));
                                assert(quote_step(s, ev@, inh, k0, next as int, o0, kids, out@));
                                assert(ev@[k0] == MdEvent::Start(MdTag::BlockQuote));
                                assert(k0 < next as int <= ev@.len());
                            }
                        }
                        k = next;
                    },
                    MdTag::CodeBlock => {
                        let (code, next) = collect_code(ev, k + 1);
                        proof {
                            assert(next as int == past_end(ev@, k0 + 1, MdEnd::CodeBlock));
                        }
                        if has_type(schema, "code_block") {
                            let text = schema.text(code.as_str(), Vec::new())?;
                            proof {
                                assert(text.spec_marks().len() == 0);
                                assert(text.spec_text() == Some(code_text(ev@, k0 + 1)));
                            }
                            let mut kids: Vec<Node> = Vec::new();
                            push_valid(schema, &mut kids, text);
                            proof {
                                assert(kids@ =~= seq![text]);
                            }
                            push_plain_block(schema, out, "code_block", kids)?;
                            proof {
                                assert forall|fe: int, fo: Seq<Node>| #[trigger] blocks_read(s, ev@, inh, next as int, out@, fe, fo)
                                    implies blocks_read(s, ev@, inh, k0, o0, fe, fo) by {
                                    assert(block_appended(s, o0, out@, "code_block"@, no_attrs(), seq![text]));
                                    assert(s.spec_node_names().contains("code_block"@));
                                }
                            }
                        } else {
                            proof {
                                assert(!s.spec_node_names().contains("code_block"@));
                                assert forall|fe: int, fo: Seq<Node>| #[trigger] blocks_read(s, ev@, inh, next as int, out@, fe, fo)
                                    implies blocks_read(s, ev@, inh, k0, o0, fe, fo) by {
                                    assert(ev@[k0] == MdEvent::Start(MdTag::CodeBlock));
                                }
                            }
                        }
                        k = next;
                    },
                    MdTag::List(start) => {
                        let mut items: Vec<Node> = Vec::new();
                        let next = parse_list_items(schema, ev, k + 1, &mut items, inherited)?;
                        let ghost its = items@;
                        list_node(schema, out, start, items)?;
                        proof {
                            assert forall|fe: int, fo: Seq<Node>| #[trigger] blocks_read(s, ev@, inh, next as int, out@, fe, fo)
                                implies blocks_read(s, ev@, inh, k0, o0, fe, fo) by {
                                assert(all_valid(s, its));
                                assert(ev@[k0] == MdEvent::Start(MdTag::List(*start)));
                                match *start {
                                    Some(n) => assert(block_appended(s, o0, out@, "ordered_list"@, list_attrs(n), its)),
                                    None => assert(block_appended(s, o0, out@, "bullet_list"@, no_attrs(), its)),
                                }
                                assert(k0 < next as int <= ev@.len());
                                assert(list_step(s, ev@, inh, *start, k0, next as int, o0, its, out@));
                            }
                        }
                        k = next;
                    },
                    _ => {
                        k = skip_until_end(ev, k + 1);
                        proof {
                            assert forall|fe: int, fo: Seq<Node>| #[trigger] blocks_read(s, ev@, inh, k as int, out@, fe, fo)
                                implies blocks_read(s, ev@, inh, k0, o0, fe, fo) by {
                                assert(k as int == element_end(ev@, k0 + 1, 0));
                            }
                        }
                    },
                }
            },
            MdEvent::End(_) => {
                proof {
                    assert(blocks_read(s, ev@, inh, k0, out@, k0 + 1, out@));
                }
                return Ok(k + 1);
            },
            _ => {
                let inlines = consume_inline_event(schema, &ev[k], inherited);
                let ghost nodes = inlines@;
                if inlines.len() > 0 {
                    push_plain_block(schema, out, "paragraph", inlines)?;
                }
                proof {
                    let (m0, m1) = choose|m0: Seq<Mark>, m1: Seq<Mark>| same_marks(m0, inh)
                        && #[trigger] inline_step(s, ev@[k0], Seq::<Node>::empty(), m0, nodes, m1);
                    assert forall|fe: int, fo: Seq<Node>| #[trigger] blocks_read(s, ev@, inh, k0 + 1, out@, fe, fo)
                        implies blocks_read(s, ev@, inh, k0, o0, fe, fo) by {
                        assert(inline_step(s, ev@[k0], Seq::<Node>::empty(), m0, nodes, m1));
                        assert(stray_step(s, ev@[k0], inh, o0, nodes, m0, m1, out@));
                    }
                }
                k = k + 1;
            },
        }
    }
    proof {
        assert(blocks_read(s, ev@, inh, k as int, out@, k as int, out@));
    }
    Ok(k)
}

/// Read blocks from `pos` up to the end tag `end`: only paragraphs and
/// headings are kept at this level.
fn parse_blocks_until(schema: &Schema, ev: &Vec<MdEvent>, pos: usize, end: MdEnd, out: &mut Vec<Node>, inherited: &Vec<Mark>) -> (r: Result<usize, DocError>)
    requires
        pos <= ev@.len(),
        all_valid(*schema, old(out)@),
    ensures
        all_valid(*schema, final(out)@),
        r matches Ok(p) ==> pos <= p <= ev@.len(),
        r matches Ok(p) ==> until_read(*schema, ev@, inherited@, pos as int, end, old(out)@, p as int, final(out)@),
{
    let ghost out0 = out@;
    let ghost s = *schema;
    let ghost inh = inherited@;
    let mut k = pos;
    while k < ev.len()
        invariant
            pos <= k <= ev@.len(),
            all_valid(*schema, out@),
            s == *schema,
            inh == inherited@,
            out0 == old(out)@,
            forall|fe: int, fo: Seq<Node>| #[trigger] until_read(s, ev@, inh, k as int, end, out@, fe, fo)
                ==> until_read(s, ev@, inh, pos as int, end, out0, fe, fo),
        decreases ev@.len() - k,
    {
        let ghost k0 = k as int;
        let ghost o0 = out@;
        let stop = match &ev[k] {
            MdEvent::End(t) => *t == end,
            _ => false,
        };
        if stop {
            proof {
                assert(ev@[k0] == MdEvent::End(end));
                assert(until_read(s, ev@, inh, k0, end, out@, k0 + 1, out@));
            }
            return Ok(k + 1);
        }
        proof {
            assert(ev@[k0] != MdEvent::End(end));
        }
        k = push_back_and_parse_block(schema, ev, k, out, inherited)?;
        proof {
            assert forall|fe: int, fo: Seq<Node>| #[trigger] until_read(s, ev@, inh, k as int, end, out@, fe, fo)
                implies until_read(s, ev@, inh, k0, end, o0, fe, fo) by {
                assert(one_block(s, ev@, inh, k0, o0, k as int, out@));
            }
        }
    }
    proof {
        assert(until_read(s, ev@, inh, k as int, end, out@, k as int, out@));
    }
    Ok(k)
}

/// Handle the event at `k` inside a block container: a paragraph or
/// heading is read whole; anything else is passed over. Returns the index
/// of the next event.
fn push_back_and_parse_block(schema: &Schema, ev: &Vec<MdEvent>, k: usize, out: &mut Vec<Node>, inherited: &Vec<Mark>) -> (r: Result<usize, DocError>)
    requires
        k < ev.len(),
        all_valid(*schema, old(out)@),
    ensures
        all_valid(*schema, final(out)@),
        r matches Ok(p) ==> k < p <= ev@.len(),
        r matches Ok(p) ==> one_block(*schema, ev@, inherited@, k as int, old(out)@, p as int, final(out)@),
{
    match &ev[k] {
        MdEvent::Start(MdTag::Paragraph) => {
            let (inlines, next) = parse_inline(schema, ev, k + 1, MdEnd::Paragraph, inherited)?;
            let ghost nodes = inlines@;
            push_plain_block(schema, out, "paragraph", inlines)?;
            proof {
                assert(inline_nodes(*schema, ev@, inherited@, k + 1, MdEnd::Paragraph, nodes));
            }
            Ok(next)
        },
        MdEvent::Start(MdTag::Heading(level)) => {
            let (inlines, next) = parse_inline(schema, ev, k + 1, MdEnd::Heading, inherited)?;
            let ghost nodes = inlines@;
            push_heading(schema, out, *level, inlines)?;
            proof {
                assert(inline_nodes(*schema, ev@, inherited@, k + 1, MdEnd::Heading, nodes));
            }
            Ok(next)
        },
        _ => Ok(k + 1),
    }
}

/// Read list items from `pos` up to the list's end.
fn parse_list_items(schema: &Schema, ev: &Vec<MdEvent>, pos: usize, out: &mut Vec<Node>, inherited: &Vec<Mark>) -> (r: Result<usize, DocError>)
    requires
        pos <= ev@.len(),
        all_valid(*schema, old(out)@),
    ensures
        all_valid(*schema, final(out)@),
        r matches Ok(p) ==> pos <= p <= ev@.len(),
        r matches Ok(p) ==> items_read(*schema, ev@, inherited@, pos as int, old(out)@, p as int, final(out)@),
    decreases ev@.len() - pos,
{
    let ghost out0 = out@;
    let ghost s = *schema;
    let ghost inh = inherited@;
    let mut k = pos;
    while k < ev.len()
        invariant
            pos <= k <= ev@.len(),
            all_valid(*schema, out@),
            s == *schema,
            inh == inherited@,
            out0 == old(out)@,
            forall|fe: int, fo: Seq<Node>| #[trigger] items_read(s, ev@, inh, k as int, out@, fe, fo)
                ==> items_read(s, ev@, inh, pos as int, out0, fe, fo),
        decreases ev@.len() - k,
    {
        let ghost k0 = k as int;
        let ghost o0 = out@;
        match &ev[k] {
            MdEvent::Start(MdTag::Item) => {
                let mut blocks: Vec<Node> = Vec::new();
                let next = parse_list_item_body(schema, ev, k + 1, &mut blocks, inherited)?;
                let ghost bl = blocks@;
                if blocks.len() == 0 && has_type(schema, "paragraph") {
                    let p = schema.node_checked("paragraph", Attrs::new(), Vec::new(), Vec::new())?;
                    push_valid(schema, &mut blocks, p);
                    proof {
                        assert(blocks@ =~= seq![p]);
                        assert(empty_paragraph(p));
                    }
                    let ghost bv = blocks@;
                    push_plain_block(schema, out, "list_item", blocks)?;
                    proof {
                        assert(block_appended(s, o0, out@, "list_item"@, no_attrs(), seq![p]));
                        assert(item_appended(s, o0, out@, bl));
                    }
                } else {
                    push_plain_block(schema, out, "list_item", blocks)?;
                    proof {
                        assert(item_appended(s, o0, out@, bl));
                    }
                }
                proof {
                    assert forall|fe: int, fo: Seq<Node>| #[trigger] items_read(s, ev@, inh, next as int, out@, fe, fo)
                        implies items_read(s, ev@, inh, k0, o0, fe, fo) by {
                        assert(ev@[k0] == MdEvent::Start(MdTag::Item));
                        assert(item_appended(s, o0, out@, bl));
                        assert(within(k0, next as int, ev@.len() as int));
                    }
                }
                k = next;
            },
            MdEvent::End(MdEnd::List) => {
                proof {
                    assert(items_read(s, ev@, inh, k0, out@, k0 + 1, out@));
                }
                return Ok(k + 1);
            },
            _ => {
                k = k + 1;
                proof {
                    assert forall|fe: int, fo: Seq<Node>| #[trigger] items_read(s, ev@, inh, k as int, out@, fe, fo)
                        implies items_read(s, ev@, inh, k0, o0, fe, fo) by {}
                }
            },
        }
    }
    proof {
        assert(items_read(s, ev@, inh, k as int, out@, k as int, out@));
    }
    Ok(k)
}

/// Read a list item's blocks from `pos` up to its end: paragraphs, nested
/// lists, and bare text (wrapped in a paragraph).
fn parse_list_item_body(schema: &Schema, ev: &Vec<MdEvent>, pos: usize, out: &mut Vec<Node>, inherited: &Vec<Mark>) -> (r: Result<usize, DocError>)
    requires
        pos <= ev@.len(),
        all_valid(*schema, old(out)@),
    ensures
        all_valid(*schema, final(out)@),
        r matches Ok(p) ==> pos <= p <= ev@.len(),
        r matches Ok(p) ==> body_read(*schema, ev@, inherited@, pos as int, old(out)@, p as int, final(out)@),
    decreases ev@.len() - pos,
{
    let ghost out0 = out@;
    let ghost s = *schema;
    let ghost inh = inherited@;
    let mut k = pos;
    while k < ev.len()
        invariant
            pos <= k <= ev@.len(),
            all_valid(*schema, out@),
            s == *schema,
            inh == inherited@,
            out0 == old(out)@,
            forall|fe: int, fo: Seq<Node>| #[trigger] body_read(s, ev@, inh, k as int, out@, fe, fo)
                ==> body_read(s, ev@, inh, pos as int, out0, fe, fo),
        decreases ev@.len() - k,
    {
        let ghost k0 = k as int;
        let ghost o0 = out@;
        match &ev[k] {
            MdEvent::End(MdEnd::Item) => {
                proof {
                    assert(body_read(s, ev@, inh, k0, out@, k0 + 1, out@));
                }
                return Ok(k + 1);
            },
            MdEvent::Start(MdTag::Paragraph) => {
                let (inlines, next) = parse_inline(schema, ev, k + 1, MdEnd::Paragraph, inherited)?;
                let ghost nodes = inlines@;
                push_plain_block(schema, out, "paragraph", inlines)?;
                proof {
                    assert(inline_nodes(s, ev@, inh, k0 + 1, MdEnd::Paragraph, nodes));
                    assert forall|fe: int, fo: Seq<Node>| #[trigger] body_read(s, ev@, inh, next as int, out@, fe, fo)
                        implies body_read(s, ev@, inh, k0, o0, fe, fo) by {
                        assert(block_appended(s, o0, out@, "paragraph"@, no_attrs(), nodes));
                    }
                }
                k = next;
            },
            MdEvent::Start(MdTag::List(start)) => {
                let mut items: Vec<Node> = Vec::new();
                let next = parse_list_items(schema, ev, k + 1, &mut items, inherited)?;
                let ghost its = items@;
                list_node(schema, out, start, items)?;
                proof {
                    assert forall|fe: int, fo: Seq<Node>| #[trigger] body_read(s, ev@, inh, next as int, out@, fe, fo)
                        implies body_read(s, ev@, inh, k0, o0, fe, fo) by {
                        assert(ev@[k0] == MdEvent::Start(MdTag::List(*start)));
                        assert(list_appended(s, *start, o0, out@, its));
                        assert(within(k0, next as int, ev@.len() as int));
                    }
                }
                k = next;
            },
            MdEvent::Text(t) => {
                if has_type(schema, "paragraph") {
                    let txt = schema.text(t.as_str(), clone_marks(inherited.as_slice()))?;
                    let mut kids: Vec<Node> = Vec::new();
                    push_valid(schema, &mut kids, txt);
                    proof {
                        assert(kids@ =~= seq![txt]);
                    }
                    push_plain_block(schema, out, "paragraph", kids)?;
                    proof {
                        assert forall|fe: int, fo: Seq<Node>| #[trigger] body_read(s, ev@, inh, k0 + 1, out@, fe, fo)
                            implies body_read(s, ev@, inh, k0, o0, fe, fo) by {
                            assert(block_appended(s, o0, out@, "paragraph"@, no_attrs(), seq![txt]));
                        }
                    }
                } else {
                    proof {
                        assert forall|fe: int, fo: Seq<Node>| #[trigger] body_read(s, ev@, inh, k0 + 1, out@, fe, fo)
                            implies body_read(s, ev@, inh, k0, o0, fe, fo) by {}
                    }
                }
                k = k + 1;
            },
            _ => {
                k = k + 1;
                proof {
                    assert forall|fe: int, fo: Seq<Node>| #[trigger] body_read(s, ev@, inh, k as int, out@, fe, fo)
                        implies body_read(s, ev@, inh, k0, o0, fe, fo) by {}
                }
            },
        }
    }
    proof {
        assert(body_read(s, ev@, inh, k as int, out@, k as int, out@));
    }
    Ok(k)
}

/// Build a document from Markdown events: the blocks read at the top level,
/// wrapped in the top node. Every node of the result satisfies the schema.
pub fn parse_markdown_events(schema: &Schema, events: &Vec<MdEvent>) -> (r: Result<Node, DocError>)
    ensures
        r matches Ok(doc) ==> valid_tree(*schema, doc) && doc.spec_type().spec_name() == schema.spec_top().spec_name(),
        r matches Ok(doc) ==> doc_read(*schema, events@, doc),
        events@.len() == 0 ==> (r is Ok <==> schema.spec_content_valid(schema.spec_id_of(schema.spec_top().spec_name()),
            Seq::<Node>::empty())),
{
    let mut blocks: Vec<Node> = Vec::new();
    let none: Vec<Mark> = Vec::new();
    let fe = parse_blocks(schema, events, 0, &mut blocks, &none)?;
    let ghost bv = blocks@;
    proof {
        assert(blocks_read(*schema, events@, Seq::<Mark>::empty(), 0, Seq::<Node>::empty(), fe as int, bv)) by {
            assert(none@ =~= Seq::<Mark>::empty());
        }
    }
    schema.check_top_named();
    let r = schema.node_checked(schema.top_node_type().name(), Attrs::new(), blocks, Vec::new());
    proof {
        if r is Ok {
            assert(doc_read(*schema, events@, r->Ok_0));
        }
    }
    r
}

/// Whether `doc`'s children are the blocks read from the top of `events`,
/// with no marks inherited.
pub open spec fn doc_read(s: Schema, events: Seq<MdEvent>, doc: Node) -> bool {
    exists|fe: int| #[trigger] blocks_read(s, events, Seq::<Mark>::empty(), 0, Seq::<Node>::empty(), fe, doc.spec_children())
}

/// Parse CommonMark text into a document validated against `schema`
/// (pulldown-cmark reads the text; see [`parse_markdown_events`]).
pub fn parse_markdown(schema: &Schema, md: &str) -> (r: Result<Node, DocError>)
    ensures
        r matches Ok(doc) ==> valid_tree(*schema, doc) && doc.spec_type().spec_name() == schema.spec_top().spec_name(),
        r matches Ok(doc) ==> exists|evs: Seq<MdEvent>| evs.map_values(|e: MdEvent| e@) == cmark_parse(md@)
            && #[trigger] doc_read(*schema, evs, doc),
        cmark_parse(md@).len() == 0 ==> (r is Ok <==> schema.spec_content_valid(
            schema.spec_id_of(schema.spec_top().spec_name()), Seq::<Node>::empty())),
{
    let events = markdown_events(md);
    parse_markdown_events(schema, &events)
}

} // verus!
