//! HTML serialization (doc → string) and a strict, dependency-free HTML
//! parser (string → doc).
//!
//! - Output is always escaped: text and attribute values are HTML-escaped,
//!   so a document cannot inject markup or break out of an attribute.
//! - Input is schema-gated: only tags for which the schema declares a
//!   [`ParseRule`] become nodes/marks; unknown elements are unwrapped and
//!   the assembled tree is validated against the schema.
//! - Hostile input is bounded: nesting depth is capped ([`MAX_DEPTH`]).

use vstd::prelude::*;

use crate::attrs::{attrs_lookup, AttrValue, AttrValueV, Attrs, AttrsV};
use crate::mark::Mark;
use crate::node::Node;
use crate::strutil::{chars_of, decimal, decimal_chars, push_chars, push_str, str_eq, string_from_chars};

verus! {

/// Maximum element nesting depth accepted by [`Schema::parse_html`](crate::Schema::parse_html).
pub const MAX_DEPTH: usize = 100;

/// One attribute of a rendered element: a fixed value, or the value of one
/// of the node's (or mark's) own attributes.
#[derive(Debug, Clone)]
pub enum DomAttr {
    /// `name="value"`.
    Static(String, String),
    /// `name` takes the string or number held by the attribute `from`
    /// (empty when absent).
    FromAttr(String, String),
}

/// How to render a node or mark as an HTML element.
///
/// Build with [`DomSpec::element`] (a container with a content hole) or
/// [`DomSpec::void`] (a childless element such as `<img>`), then chain
/// [`DomSpec::attr`] / [`DomSpec::attr_from`]. A tag may take a numeric
/// suffix from an attribute ([`DomSpec::tag_suffix_from`]), as headings
/// render as `h1`..`h6` from their `level`.
#[derive(Debug, Clone)]
pub struct DomSpec {
    /// The tag name (before any numeric suffix).
    pub tag: String,
    /// Attribute whose number is appended to the tag, with its default.
    pub suffix: Option<(String, u64)>,
    /// The element's attributes, in output order.
    pub attrs: Vec<DomAttr>,
    /// Whether children are serialized inside the element.
    pub content_hole: bool,
}

impl DomSpec {
    /// A container element whose children are serialized inside it.
    pub fn element(tag: &str) -> (r: DomSpec)
        ensures
            r.tag@ == tag@,
            r.content_hole,
            r.attrs@.len() == 0,
            r.suffix is None,
    {
        DomSpec { tag: tag.to_string(), suffix: None, attrs: Vec::new(), content_hole: true }
    }

    /// A childless element (e.g. `<img>`, `<hr>`).
    pub fn void(tag: &str) -> (r: DomSpec)
        ensures
            r.tag@ == tag@,
            !r.content_hole,
            r.attrs@.len() == 0,
            r.suffix is None,
    {
        DomSpec { tag: tag.to_string(), suffix: None, attrs: Vec::new(), content_hole: false }
    }

    /// Add a fixed attribute. Order is preserved in the output.
    pub fn attr(self, name: &str, value: &str) -> (r: DomSpec)
        ensures
            r.tag == self.tag,
            r.content_hole == self.content_hole,
            r.suffix == self.suffix,
            r.attrs@.len() == self.attrs@.len() + 1,
    {
        let mut s = self;
        s.attrs.push(DomAttr::Static(name.to_string(), value.to_string()));
        s
    }

    /// Add an attribute whose value is read from the rendered node's (or
    /// mark's) attribute `from`.
    pub fn attr_from(self, name: &str, from: &str) -> (r: DomSpec)
        ensures
            r.tag == self.tag,
            r.content_hole == self.content_hole,
            r.suffix == self.suffix,
            r.attrs@.len() == self.attrs@.len() + 1,
    {
        let mut s = self;
        s.attrs.push(DomAttr::FromAttr(name.to_string(), from.to_string()));
        s
    }

    /// Append the numeric attribute `from` (or `default` when it is absent
    /// or not a number) to the tag name.
    pub fn tag_suffix_from(self, from: &str, default: u64) -> (r: DomSpec)
        ensures
            r.tag == self.tag,
            r.content_hole == self.content_hole,
            r.attrs == self.attrs,
            r.suffix matches Some(p) && p.0@ == from@ && p.1 == default,
    {
        let mut s = self;
        s.suffix = Some((from.to_string(), default));
        s
    }
}

/// A parsed HTML element, as seen by [`ParseRule`]s.
#[derive(Debug, Clone)]
pub struct HtmlElement {
    /// Lowercased tag name.
    pub tag: String,
    /// The element's attributes in source order (lowercased names, decoded
    /// values); a later duplicate overrides an earlier one.
    pub attrs: Vec<(String, String)>,
}

/// The value of the last of `attrs` named `name`.
pub open spec fn pairs_lookup(attrs: Seq<(String, String)>, name: Seq<char>) -> Option<Seq<char>>
    decreases attrs.len(),
{
    if attrs.len() == 0 {
        None
    } else if attrs.last().0@ == name {
        Some(attrs.last().1@)
    } else {
        pairs_lookup(attrs.drop_last(), name)
    }
}

impl HtmlElement {
    /// The value of attribute `name`, if present.
    pub fn attr(&self, name: &str) -> (r: Option<&str>)
        ensures
            match r {
                Some(v) => pairs_lookup(self.attrs@, name@) == Some(v@),
                None => pairs_lookup(self.attrs@, name@) is None,
            },
    {
        let mut k = self.attrs.len();
        proof {
            assert(self.attrs@.take(k as int) =~= self.attrs@);
        }
        while k > 0
            invariant
                k <= self.attrs@.len(),
                pairs_lookup(self.attrs@, name@) == pairs_lookup(self.attrs@.take(k as int), name@),
            decreases k,
        {
            proof {
                assert(self.attrs@.take(k as int).drop_last() =~= self.attrs@.take(k - 1));
            }
            if str_eq(self.attrs[k - 1].0.as_str(), name) {
                return Some(self.attrs[k - 1].1.as_str());
            }
            k = k - 1;
        }
        None
    }
}

/// A rule mapping an HTML tag back to the node or mark type whose spec
/// declares it, with the attributes the matched node or mark receives:
/// fixed ones, and ones copied from the element's own attributes.
#[derive(Debug, Clone)]
pub struct ParseRule {
    /// Tag name to match (compared case-insensitively).
    pub tag: String,
    /// Attributes set on every match.
    pub attrs: Attrs,
    /// `(html attribute, node attribute)` pairs copied when present.
    pub copy: Vec<(String, String)>,
}

impl ParseRule {
    /// A rule matching `tag` with no attributes.
    pub fn tag(tag: &str) -> (r: ParseRule)
        ensures
            r.tag@ == tag@,
            r.attrs@.len() == 0,
            r.attrs.wf(),
            r.copy@.len() == 0,
    {
        ParseRule { tag: tag.to_string(), attrs: Attrs::new(), copy: Vec::new() }
    }

    /// A rule matching `tag` that sets the fixed attributes `attrs`.
    pub fn with_attrs(tag: &str, attrs: Attrs) -> (r: ParseRule)
        ensures
            r.tag@ == tag@,
            r.attrs@ == attrs@,
            r.copy@.len() == 0,
    {
        ParseRule { tag: tag.to_string(), attrs, copy: Vec::new() }
    }

    /// Also copy the element's attribute `html_attr` (when present) into the
    /// attribute `attr`.
    pub fn copy_attr(self, html_attr: &str, attr: &str) -> (r: ParseRule)
        ensures
            r.tag == self.tag,
            r.attrs@ == self.attrs@,
            r.copy@.len() == self.copy@.len() + 1,
    {
        let mut s = self;
        s.copy.push((html_attr.to_string(), attr.to_string()));
        s
    }
}

// ---- serialization --------------------------------------------------------

/// How `c` appears in HTML text: `&`, `<` and `>` become entities.
pub open spec fn escape_text_char(c: char) -> Seq<char> {
    if c == '&' {
        "&amp;"@
    } else if c == '<' {
        "&lt;"@
    } else if c == '>' {
        "&gt;"@
    } else {
        seq![c]
    }
}

/// How `c` appears inside a double-quoted attribute value: as in text, and
/// `"` becomes `&quot;`.
pub open spec fn escape_attr_char(c: char) -> Seq<char> {
    if c == '"' {
        "&quot;"@
    } else {
        escape_text_char(c)
    }
}

/// `s` escaped for HTML text.
pub open spec fn escape_text(s: Seq<char>) -> Seq<char>
    decreases s.len(),
{
    if s.len() == 0 {
        Seq::empty()
    } else {
        escape_text(s.drop_last()) + escape_text_char(s.last())
    }
}

/// `s` escaped for a double-quoted attribute value.
pub open spec fn escape_attr(s: Seq<char>) -> Seq<char>
    decreases s.len(),
{
    if s.len() == 0 {
        Seq::empty()
    } else {
        escape_attr(s.drop_last()) + escape_attr_char(s.last())
    }
}

/// The text an attribute value contributes to rendered HTML: a string as
/// is, a number in decimal, anything else (or nothing) as the empty string.
pub open spec fn attr_text(v: Option<AttrValueV>) -> Seq<char> {
    match v {
        Some(AttrValueV::String(s)) => s,
        Some(AttrValueV::Number(n)) => decimal(n as nat),
        _ => Seq::empty(),
    }
}

/// One rendered attribute, ` name="value"`, for a node or mark with
/// attributes `attrs`.
pub open spec fn dom_attr_html(a: DomAttr, attrs: AttrsV) -> Seq<char> {
    match a {
        DomAttr::Static(name, value) => " "@ + name@ + "=\""@ + escape_attr(value@) + "\""@,
        DomAttr::FromAttr(name, from) => " "@ + name@ + "=\""@ + escape_attr(attr_text(attrs_lookup(attrs, from@)))
            + "\""@,
    }
}

/// All rendered attributes, in order.
pub open spec fn dom_attrs_html(s: Seq<DomAttr>, attrs: AttrsV) -> Seq<char>
    decreases s.len(),
{
    if s.len() == 0 {
        Seq::empty()
    } else {
        dom_attrs_html(s.drop_last(), attrs) + dom_attr_html(s.last(), attrs)
    }
}

/// The rendered tag name: the spec's tag, followed by the numeric suffix
/// when it has one.
pub open spec fn dom_tag(d: DomSpec, attrs: AttrsV) -> Seq<char> {
    match d.suffix {
        None => d.tag@,
        Some(p) => d.tag@ + decimal(
            match attrs_lookup(attrs, p.0@) {
                Some(AttrValueV::Number(n)) => n as nat,
                _ => p.1 as nat,
            },
        ),
    }
}

/// `<tag attrs…` (without the closing `>`).
pub open spec fn open_tag(d: DomSpec, attrs: AttrsV) -> Seq<char> {
    "<"@ + dom_tag(d, attrs) + dom_attrs_html(d.attrs@, attrs)
}

/// `inner` wrapped in the element `d` describes.
pub open spec fn element_html(d: DomSpec, attrs: AttrsV, inner: Seq<char>) -> Seq<char> {
    open_tag(d, attrs) + ">"@ + inner + "</"@ + dom_tag(d, attrs) + ">"@
}

/// `inner` wrapped, innermost first, in the elements of those of `marks`
/// whose type renders.
pub open spec fn marked_html(inner: Seq<char>, marks: Seq<Mark>) -> Seq<char>
    decreases marks.len(),
{
    if marks.len() == 0 {
        inner
    } else {
        let s = marked_html(inner, marks.drop_last());
        match marks.last().mark_type_spec().spec_decl().to_dom {
            Some(d) => element_html(d, marks.last().spec_attrs(), s),
            None => s,
        }
    }
}

/// The HTML of a node: escaped text inside its marks' elements, or its
/// children's HTML inside the element its type renders as (a void element
/// renders alone; a type without `to_dom` contributes only its children).
pub open spec fn html_of(n: Node) -> Seq<char>
    decreases n, n.spec_children().len() + 1,
{
    match n.spec_text() {
        Some(t) => marked_html(escape_text(t), n.spec_marks()),
        None => {
            let inner = children_html(n, n.spec_children().len() as int);
            match n.spec_type().spec_decl().to_dom {
                None => inner,
                Some(d) => if d.content_hole {
                    element_html(d, n.spec_attrs(), inner)
                } else {
                    open_tag(d, n.spec_attrs()) + "/>"@
                },
            }
        },
    }
}

/// The concatenated HTML of the first `k` children of `n`.
pub open spec fn children_html(n: Node, k: int) -> Seq<char>
    decreases n, k,
{
    if k <= 0 || k > n.spec_children().len() {
        Seq::empty()
    } else {
        proof {
            assert(decreases_to!(n => n.spec_children()[k - 1]));
        }
        children_html(n, k - 1) + html_of(n.spec_children()[k - 1])
    }
}

/// Append `s` escaped for text (or, with `attr`, for an attribute value).
fn push_escaped(out: &mut Vec<char>, s: &str, attr: bool)
    ensures
        final(out)@ == old(out)@ + (if attr { escape_attr(s@) } else { escape_text(s@) }),
{
    let ghost start = out@;
    let cs = chars_of(s);
    let mut i: usize = 0;
    while i < cs.len()
        invariant
            i <= cs@.len(),
            cs@ == s@,
            out@ == start + (if attr { escape_attr(cs@.take(i as int)) } else { escape_text(cs@.take(i as int)) }),
        decreases cs.len() - i,
    {
        let c = cs[i];
        proof {
            assert(cs@.take(i as int + 1).drop_last() =~= cs@.take(i as int));
        }
        if c == '&' {
            push_str(out, "&amp;");
        } else if c == '<' {
            push_str(out, "&lt;");
        } else if c == '>' {
            push_str(out, "&gt;");
        } else if attr && c == '"' {
            push_str(out, "&quot;");
        } else {
            out.push(c);
        }
        i = i + 1;
        proof {
            let t = cs@.take(i as int);
            assert(t.last() == c);
            assert(out@ =~= start + (if attr { escape_attr(t) } else { escape_text(t) }));
        }
    }
    proof {
        assert(cs@.take(cs@.len() as int) =~= s@);
    }
}

/// Append the tag name `d` renders with.
fn push_tag(out: &mut Vec<char>, d: &DomSpec, attrs: &Attrs)
    ensures
        final(out)@ == old(out)@ + dom_tag(*d, attrs@),
{
    push_str(out, d.tag.as_str());
    match &d.suffix {
        None => {},
        Some(p) => {
            let n: u64 = match attrs.lookup(p.0.as_str()) {
                Some(AttrValue::Number(n)) => *n,
                _ => p.1,
            };
            let digits = decimal_chars(n);
            push_chars(out, &digits);
        },
    }
}

/// Append `<tag attrs…`.
fn push_open_tag(out: &mut Vec<char>, d: &DomSpec, attrs: &Attrs)
    ensures
        final(out)@ == old(out)@ + open_tag(*d, attrs@),
{
    let ghost start = out@;
    push_str(out, "<");
    push_tag(out, d, attrs);
    let ghost mid = out@;
    let mut i: usize = 0;
    while i < d.attrs.len()
        invariant
            i <= d.attrs@.len(),
            out@ == mid + dom_attrs_html(d.attrs@.take(i as int), attrs@),
        decreases d.attrs.len() - i,
    {
        proof {
            assert(d.attrs@.take(i as int + 1).drop_last() =~= d.attrs@.take(i as int));
        }
        push_str(out, " ");
        match &d.attrs[i] {
            DomAttr::Static(name, value) => {
                push_str(out, name.as_str());
                push_str(out, "=\"");
                push_escaped(out, value.as_str(), true);
            },
            DomAttr::FromAttr(name, from) => {
                push_str(out, name.as_str());
                push_str(out, "=\"");
                match attrs.lookup(from.as_str()) {
                    Some(AttrValue::String(v)) => {
                        push_escaped(out, v.as_str(), true);
                    },
                    Some(AttrValue::Number(n)) => {
                        let digits = decimal_chars(*n);
                        let text = string_from_chars(&digits);
                        push_escaped(out, text.as_str(), true);
                    },
                    _ => {
                        proof {
                            assert(escape_attr(Seq::<char>::empty()) =~= Seq::<char>::empty());
                        }
                    },
                }
            },
        }
        push_str(out, "\"");
        i = i + 1;
        proof {
            assert(d.attrs@.take(i as int).last() == d.attrs@[i - 1]);
            assert(out@ =~= mid + dom_attrs_html(d.attrs@.take(i as int), attrs@));
        }
    }
    proof {
        assert(d.attrs@.take(d.attrs@.len() as int) =~= d.attrs@);
        assert(out@ =~= start + open_tag(*d, attrs@));
    }
}

/// `inner` wrapped in the element `d` describes.
fn wrap_element(d: &DomSpec, attrs: &Attrs, inner: &Vec<char>) -> (r: Vec<char>)
    ensures
        r@ == element_html(*d, attrs@, inner@),
{
    let mut w: Vec<char> = Vec::new();
    push_open_tag(&mut w, d, attrs);
    push_str(&mut w, ">");
    push_chars(&mut w, inner);
    push_str(&mut w, "</");
    push_tag(&mut w, d, attrs);
    push_str(&mut w, ">");
    proof {
        assert(w@ =~= element_html(*d, attrs@, inner@));
    }
    w
}

impl Node {
    /// Serialize this node (and its subtree) to an HTML string.
    ///
    /// Text and attribute values are HTML-escaped. A node type whose spec has
    /// no `to_dom` is transparent: only its content is emitted (the usual
    /// case for the document node).
    pub fn to_html(&self) -> (r: String)
        ensures
            r@ == html_of(*self),
    {
        let mut out: Vec<char> = Vec::new();
        self.write_html(&mut out);
        assert(out@ =~= html_of(*self));
        string_from_chars(&out)
    }

    fn write_html(&self, out: &mut Vec<char>)
        ensures
            final(out)@ == old(out)@ + html_of(*self),
        decreases *self,
    {
        match self.text() {
            Some(t) => {
                let mut s: Vec<char> = Vec::new();
                push_escaped(&mut s, t, false);
                let marks = self.marks();
                let mut i: usize = 0;
                while i < marks.len()
                    invariant
                        i <= marks@.len(),
                        marks@ == self.spec_marks(),
                        s@ == marked_html(escape_text(t@), marks@.take(i as int)),
                    decreases marks.len() - i,
                {
                    proof {
                        assert(marks@.take(i as int + 1).drop_last() =~= marks@.take(i as int));
                    }
                    let m: &Mark = &marks[i];
                    match &m.mark_type().spec().to_dom {
                        Some(d) => {
                            s = wrap_element(d, m.attrs(), &s);
                        },
                        None => {},
                    }
                    i = i + 1;
                }
                proof {
                    assert(marks@.take(marks@.len() as int) =~= marks@);
                }
                push_chars(out, &s);
            },
            None => {
                let mut inner: Vec<char> = Vec::new();
                let children = self.content().children();
                let mut i: usize = 0;
                while i < children.len()
                    invariant
                        i <= children.len(),
                        children@ == self.spec_children(),
                        self.spec_text() is None,
                        inner@ == children_html(*self, i as int),
                    decreases children.len() - i,
                {
                    proof {
                        assert(decreases_to!(*self => self.spec_children()[i as int]));
                    }
                    children[i].write_html(&mut inner);
                    i = i + 1;
                }
                match &self.node_type().spec().to_dom {
                    None => {
                        push_chars(out, &inner);
                    },
                    Some(d) => {
                        if d.content_hole {
                            let w = wrap_element(d, self.attrs(), &inner);
                            push_chars(out, &w);
                        } else {
                            push_open_tag(out, d, self.attrs());
                            push_str(out, "/>");
                        }
                    },
                }
            },
        }
    }
}

} // verus!
