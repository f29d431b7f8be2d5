//! [`Schema`] — the set of node and mark types a document may use — and the
//! [`SchemaBuilder`] used to declare one.

use std::sync::Arc;
use vstd::prelude::*;

use crate::attrs::{attrs_lookup, AttrValue, AttrValueV, Attrs};
use crate::content::{
    compile_content, char_is_whitespace, unicode_whitespace, run_types, terms_below, ContentMatch, Resolver,
};
use crate::error::{DocError, SchemaError};
use crate::fragment::{checked_sum_sizes, Fragment};
use crate::html::{DomSpec, ParseRule};
use crate::mark::{Mark, MarkType, MarkTypeInner};
use crate::node::{nodes_size, Node, NodeType, NodeTypeInner};
use crate::strutil::{str_eq, string_from_chars};

verus! {

/// Declaration of a single attribute: its default value, if any. An attribute
/// with no default is required at construction time.
#[derive(Debug, Clone)]
pub struct AttrSpec {
    /// Default value used when the attribute is omitted.
    pub default: Option<AttrValue>,
}

impl Default for AttrSpec {
    fn default() -> (r: Self)
        ensures
            r.default is None,
    {
        AttrSpec { default: None }
    }
}

/// Declaration of a node type.
#[derive(Debug, Clone)]
pub struct NodeSpec {
    /// Content expression for valid children (e.g. `"paragraph+"`). `None`
    /// means a leaf node.
    pub content: Option<String>,
    /// Group(s) this node belongs to (space-separated), referenced from
    /// other nodes' content expressions.
    pub group: Option<String>,
    /// Mark expression for allowed marks.
    pub marks: Option<String>,
    /// Whether this node is inline (text is always inline regardless).
    pub inline: bool,
    /// Whether this node is an opaque atom even if it has content.
    pub atom: bool,
    /// Attribute declarations, by name.
    pub attrs: Vec<(String, AttrSpec)>,
    /// How the node renders as HTML (`None`: its children are emitted bare).
    pub to_dom: Option<DomSpec>,
    /// HTML tags that parse back into this node.
    pub parse_dom: Vec<ParseRule>,
}

impl Default for NodeSpec {
    fn default() -> (r: Self)
        ensures
            r.content is None,
            r.group is None,
            r.marks is None,
            !r.inline,
            !r.atom,
            r.attrs@.len() == 0,
            r.to_dom is None,
            r.parse_dom@.len() == 0,
    {
        NodeSpec {
            content: None,
            group: None,
            marks: None,
            inline: false,
            atom: false,
            attrs: Vec::new(),
            to_dom: None,
            parse_dom: Vec::new(),
        }
    }
}

/// Declaration of a mark type.
#[derive(Debug, Clone)]
pub struct MarkSpec {
    /// Group(s) this mark belongs to.
    pub group: Option<String>,
    /// Whether the mark is inclusive (the editor extends it when typing at
    /// its boundary). Stored for adapters; not interpreted here.
    pub inclusive: bool,
    /// Attribute declarations, by name.
    pub attrs: Vec<(String, AttrSpec)>,
    /// How the mark renders as HTML (a wrapping element).
    pub to_dom: Option<DomSpec>,
    /// HTML tags that parse back into this mark.
    pub parse_dom: Vec<ParseRule>,
}

impl Default for MarkSpec {
    fn default() -> (r: Self)
        ensures
            r.group is None,
            !r.inclusive,
            r.attrs@.len() == 0,
            r.to_dom is None,
            r.parse_dom@.len() == 0,
    {
        MarkSpec { group: None, inclusive: false, attrs: Vec::new(), to_dom: None, parse_dom: Vec::new() }
    }
}

/// The names of a list of declarations.
pub open spec fn decl_names<S>(decls: Seq<(String, S)>) -> Seq<Seq<char>> {
    Seq::new(decls.len(), |i: int| decls[i].0@)
}

/// No name occurs twice.
pub open spec fn distinct(names: Seq<Seq<char>>) -> bool {
    forall|i: int, j: int| 0 <= i < j < names.len() ==> names[i] != names[j]
}

/// The whitespace-separated words of `s`, given the word `cur` collected so
/// far.
pub open spec fn words_from(s: Seq<char>, cur: Seq<char>) -> Seq<Seq<char>>
    decreases s.len(),
{
    if s.len() == 0 {
        if cur.len() > 0 { seq![cur] } else { Seq::empty() }
    } else if unicode_whitespace(s[0]) {
        (if cur.len() > 0 { seq![cur] } else { Seq::<Seq<char>>::empty() }) + words_from(s.drop_first(), Seq::empty())
    } else {
        words_from(s.drop_first(), cur.push(s[0]))
    }
}

/// The whitespace-separated words of `s`.
pub open spec fn words(s: Seq<char>) -> Seq<Seq<char>> {
    words_from(s, Seq::empty())
}

/// The string views of a vector of strings.
pub open spec fn strings_view(v: Seq<String>) -> Seq<Seq<char>> {
    Seq::new(v.len(), |i: int| v[i]@)
}

/// Split `s` on Unicode whitespace, dropping empty pieces.
pub(crate) fn split_words(s: &str) -> (r: Vec<String>)
    ensures
        strings_view(r@) == words(s@),
{
    let cs = crate::strutil::chars_of(s);
    let mut out: Vec<String> = Vec::new();
    let mut cur: Vec<char> = Vec::new();
    let mut i: usize = 0;
    proof {
        assert(cs@.skip(0) =~= cs@);
        assert(strings_view(out@) =~= Seq::<Seq<char>>::empty());
        assert(cur@ =~= Seq::<char>::empty());
        assert(Seq::<Seq<char>>::empty() + words_from(cs@, Seq::empty()) =~= words(s@));
    }
    while i < cs.len()
        invariant
            i <= cs.len(),
            cs@ == s@,
            strings_view(out@) + words_from(cs@.skip(i as int), cur@) == words(s@),
        decreases cs.len() - i,
    {
        let c = cs[i];
        proof {
            assert(cs@.skip(i as int)[0] == c);
            assert(cs@.skip(i as int).drop_first() =~= cs@.skip(i as int + 1));
        }
        if char_is_whitespace(c) {
            if cur.len() > 0 {
                let w = string_from_chars(&cur);
                let ghost before = strings_view(out@);
                out.push(w);
                proof {
                    assert(strings_view(out@) =~= before + seq![cur@]);
                    assert(before + seq![cur@] + words_from(cs@.skip(i as int + 1), Seq::empty())
                        =~= before + (seq![cur@] + words_from(cs@.skip(i as int + 1), Seq::empty())));
                }
            } else {
                proof {
                    assert(Seq::<Seq<char>>::empty() + words_from(cs@.skip(i as int + 1), Seq::empty())
                        =~= words_from(cs@.skip(i as int + 1), Seq::empty()));
                }
            }
            cur = Vec::new();
            proof {
                assert(cur@ =~= Seq::<char>::empty());
            }
        } else {
            cur.push(c);
        }
        i = i + 1;
    }
    proof {
        assert(cs@.skip(i as int) =~= Seq::<char>::empty());
    }
    if cur.len() > 0 {
        let w = string_from_chars(&cur);
        let ghost before = strings_view(out@);
        out.push(w);
        proof {
            assert(strings_view(out@) =~= before + seq![cur@]);
        }
    } else {
        proof {
            assert(strings_view(out@) + Seq::<Seq<char>>::empty() =~= strings_view(out@));
        }
    }
    out
}

/// Builder for a [`Schema`]. Node and mark declaration order is preserved and
/// determines schema ids.
pub struct SchemaBuilder {
    pub(crate) nodes: Vec<(String, NodeSpec)>,
    pub(crate) marks: Vec<(String, MarkSpec)>,
    pub(crate) top_node: Option<String>,
}

impl SchemaBuilder {
    /// The node declarations, in order.
    pub open(crate) spec fn spec_nodes(self) -> Seq<(String, NodeSpec)> {
        self.nodes@
    }

    /// The mark declarations, in order.
    pub open(crate) spec fn spec_marks(self) -> Seq<(String, MarkSpec)> {
        self.marks@
    }

    /// The top node name, when set.
    pub open(crate) spec fn spec_top_opt(self) -> Option<String> {
        self.top_node
    }

    /// Declared node names, in order.
    pub open(crate) spec fn spec_node_names(self) -> Seq<Seq<char>> {
        decl_names(self.nodes@)
    }

    /// Declared mark names, in order.
    pub open(crate) spec fn spec_mark_names(self) -> Seq<Seq<char>> {
        decl_names(self.spec_marks())
    }

    /// The top node name (`"doc"` unless set).
    pub open(crate) spec fn spec_top_name(self) -> Seq<char> {
        match self.top_node {
            Some(t) => t@,
            None => "doc"@,
        }
    }

    /// Start an empty builder.
    pub fn new() -> (r: Self)
        ensures
            r.spec_nodes().len() == 0,
            r.spec_marks().len() == 0,
            r.spec_top_opt() is None,
    {
        SchemaBuilder { nodes: Vec::new(), marks: Vec::new(), top_node: None }
    }

    /// Declare a node type. The type named `text` is the document's text
    /// node and must be a leaf.
    pub fn node(self, name: &str, spec: NodeSpec) -> (r: Self)
        ensures
            r.spec_node_names() == self.spec_node_names().push(name@),
            r.spec_nodes() == self.spec_nodes().push((r.spec_nodes().last().0, spec)),
            r.spec_marks() == self.spec_marks(),
            r.spec_top_opt() == self.spec_top_opt(),
    {
        let mut s = self;
        s.nodes.push((name.to_string(), spec));
        proof {
            assert(decl_names(s.nodes@) =~= decl_names(self.spec_nodes()).push(name@));
        }
        s
    }

    /// Declare a mark type.
    pub fn mark(self, name: &str, spec: MarkSpec) -> (r: Self)
        ensures
            r.spec_mark_names() == self.spec_mark_names().push(name@),
            r.spec_marks() == self.spec_marks().push((r.spec_marks().last().0, spec)),
            r.spec_nodes() == self.spec_nodes(),
            r.spec_top_opt() == self.spec_top_opt(),
    {
        let mut s = self;
        s.marks.push((name.to_string(), spec));
        proof {
            assert(decl_names(s.marks@) =~= decl_names(self.spec_marks()).push(name@));
        }
        s
    }

    /// Set the top (document) node type name. Defaults to `"doc"`.
    pub fn top_node(self, name: &str) -> (r: Self)
        ensures
            r.spec_top_name() == name@,
            r.spec_nodes() == self.spec_nodes(),
            r.spec_marks() == self.spec_marks(),
    {
        let mut s = self;
        s.top_node = Some(name.to_string());
        s
    }

    /// The index of the first name that repeats an earlier one, if any.
    fn first_duplicate<S>(decls: &Vec<(String, S)>) -> (r: Option<usize>)
        ensures
            match r {
                Some(i) => i < decls@.len() && !distinct(decl_names(decls@)),
                None => distinct(decl_names(decls@)),
            },
    {
        let mut i: usize = 0;
        while i < decls.len()
            invariant
                i <= decls.len(),
                distinct(decl_names(decls@.take(i as int))),
            decreases decls.len() - i,
        {
            let mut j: usize = 0;
            while j < i
                invariant
                    j <= i < decls.len(),
                    forall|k: int| 0 <= k < j ==> decls@[k].0@ != decls@[i as int].0@,
                decreases i - j,
            {
                if str_eq(decls[j].0.as_str(), decls[i].0.as_str()) {
                    proof {
                        assert(decl_names(decls@)[j as int] == decl_names(decls@)[i as int]);
                    }
                    return Some(i);
                }
                j = j + 1;
            }
            proof {
                assert forall|a: int, b: int| 0 <= a < b < i + 1 implies
                    #[trigger] decl_names(decls@.take(i as int + 1))[a] != #[trigger] decl_names(decls@.take(i as int + 1))[b] by {
                    if b < i {
                        assert(decl_names(decls@.take(i as int))[a] == decl_names(decls@.take(i as int + 1))[a]);
                        assert(decl_names(decls@.take(i as int))[b] == decl_names(decls@.take(i as int + 1))[b]);
                    }
                }
            }
            i = i + 1;
        }
        proof {
            assert(decls@.take(decls@.len() as int) =~= decls@);
        }
        None
    }

    /// Validate and compile the schema.
    ///
    /// Fails with [`SchemaError::Empty`] when no node is declared, with
    /// [`SchemaError::DuplicateType`] when a node name (or a mark name)
    /// repeats, with [`SchemaError::UnknownTopNode`] when the top name is not
    /// a declared node, and with a content error when a content expression
    /// does not compile.
    #[verifier::spinoff_prover]
    #[verifier::rlimit(30)]
    pub fn build(self) -> (r: Result<Schema, SchemaError>)
        ensures
            (self.spec_nodes().len() == 0) <==> (r == Err::<Schema, SchemaError>(SchemaError::Empty)),
            self.spec_nodes().len() > 0 && !distinct(self.spec_node_names()) ==> r matches Err(SchemaError::DuplicateType(_)),
            self.spec_nodes().len() > 0 && distinct(self.spec_node_names()) && !distinct(self.spec_mark_names())
                ==> r matches Err(SchemaError::DuplicateType(_)),
            r matches Err(SchemaError::DuplicateType(_)) ==> self.spec_nodes().len() > 0 && !(distinct(self.spec_node_names())
                && distinct(self.spec_mark_names())),
            r matches Err(SchemaError::UnknownTopNode(t)) <==> (self.spec_nodes().len() > 0 && distinct(self.spec_node_names())
                && distinct(self.spec_mark_names()) && !self.spec_node_names().contains(self.spec_top_name())),
            r matches Err(SchemaError::UnknownTopNode(t)) ==> t@ == self.spec_top_name(),
            self.spec_nodes().len() > 0 && distinct(self.spec_node_names()) && distinct(self.spec_mark_names())
                && self.spec_node_names().contains(self.spec_top_name()) && no_content_exprs(self.spec_nodes()) ==> r is Ok,
            r matches Ok(s) ==> s.spec_node_names() == self.spec_node_names()
                && s.spec_mark_names() == self.spec_mark_names()
                && s.spec_top().spec_name() == self.spec_top_name()
                && (forall|i: int| 0 <= i < self.spec_nodes().len() ==> (#[trigger] s.spec_node_types()[i]).spec_decl() == self.spec_nodes()[i].1)
                && (forall|i: int| 0 <= i < self.spec_marks().len() ==> (#[trigger] s.spec_mark_types()[i]).spec_decl() == self.spec_marks()[i].1)
                && (forall|i: int| 0 <= i < self.spec_nodes().len() ==> (#[trigger] s.spec_node_types()[i]).spec_id() == i)
                && (forall|i: int| 0 <= i < self.spec_marks().len() ==> (#[trigger] s.spec_mark_types()[i]).spec_id() == i),
    {
        let ghost orig = self;
        if self.nodes.len() == 0 {
            return Err(SchemaError::Empty);
        }
        match Self::first_duplicate(&self.nodes) {
            Some(i) => {
                return Err(SchemaError::DuplicateType(self.nodes[i].0.clone()));
            },
            None => {},
        }
        match Self::first_duplicate(&self.marks) {
            Some(i) => {
                return Err(SchemaError::DuplicateType(self.marks[i].0.clone()));
            },
            None => {},
        }
        let top_name = match &self.top_node {
            Some(t) => t.clone(),
            None => "doc".to_string(),
        };
        let n = self.nodes.len();
        // Names, in declaration order, and the top index.
        let mut names: Vec<String> = Vec::new();
        let mut top: Option<usize> = None;
        let mut i: usize = 0;
        while i < n
            invariant
                n == self.spec_nodes().len(),
                i <= n,
                strings_view(names@) == self.spec_node_names().take(i as int),
                top_name@ == self.spec_top_name(),
                match top {
                    Some(t) => t < i && self.spec_node_names()[t as int] == top_name@,
                    None => !self.spec_node_names().take(i as int).contains(top_name@),
                },
            decreases n - i,
        {
            let ghost before = strings_view(names@);
            let nm = self.nodes[i].0.clone();
            names.push(nm);
            proof {
                assert(strings_view(names@) =~= before.push(nm@));
                assert(self.spec_node_names().take(i as int + 1) =~= self.spec_node_names().take(i as int).push(self.spec_node_names()[i as int]));
            }
            if top.is_none() && str_eq(self.nodes[i].0.as_str(), top_name.as_str()) {
                top = Some(i);
            }
            proof {
                assert(strings_view(names@) =~= self.spec_node_names().take(i as int + 1));
                if top is None {
                    assert forall|k: int| 0 <= k < i + 1 implies #[trigger] self.spec_node_names().take(i as int + 1)[k] != top_name@ by {
                        if k < i {
                            assert(self.spec_node_names().take(i as int)[k] == self.spec_node_names()[k]);
                        }
                    }
                }
            }
            i = i + 1;
        }
        proof {
            assert(self.spec_node_names().take(n as int) =~= self.spec_node_names());
        }
        let top = match top {
            Some(t) => t,
            None => {
                return Err(SchemaError::UnknownTopNode(top_name));
            },
        };
        // Group name → member ids, in order of first mention.
        let mut groups: Vec<(String, Vec<usize>)> = Vec::new();
        let mut i: usize = 0;
        while i < n
            invariant
                n == self.spec_nodes().len(),
                i <= n,
                forall|g: int, k: int| 0 <= g < groups@.len() && 0 <= k < groups@[g].1@.len()
                    ==> (#[trigger] groups@[g].1@[k]) < n,
            decreases n - i,
        {
            match &self.nodes[i].1.group {
                Some(g) => {
                    let ws = split_words(g.as_str());
                    let mut w: usize = 0;
                    while w < ws.len()
                        invariant
                            i < n,
                            w <= ws.len(),
                            forall|g: int, k: int| 0 <= g < groups@.len() && 0 <= k < groups@[g].1@.len()
                                ==> (#[trigger] groups@[g].1@[k]) < n,
                        decreases ws.len() - w,
                    {
                        add_to_group(&mut groups, &ws[w], i, n);
                        w = w + 1;
                    }
                },
                None => {},
            }
            i = i + 1;
        }
        let resolver = Resolver { names, groups };
        // Compile the content expressions and build the node types.
        let ghost decls = self.nodes@;
        let (nodes, cms) = match compile_node_types(self.nodes, &resolver) {
            Ok(p) => p,
            Err(e) => {
                return Err(e);
            },
        };
        let ghost mdecls = self.marks@;
        let marks = build_mark_types(self.marks);
        proof {
            assert(Seq::new(nodes@.len(), |i: int| nodes@[i].spec_name()) =~= decl_names(decls));
            assert(Seq::new(marks@.len(), |i: int| marks@[i].spec_name()) =~= decl_names(mdecls));
        }
        let s = Schema(Arc::new(SchemaInner { nodes, marks, top, content_matches: cms }));
        proof {
            assert(s.spec_node_names() =~= decl_names(decls));
            assert(s.spec_mark_names() =~= decl_names(mdecls));
            use_type_invariant(&s);
        }
        Ok(s)
    }
}

/// Whether no declaration among `decls` has a content expression (or only
/// an empty one): every node type is a leaf.
pub open spec fn no_content_exprs(decls: Seq<(String, NodeSpec)>) -> bool {
    forall|k: int| 0 <= k < decls.len() ==> match (#[trigger] decls[k]).1.content {
        Some(e) => e@.len() == 0,
        None => true,
    }
}

/// Compile each declaration's content expression and build its node type.
fn compile_node_types(given: Vec<(String, NodeSpec)>, resolver: &Resolver) -> (r: Result<(Vec<NodeType>, Vec<ContentMatch>), SchemaError>)
    requires
        resolver.wf(),
        resolver.names@.len() == given@.len(),
    ensures
        r matches Err(e) ==> (e is UnknownContentRef || e is BadContentExpression),
        no_content_exprs(given@) ==> r is Ok,
        r matches Ok((nodes, cms)) ==> {
            let n = given@.len();
            &&& nodes@.len() == n
            &&& cms@.len() == n
            &&& forall|k: int| 0 <= k < n ==> (#[trigger] nodes@[k]).spec_id() == k
                && nodes@[k].spec_name() == given@[k].0@
                && nodes@[k].spec_decl() == given@[k].1
                && nodes@[k].spec_is_text() == (given@[k].0@ == "text"@)
            &&& forall|k: int| 0 <= k < n ==> (#[trigger] cms@[k]).wf() && terms_below(cms@[k].automaton().nodes@, n)
            &&& forall|k: int| 0 <= k < n ==> (#[trigger] nodes@[k]).spec_is_leaf()
                == (forall|t: usize| t < n ==> #[trigger] cms@[k].spec_next(t).is_empty())
        },
{
    let n = given.len();
    let mut specs = given;
    let ghost decls = specs@;
    let mut nodes: Vec<NodeType> = Vec::new();
    let mut cms: Vec<ContentMatch> = Vec::new();
    let mut i: usize = 0;
    while i < n
        invariant
            n == decls.len(),
            i <= n,
            decls == given@,
            specs@ == decls.skip(i as int),
            resolver.wf(),
            resolver.names@.len() == n,
            nodes@.len() == i,
            cms@.len() == i,
            forall|k: int| 0 <= k < i ==> (#[trigger] nodes@[k]).spec_id() == k
                && nodes@[k].spec_name() == decls[k].0@
                && nodes@[k].spec_decl() == decls[k].1
                && nodes@[k].spec_is_text() == (decls[k].0@ == "text"@),
            forall|k: int| 0 <= k < i ==> (#[trigger] cms@[k]).wf() && terms_below(cms@[k].automaton().nodes@, n as nat),
            forall|k: int| 0 <= k < i ==> (#[trigger] nodes@[k]).spec_is_leaf()
                == (forall|t: usize| t < n ==> #[trigger] cms@[k].spec_next(t).is_empty()),
        decreases n - i,
    {
        proof {
            assert(specs@[0] == decls[i as int]);
            reveal_strlit("");
        }
        let (name, spec) = specs.remove(0);
        proof {
            assert(specs@ =~= decls.skip(i as int + 1));
        }
        let cm = match &spec.content {
            Some(expr) => compile_content(name.as_str(), expr.as_str(), resolver),
            None => compile_content(name.as_str(), "", resolver),
        };
        let cm = match cm {
            Ok(cm) => cm,
            Err(e) => {
                proof {
                    if no_content_exprs(decls) {
                        assert(decls[i as int].1 == spec);
                        assert(false);
                    }
                }
                return Err(e);
            },
        };
        let is_leaf = accepts_nothing(&cm, n);
        let groups = match &spec.group {
            Some(g) => split_words(g.as_str()),
            None => Vec::new(),
        };
        let is_text = str_eq(name.as_str(), "text");
        let nt = NodeType(Arc::new(NodeTypeInner {
            id: i,
            name,
            spec,
            groups,
            is_text,
            content_is_empty: is_leaf,
        }));
        let ghost old_nodes = nodes@;
        let ghost old_cms = cms@;
        nodes.push(nt);
        cms.push(cm);
        proof {
            assert forall|k: int| 0 <= k < i + 1 implies (#[trigger] nodes@[k]).spec_is_leaf()
                == (forall|t: usize| t < n ==> #[trigger] cms@[k].spec_next(t).is_empty()) by {
                if k < i {
                    assert(nodes@[k] == old_nodes[k]);
                    assert(cms@[k] == old_cms[k]);
                } else {
                    assert(nodes@[k] == nt);
                    assert(cms@[k] == cm);
                }
            }
        }
        i = i + 1;
    }
    Ok((nodes, cms))
}

/// The mark types declared by `decls`, with ids in declaration order.
fn build_mark_types(decls: Vec<(String, MarkSpec)>) -> (r: Vec<MarkType>)
    ensures
        r@.len() == decls@.len(),
        forall|k: int| 0 <= k < decls@.len() ==> (#[trigger] r@[k]).spec_id() == k
            && r@[k].spec_name() == decls@[k].0@
            && r@[k].spec_decl() == decls@[k].1,
{
    let mut specs = decls;
    let ghost mdecls = specs@;
    let m = specs.len();
    let mut marks: Vec<MarkType> = Vec::new();
    let mut i: usize = 0;
    while i < m
        invariant
            m == mdecls.len(),
            i <= m,
            specs@ == mdecls.skip(i as int),
            marks@.len() == i,
            forall|k: int| 0 <= k < i ==> (#[trigger] marks@[k]).spec_id() == k
                && marks@[k].spec_name() == mdecls[k].0@
                && marks@[k].spec_decl() == mdecls[k].1,
        decreases m - i,
    {
        proof {
            assert(specs@[0] == mdecls[i as int]);
        }
        let (name, spec) = specs.remove(0);
        proof {
            assert(specs@ =~= mdecls.skip(i as int + 1));
        }
        marks.push(MarkType(Arc::new(MarkTypeInner { id: i, name, spec })));
        i = i + 1;
    }
    marks
}

/// `after` is `groups` with `id` added to the first group named `name`, or,
/// when there is none, with a new group `name` holding only `id`.
pub open spec fn group_added(groups: Seq<(String, Vec<usize>)>, after: Seq<(String, Vec<usize>)>, name: Seq<char>, id: usize) -> bool {
    ||| exists|g: int| #![trigger groups[g]] {
        &&& 0 <= g < groups.len()
        &&& groups[g].0@ == name
        &&& forall|a: int| 0 <= a < g ==> (#[trigger] groups[a]).0@ != name
        &&& after.len() == groups.len()
        &&& after[g].0@ == name
        &&& after[g].1@ == groups[g].1@.push(id)
        &&& forall|a: int| 0 <= a < groups.len() && a != g ==> #[trigger] after[a] == groups[a]
    }
    ||| {
        &&& forall|a: int| 0 <= a < groups.len() ==> (#[trigger] groups[a]).0@ != name
        &&& after.len() == groups.len() + 1
        &&& after.last().0@ == name
        &&& after.last().1@ == seq![id]
        &&& forall|a: int| 0 <= a < groups.len() ==> #[trigger] after[a] == groups[a]
    }
}

/// Record that node `id` belongs to group `name`.
fn add_to_group(groups: &mut Vec<(String, Vec<usize>)>, name: &String, id: usize, n: usize)
    requires
        id < n,
        forall|g: int, k: int| 0 <= g < old(groups)@.len() && 0 <= k < old(groups)@[g].1@.len()
            ==> (#[trigger] old(groups)@[g].1@[k]) < n,
    ensures
        forall|g: int, k: int| 0 <= g < final(groups)@.len() && 0 <= k < final(groups)@[g].1@.len()
            ==> (#[trigger] final(groups)@[g].1@[k]) < n,
        group_added(old(groups)@, final(groups)@, name@, id),
{
    let mut g: usize = 0;
    while g < groups.len()
        invariant
            g <= groups@.len(),
            groups@ == old(groups)@,
            id < n,
            forall|a: int| 0 <= a < g ==> (#[trigger] old(groups)@[a]).0@ != name@,
            forall|a: int, k: int| 0 <= a < old(groups)@.len() && 0 <= k < old(groups)@[a].1@.len()
                ==> (#[trigger] old(groups)@[a].1@[k]) < n,
        decreases groups.len() - g,
    {
        if str_eq(groups[g].0.as_str(), name.as_str()) {
            let mut ids = groups[g].1.clone();
            let ghost old_ids = ids@;
            ids.push(id);
            proof {
                assert(old_ids == groups@[g as int].1@);
            }
            let key = groups[g].0.clone();
            let ghost before = groups@;
            groups.set(g, (key, ids));
            proof {
                assert(groups@[g as int].1@ == old(groups)@[g as int].1@.push(id));
                assert(group_added(old(groups)@, groups@, name@, id));
                assert forall|a: int, k: int| 0 <= a < groups@.len() && 0 <= k < groups@[a].1@.len()
                    implies (#[trigger] groups@[a].1@[k]) < n by {
                    if a != g {
                        assert(groups@[a] == before[a]);
                    } else {
                        assert(groups@[a].1@ == ids@);
                        if k < ids@.len() - 1 {
                            assert(ids@[k] == old_ids[k]);
                            assert(old_ids[k] == old(groups)@[a].1@[k]);
                            assert(old(groups)@[a].1@[k] < n);
                        } else {
                            assert(ids@[k] == id);
                        }
                    }
                }
            }
            return;
        }
        g = g + 1;
    }
    let mut ids = Vec::new();
    ids.push(id);
    groups.push((name.clone(), ids));
    proof {
        assert(groups@.last().1@ =~= seq![id]);
        assert forall|a: int, k: int| 0 <= a < groups@.len() && 0 <= k < groups@[a].1@.len()
            implies (#[trigger] groups@[a].1@[k]) < n by {
            if a < groups@.len() - 1 {
                assert(groups@[a] == old(groups)@[a]);
            }
        }
    }
}

/// Whether `cm` accepts no child of any of the `n` types.
fn accepts_nothing(cm: &ContentMatch, n: usize) -> (r: bool)
    requires
        cm.wf(),
    ensures
        r == (forall|t: usize| t < n ==> #[trigger] cm.spec_next(t).is_empty()),
{
    let mut t: usize = 0;
    while t < n
        invariant
            cm.wf(),
            t <= n,
            forall|u: usize| u < t ==> #[trigger] cm.spec_next(u).is_empty(),
        decreases n - t,
    {
        if cm.match_type(t).is_some() {
            return false;
        }
        t = t + 1;
    }
    true
}

#[derive(Debug)]
pub struct SchemaInner {
    pub(crate) nodes: Vec<NodeType>,
    pub(crate) marks: Vec<MarkType>,
    pub(crate) top: usize,
    pub(crate) content_matches: Vec<ContentMatch>,
}

/// An immutable, validated set of node and mark types. Cloning is O(1).
#[derive(Debug)]
pub struct Schema(pub(crate) Arc<SchemaInner>);

/// The first default declared for `key` in `decls` (later declarations
/// only count when no earlier one supplied a default).
pub open spec fn default_for(decls: Seq<(String, AttrSpec)>, key: Seq<char>) -> Option<AttrValueV>
    decreases decls.len(),
{
    if decls.len() == 0 {
        None
    } else {
        match default_for(decls.drop_last(), key) {
            Some(v) => Some(v),
            None => if decls.last().0@ == key && decls.last().1.default is Some {
                Some(decls.last().1.default.unwrap()@)
            } else {
                None
            },
        }
    }
}

/// The attributes a node receives: those given, then declared defaults for
/// the ones left out.
pub open spec fn filled_attr(decls: Seq<(String, AttrSpec)>, given: Attrs, key: Seq<char>) -> Option<AttrValueV> {
    match given.spec_get(key) {
        Some(v) => Some(v),
        None => default_for(decls, key),
    }
}

impl Schema {
    #[verifier::type_invariant]
    pub(crate) closed spec fn inv(self) -> bool {
        let n = self.0.nodes@.len();
        &&& forall|i: int| 0 <= i < n ==> (#[trigger] self.0.nodes@[i]).spec_id() == i
        &&& forall|i: int| 0 <= i < self.0.marks@.len() ==> (#[trigger] self.0.marks@[i]).spec_id() == i
        &&& self.0.content_matches@.len() == n
        &&& forall|i: int| 0 <= i < n ==> (#[trigger] self.0.content_matches@[i]).wf()
            && terms_below(self.0.content_matches@[i].automaton().nodes@, n)
        &&& forall|i: int| 0 <= i < n ==> (#[trigger] self.0.nodes@[i]).spec_is_leaf()
            == (forall|t: usize| t < n ==> #[trigger] self.0.content_matches@[i].spec_next(t).is_empty())
        &&& forall|i: int| 0 <= i < n ==> (#[trigger] self.0.nodes@[i]).spec_is_text() == (self.0.nodes@[i].spec_name() == "text"@)
        &&& self.0.top < n
        &&& distinct(self.spec_node_names())
        &&& distinct(self.spec_mark_names())
    }

    /// The node types, by id.
    pub open(crate) spec fn spec_node_types(self) -> Seq<NodeType> {
        self.0.nodes@
    }

    /// The mark types, by id.
    pub open(crate) spec fn spec_mark_types(self) -> Seq<MarkType> {
        self.0.marks@
    }

    /// The node type names, by id.
    pub open(crate) spec fn spec_node_names(self) -> Seq<Seq<char>> {
        Seq::new(self.0.nodes@.len(), |i: int| self.0.nodes@[i].spec_name())
    }

    /// The mark type names, by id.
    pub open(crate) spec fn spec_mark_names(self) -> Seq<Seq<char>> {
        Seq::new(self.0.marks@.len(), |i: int| self.0.marks@[i].spec_name())
    }

    /// The top node type.
    pub open(crate) spec fn spec_top(self) -> NodeType {
        self.0.nodes@[self.0.top as int]
    }

    /// Whether `t` is one of this schema's node types.
    pub open(crate) spec fn has_node_type(self, t: NodeType) -> bool {
        t.spec_id() < self.0.nodes@.len() && self.0.nodes@[t.spec_id() as int] == t
    }

    /// The content automaton of node type `id`.
    pub open(crate) spec fn spec_content_match(self, id: usize) -> ContentMatch {
        self.0.content_matches@[id as int]
    }

    /// Whether children of types `types`, in order, are valid content for
    /// node type `id`.
    pub open(crate) spec fn spec_types_valid(self, id: usize, types: Seq<usize>) -> bool {
        let cm = self.spec_content_match(id);
        run_types(cm.automaton(), cm.state_set(), types).contains(cm.automaton().accept as int)
    }

    /// Whether `children` are valid content for node type `id`.
    pub open(crate) spec fn spec_content_valid(self, id: usize, children: Seq<Node>) -> bool {
        self.spec_types_valid(id, Seq::new(children.len(), |i: int| children[i].spec_type_id()))
    }

    /// Look up a node type by name.
    pub fn node_type(&self, name: &str) -> (r: Option<&NodeType>)
        ensures
            match r {
                Some(t) => self.has_node_type(*t) && t.spec_name() == name@,
                None => !self.spec_node_names().contains(name@),
            },
    {
        proof {
            use_type_invariant(self);
        }
        let mut i: usize = 0;
        while i < self.0.nodes.len()
            invariant
                i <= self.0.nodes@.len(),
                forall|k: int| 0 <= k < self.0.nodes@.len() ==> (#[trigger] self.0.nodes@[k]).spec_id() == k,
                forall|k: int| 0 <= k < i ==> self.spec_node_names()[k] != name@,
            decreases self.0.nodes.len() - i,
        {
            if str_eq(self.0.nodes[i].name(), name) {
                return Some(&self.0.nodes[i]);
            }
            i = i + 1;
        }
        None
    }

    /// Look up a mark type by name.
    pub fn mark_type(&self, name: &str) -> (r: Option<&MarkType>)
        ensures
            match r {
                Some(t) => t.spec_id() < self.spec_mark_types().len() && self.spec_mark_types()[t.spec_id() as int] == *t
                    && t.spec_name() == name@,
                None => !self.spec_mark_names().contains(name@),
            },
    {
        proof {
            use_type_invariant(self);
        }
        let mut i: usize = 0;
        while i < self.0.marks.len()
            invariant
                i <= self.0.marks@.len(),
                forall|k: int| 0 <= k < self.0.marks@.len() ==> (#[trigger] self.0.marks@[k]).spec_id() == k,
                forall|k: int| 0 <= k < i ==> self.spec_mark_names()[k] != name@,
            decreases self.0.marks.len() - i,
        {
            if str_eq(self.0.marks[i].name(), name) {
                return Some(&self.0.marks[i]);
            }
            i = i + 1;
        }
        None
    }

    /// Type names are distinct, and the text type is the one named `text`.
    pub(crate) fn check_names(&self)
        ensures
            distinct(self.spec_node_names()),
            distinct(self.spec_mark_names()),
            forall|i: int| 0 <= i < self.spec_node_types().len()
                ==> (#[trigger] self.spec_node_types()[i]).spec_is_text() == (self.spec_node_types()[i].spec_name() == "text"@),
    {
        proof {
            use_type_invariant(self);
        }
    }

    /// The top (document) node type.
    pub fn top_node_type(&self) -> (r: &NodeType)
        ensures
            *r == self.spec_top(),
            self.has_node_type(*r),
    {
        proof {
            use_type_invariant(self);
        }
        &self.0.nodes[self.0.top]
    }

    /// Whether `t` is one of this schema's node types (by id and name).
    pub fn owns_node_type(&self, t: &NodeType) -> (r: bool)
        ensures
            r == self.spec_owns(*t),
    {
        if t.id() >= self.0.nodes.len() {
            return false;
        }
        str_eq(self.0.nodes[t.id()].name(), t.name())
    }

    /// All node types, ordered by id.
    pub fn node_types(&self) -> (r: &[NodeType])
        ensures
            r@ == self.spec_node_types(),
    {
        self.0.nodes.as_slice()
    }

    /// All mark types, ordered by id.
    pub fn mark_types(&self) -> (r: &[MarkType])
        ensures
            r@ == self.spec_mark_types(),
    {
        self.0.marks.as_slice()
    }

    /// The content automaton of node type `type_id`, at its start.
    pub(crate) fn content_match(&self, type_id: usize) -> (r: &ContentMatch)
        requires
            type_id < self.spec_node_types().len(),
        ensures
            *r == self.spec_content_match(type_id),
            r.wf(),
    {
        proof {
            use_type_invariant(self);
        }
        &self.0.content_matches[type_id]
    }

    /// Whether children of the given types, in order, satisfy `parent`'s
    /// content expression.
    pub(crate) fn types_valid(&self, parent: usize, types: &[usize]) -> (r: bool)
        requires
            parent < self.spec_node_types().len(),
        ensures
            r == self.spec_types_valid(parent, types@),
    {
        let cm = self.content_match(parent);
        cm.matches_complete(types)
    }

    /// Whether `children` (in order) satisfy `parent`'s content expression.
    pub fn content_valid(&self, parent: &NodeType, children: &[Node]) -> (r: bool)
        requires
            parent.spec_id() < self.spec_node_types().len(),
        ensures
            r == self.spec_content_valid(parent.spec_id(), children@),
    {
        let mut types: Vec<usize> = Vec::new();
        let mut i: usize = 0;
        while i < children.len()
            invariant
                i <= children@.len(),
                types@ == Seq::new(i as nat, |k: int| children@[k].spec_type_id()),
            decreases children.len() - i,
        {
            types.push(children[i].node_type().id());
            proof {
                assert(types@ =~= Seq::new(i as nat + 1, |k: int| children@[k].spec_type_id()));
            }
            i = i + 1;
        }
        self.types_valid(parent.id(), types.as_slice())
    }

    /// Whether `content` satisfies `parent`'s content expression.
    pub fn fragment_valid(&self, parent: &NodeType, content: &Fragment) -> (r: bool)
        requires
            parent.spec_id() < self.spec_node_types().len(),
        ensures
            r == self.spec_content_valid(parent.spec_id(), content.spec_children()),
    {
        self.content_valid(parent, content.children())
    }

    /// Whether the type with id `joined` may be joined onto the type with id
    /// `onto`: the same type, or content expressions whose start states share
    /// an acceptable next child.
    pub open(crate) spec fn spec_types_compatible(self, joined: usize, onto: usize) -> bool {
        joined == onto || exists|t: usize|
            !self.spec_content_match(joined).automaton().targets(self.spec_content_match(joined).state_set(), t).is_empty()
            && !self.spec_content_match(onto).automaton().targets(self.spec_content_match(onto).state_set(), t).is_empty()
    }

    /// Whether `t` is the node type this schema declares under its id.
    pub open spec fn spec_owns(self, t: NodeType) -> bool {
        t.spec_id() < self.spec_node_types().len() && self.spec_node_types()[t.spec_id() as int].spec_name() == t.spec_name()
    }

    /// Whether nodes of type `joined` may be joined onto nodes of type
    /// `onto`: the same type, or content expressions that share an
    /// acceptable next child.
    pub fn types_compatible(&self, joined: &NodeType, onto: &NodeType) -> (r: bool)
        requires
            joined.spec_id() < self.spec_node_types().len(),
            onto.spec_id() < self.spec_node_types().len(),
        ensures
            r == self.spec_types_compatible(joined.spec_id(), onto.spec_id()),
    {
        if joined.id() == onto.id() {
            return true;
        }
        let a = self.content_match(joined.id());
        let b = self.content_match(onto.id());
        a.compatible(b)
    }

    /// `given`, completed with the declared defaults of the attributes it
    /// leaves out.
    pub(crate) fn fill_attrs(decls: &Vec<(String, AttrSpec)>, given: Attrs) -> (r: Attrs)
        requires
            given.wf(),
        ensures
            r.wf(),
            forall|k: Seq<char>| #[trigger] r.spec_get(k) == filled_attr(decls@, given, k),
    {
        let mut out = given;
        let mut i: usize = 0;
        while i < decls.len()
            invariant
                i <= decls@.len(),
                out.wf(),
                forall|k: Seq<char>| #[trigger] out.spec_get(k) == filled_attr(decls@.take(i as int), given, k),
            decreases decls.len() - i,
        {
            proof {
                assert(decls@.take(i as int + 1).drop_last() =~= decls@.take(i as int));
            }
            if !out.contains_key(decls[i].0.as_str()) {
                match &decls[i].1.default {
                    Some(d) => {
                        out.insert(decls[i].0.clone(), d.clone());
                    },
                    None => {},
                }
            }
            i = i + 1;
        }
        proof {
            assert(decls@.take(decls@.len() as int) =~= decls@);
        }
        out
    }

    /// Build an element node without checking its content against the
    /// schema (used for intermediate wrappers). Attributes are filled from
    /// spec defaults.
    pub fn create_node(&self, name: &str, attrs: Attrs, children: Vec<Node>, marks: Vec<Mark>) -> (r: Result<Node, DocError>)
        requires
            attrs.wf(),
            nodes_size(children@) + 2 <= usize::MAX,
        ensures
            match r {
                Ok(n) => self.has_node_type(n.spec_type()) && n.spec_type().spec_name() == name@
                    && n.spec_children() == children@ && n.spec_marks() == marks@ && n.spec_text() is None
                    && forall|k: Seq<char>| #[trigger] attrs_lookup(n.spec_attrs(), k) == filled_attr(n.spec_type().spec_decl().attrs@, attrs, k),
                Err(e) => (e matches DocError::UnknownNodeType(m) && m@ == name@) && !self.spec_node_names().contains(name@),
            },
    {
        let nt = match self.node_type(name) {
            Some(t) => t.clone(),
            None => {
                return Err(DocError::UnknownNodeType(name.to_string()));
            },
        };
        let ghost given = attrs;
        let filled = Self::fill_attrs(&nt.0.spec.attrs, attrs);
        proof {
            assert forall|k: Seq<char>| #[trigger] attrs_lookup(filled@, k) == filled_attr(nt.spec_decl().attrs@, given, k) by {
                assert(filled.spec_get(k) == filled_attr(nt.spec_decl().attrs@, given, k));
            }
        }
        let content = Fragment::from_nodes(children);
        Ok(Node::new_element(nt, filled, content, marks))
    }
    /// Build a validated element node.
    ///
    /// Attributes are filled from spec defaults. Returns
    /// [`DocError::UnknownNodeType`] for an unknown name or
    /// [`DocError::InvalidContent`] if the children violate the schema.
    pub fn node(&self, name: &str, attrs: Attrs, children: Vec<Node>, marks: Vec<Mark>) -> (r: Result<Node, DocError>)
        requires
            attrs.wf(),
            nodes_size(children@) + 2 <= usize::MAX,
        ensures
            match r {
                Ok(n) => self.has_node_type(n.spec_type()) && n.spec_type().spec_name() == name@
                    && self.spec_content_valid(n.spec_type_id(), children@)
                    && n.spec_children() == children@ && n.spec_marks() == marks@ && n.spec_text() is None
                    && forall|k: Seq<char>| #[trigger] attrs_lookup(n.spec_attrs(), k) == filled_attr(n.spec_type().spec_decl().attrs@, attrs, k),
                Err(DocError::UnknownNodeType(m)) => m@ == name@ && !self.spec_node_names().contains(name@),
                Err(DocError::InvalidContent { parent }) => parent@ == name@ && self.spec_node_names().contains(name@)
                    && !self.spec_content_valid(self.spec_id_of(name@), children@),
                Err(_) => false,
            },
    {
        proof {
            use_type_invariant(self);
        }
        let nt = match self.node_type(name) {
            Some(t) => t.clone(),
            None => {
                return Err(DocError::UnknownNodeType(name.to_string()));
            },
        };
        proof {
            self.lemma_id_of(nt.spec_id());
        }
        if !self.content_valid(&nt, children.as_slice()) {
            return Err(DocError::InvalidContent { parent: name.to_string() });
        }
        let ghost given = attrs;
        let filled = Self::fill_attrs(&nt.0.spec.attrs, attrs);
        proof {
            assert forall|k: Seq<char>| #[trigger] attrs_lookup(filled@, k) == filled_attr(nt.spec_decl().attrs@, given, k) by {
                assert(filled.spec_get(k) == filled_attr(nt.spec_decl().attrs@, given, k));
            }
        }
        let content = Fragment::from_nodes(children);
        Ok(Node::new_element(nt, filled, content, marks))
    }

    /// The id of the node type named `name` (meaningful when there is one).
    pub open(crate) spec fn spec_id_of(self, name: Seq<char>) -> usize {
        choose|i: usize| i < self.spec_node_names().len() && self.spec_node_names()[i as int] == name
    }

    /// Node types of this schema are told apart by their names.
    pub(crate) fn names_identify_types(&self)
        ensures
            forall|a: NodeType, b: NodeType| #![trigger self.has_node_type(a), self.has_node_type(b)]
                self.has_node_type(a) && self.has_node_type(b) && a.spec_name() == b.spec_name() ==> a == b,
    {
        proof {
            use_type_invariant(self);
            assert forall|a: NodeType, b: NodeType| #![trigger self.has_node_type(a), self.has_node_type(b)]
                self.has_node_type(a) && self.has_node_type(b) && a.spec_name() == b.spec_name() implies a == b by {
                assert(self.spec_node_names()[a.spec_id() as int] == a.spec_name());
                assert(self.spec_node_names()[b.spec_id() as int] == b.spec_name());
            }
        }
    }

    /// The top node type is one of the declared node types.
    pub(crate) fn check_top_named(&self)
        ensures
            self.spec_node_names().contains(self.spec_top().spec_name()),
    {
        proof {
            use_type_invariant(self);
            assert(self.spec_node_names()[self.0.top as int] == self.spec_top().spec_name());
        }
    }

    /// Names are distinct, so the type named after node type `i` is `i`.
    pub(crate) proof fn lemma_id_of(self, i: usize)
        requires
            i < self.spec_node_names().len(),
            distinct(self.spec_node_names()),
        ensures
            self.spec_id_of(self.spec_node_names()[i as int]) == i,
    {
        let name = self.spec_node_names()[i as int];
        assert(self.spec_node_names()[i as int] == name);
        let j = self.spec_id_of(name);
        if j != i {
            if j < i {
                assert(self.spec_node_names()[j as int] != self.spec_node_names()[i as int]);
            } else {
                assert(self.spec_node_names()[i as int] != self.spec_node_names()[j as int]);
            }
        }
    }

    /// The schema's text node type, if it declares one.
    fn text_type(&self) -> (r: Option<&NodeType>)
        ensures
            match r {
                Some(t) => self.has_node_type(*t) && t.spec_is_text(),
                None => forall|i: int| 0 <= i < self.spec_node_types().len() ==> !(#[trigger] self.spec_node_types()[i]).spec_is_text(),
            },
    {
        proof {
            use_type_invariant(self);
        }
        let mut i: usize = 0;
        while i < self.0.nodes.len()
            invariant
                i <= self.0.nodes@.len(),
                forall|k: int| 0 <= k < self.0.nodes@.len() ==> (#[trigger] self.0.nodes@[k]).spec_id() == k,
                forall|k: int| 0 <= k < i ==> !(#[trigger] self.spec_node_types()[k]).spec_is_text(),
            decreases self.0.nodes.len() - i,
        {
            if self.0.nodes[i].is_text() {
                return Some(&self.0.nodes[i]);
            }
            i = i + 1;
        }
        None
    }

    /// Build a text node carrying `text` with the given marks.
    pub fn text(&self, text: &str, marks: Vec<Mark>) -> (r: Result<Node, DocError>)
        ensures
            match r {
                Ok(n) => self.has_node_type(n.spec_type()) && n.spec_type().spec_is_text()
                    && n.spec_text() == Some(text@) && n.spec_marks() == marks@
                    && n.spec_attrs().len() == 0 && n.spec_children().len() == 0,
                Err(e) => (e matches DocError::UnknownNodeType(m) && m@ == "text"@)
                    && !self.spec_node_names().contains("text"@),
            },
    {
        proof {
            use_type_invariant(self);
        }
        match self.text_type() {
            Some(t) => Ok(Node::new_text(t.clone(), text.to_string(), marks)),
            None => {
                proof {
                    if self.spec_node_names().contains("text"@) {
                        let j = choose|j: int| 0 <= j < self.spec_node_names().len() && self.spec_node_names()[j] == "text"@;
                        assert(!self.spec_node_types()[j].spec_is_text());
                    }
                }
                Err(DocError::UnknownNodeType("text".to_string()))
            },
        }
    }
}

/// Every node of the tree `n` has a type of `s`, and every element's
/// children are valid content for its type.
pub open spec fn valid_tree(s: Schema, n: Node) -> bool
    decreases n, n.spec_children().len() + 1,
{
    &&& s.has_node_type(n.spec_type())
    &&& n.spec_text() is None ==> s.spec_content_valid(n.spec_type_id(), n.spec_children())
        && valid_children(s, n, n.spec_children().len() as int)
}

/// The first `k` children of `n` are valid trees of `s`.
pub open spec fn valid_children(s: Schema, n: Node, k: int) -> bool
    decreases n, k,
{
    if k <= 0 || k > n.spec_children().len() {
        true
    } else {
        proof {
            assert(decreases_to!(n => n.spec_children()[k - 1]));
        }
        valid_children(s, n, k - 1) && valid_tree(s, n.spec_children()[k - 1])
    }
}

pub proof fn lemma_valid_children(s: Schema, n: Node, k: int)
    requires
        0 <= k <= n.spec_children().len(),
        forall|i: int| 0 <= i < k ==> valid_tree(s, #[trigger] n.spec_children()[i]),
    ensures
        valid_children(s, n, k),
    decreases k,
{
    if k > 0 {
        lemma_valid_children(s, n, k - 1);
    }
}

impl Schema {
    /// [`Schema::node`] on children whose sizes may not fit together:
    /// [`DocError::TooLarge`] when they do not; the node it builds from
    /// valid children is a valid tree.
    pub(crate) fn node_checked(&self, name: &str, attrs: Attrs, children: Vec<Node>, marks: Vec<Mark>) -> (r: Result<Node, DocError>)
        requires
            attrs.wf(),
            forall|i: int| 0 <= i < children@.len() ==> valid_tree(*self, #[trigger] children@[i]),
        ensures
            r matches Ok(n) ==> valid_tree(*self, n) && n.spec_type().spec_name() == name@ && n.spec_children() == children@
                && n.spec_text() is None && n.spec_marks() == marks@
                && forall|k: Seq<char>| #[trigger] attrs_lookup(n.spec_attrs(), k) == filled_attr(n.spec_type().spec_decl().attrs@, attrs, k),
            r is Ok <==> nodes_size(children@) + 2 <= usize::MAX && self.spec_node_names().contains(name@)
                && self.spec_content_valid(self.spec_id_of(name@), children@),
            (r matches Err(DocError::TooLarge)) <==> nodes_size(children@) + 2 > usize::MAX,
            (r matches Err(DocError::InvalidContent { .. })) <==> nodes_size(children@) + 2 <= usize::MAX
                && self.spec_node_names().contains(name@) && !self.spec_content_valid(self.spec_id_of(name@), children@),
    {
        proof {
            use_type_invariant(self);
        }
        match checked_sum_sizes(&children) {
            Some(total) => {
                if total > usize::MAX - 2 {
                    return Err(DocError::TooLarge);
                }
            },
            None => {
                return Err(DocError::TooLarge);
            },
        }
        let r = self.node(name, attrs, children, marks);
        match r {
            Ok(n) => {
                proof {
                    lemma_valid_children(*self, n, n.spec_children().len() as int);
                    let i = n.spec_type_id();
                    assert(self.spec_node_names()[i as int] == name@);
                    self.lemma_id_of(i);
                }
                Ok(n)
            },
            Err(e) => Err(e),
        }
    }
}

impl Clone for Schema {
    fn clone(&self) -> (r: Self)
        ensures
            r == *self,
    {
        proof {
            use_type_invariant(self);
        }
        Schema(Arc::clone(&self.0))
    }
}

} // verus!
