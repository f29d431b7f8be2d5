//! The HTML reader: a small tokenizer, entity decoding, a tree builder that
//! balances open and close tags under a nesting limit, and the conversion of
//! the balanced tree into schema-valid nodes.
//!
//! The reader understands only the subset of HTML an editor needs. Comments,
//! doctypes and processing instructions are skipped; attribute and tag names
//! are ASCII-lowercased; unknown elements are unwrapped.

use vstd::prelude::*;

use crate::attrs::{AttrValue, AttrValueV, Attrs};
use crate::content::{char_is_whitespace, unicode_whitespace};
use crate::error::DocError;
use crate::html::{escape_attr, escape_attr_char, escape_text, escape_text_char, pairs_lookup, HtmlElement, ParseRule, MAX_DEPTH};
use crate::mark::{clone_marks, Mark};
use crate::node::{nodes_size, Node};
use crate::schema::{filled_attr, valid_tree, Schema};
use crate::attrs::attrs_lookup;
use crate::strutil::{
    ascii_lower_seq, char_from_u32, decimal, decimal_chars, is_scalar, lower_chars, push_chars, push_str, str_eq,
    string_from_chars,
};

verus! {

// ---- scanning ---------------------------------------------------------------

/// What a scan stops at.
#[derive(Clone, Copy)]
pub enum Stop {
    /// The given character.
    Char(char),
    /// Any character that is not whitespace.
    NotWs,
    /// Whitespace, `>` or `/` (the end of a tag name or unquoted value).
    TagEnd,
    /// Whitespace, `=`, `>` or `/` (the end of an attribute name).
    AttrNameEnd,
}

/// Whether a scan for `k` stops at `c`.
pub open spec fn stops(k: Stop, c: char) -> bool {
    match k {
        Stop::Char(q) => c == q,
        Stop::NotWs => !unicode_whitespace(c),
        Stop::TagEnd => unicode_whitespace(c) || c == '>' || c == '/',
        Stop::AttrNameEnd => unicode_whitespace(c) || c == '=' || c == '>' || c == '/',
    }
}

/// The first index at or after `j` where a scan for `k` stops, or `j` itself
/// when `j` is already at or past the end.
pub open spec fn scan(cs: Seq<char>, j: int, k: Stop) -> int
    decreases cs.len() - j,
{
    if 0 <= j < cs.len() && !stops(k, cs[j]) {
        scan(cs, j + 1, k)
    } else {
        j
    }
}

/// What a scan returns: a later index, inside the input unless the start
/// already was past it, where the scan stops, passing over no stop.
pub proof fn lemma_scan(cs: Seq<char>, j: int, k: Stop)
    requires
        0 <= j,
    ensures
        j <= scan(cs, j, k),
        scan(cs, j, k) <= if j <= cs.len() { cs.len() as int } else { j },
        scan(cs, j, k) < cs.len() ==> stops(k, cs[scan(cs, j, k)]),
        j < cs.len() && !stops(k, cs[j]) ==> j < scan(cs, j, k),
        forall|m: int| j <= m < scan(cs, j, k) ==> !stops(k, #[trigger] cs[m]),
    decreases cs.len() - j,
{
    if 0 <= j < cs.len() && !stops(k, cs[j]) {
        lemma_scan(cs, j + 1, k);
    }
}

fn stops_at(k: Stop, c: char) -> (r: bool)
    ensures
        r == stops(k, c),
{
    match k {
        Stop::Char(q) => c == q,
        Stop::NotWs => !char_is_whitespace(c),
        Stop::TagEnd => char_is_whitespace(c) || c == '>' || c == '/',
        Stop::AttrNameEnd => char_is_whitespace(c) || c == '=' || c == '>' || c == '/',
    }
}

/// Scan `cs` from `j` for `k`.
fn scan_to(cs: &Vec<char>, j: usize, k: Stop) -> (r: usize)
    ensures
        r == scan(cs@, j as int, k),
{
    let mut m = j;
    while m < cs.len() && !stops_at(k, cs[m])
        invariant
            j <= m,
            scan(cs@, m as int, k) == scan(cs@, j as int, k),
        decreases cs.len() - m,
    {
        m = m + 1;
    }
    m
}

/// The characters of `cs` from `from` to `to`.
fn slice_chars(cs: &Vec<char>, from: usize, to: usize) -> (r: Vec<char>)
    requires
        from <= to <= cs@.len(),
    ensures
        r@ == cs@.subrange(from as int, to as int),
{
    let mut out: Vec<char> = Vec::new();
    let mut i = from;
    while i < to
        invariant
            from <= i <= to <= cs@.len(),
            out@ == cs@.subrange(from as int, i as int),
        decreases to - i,
    {
        out.push(cs[i]);
        i = i + 1;
        proof {
            assert(out@ =~= cs@.subrange(from as int, i as int));
        }
    }
    out
}

/// The index just past the last non-whitespace character among the first
/// `k` of `s` (0 when there is none).
pub open spec fn trim_end(s: Seq<char>, k: int) -> int
    decreases k,
{
    if 0 < k <= s.len() && unicode_whitespace(s[k - 1]) {
        trim_end(s, k - 1)
    } else {
        k
    }
}

/// `s` without leading and trailing whitespace (as `str::trim`).
pub open spec fn trim(s: Seq<char>) -> Seq<char> {
    let lead = scan(s, 0, Stop::NotWs);
    if lead >= s.len() {
        Seq::empty()
    } else {
        s.subrange(lead, trim_end(s, s.len() as int))
    }
}

proof fn lemma_trim_end(s: Seq<char>, k: int)
    requires
        0 <= k <= s.len(),
    ensures
        0 <= trim_end(s, k) <= k,
        trim_end(s, k) > 0 ==> !unicode_whitespace(s[trim_end(s, k) - 1]),
        forall|m: int| trim_end(s, k) <= m < k ==> unicode_whitespace(#[trigger] s[m]),
    decreases k,
{
    if 0 < k <= s.len() && unicode_whitespace(s[k - 1]) {
        lemma_trim_end(s, k - 1);
    }
}

/// `s` without leading and trailing whitespace.
fn trim_chars(s: &Vec<char>) -> (r: Vec<char>)
    ensures
        r@ == trim(s@),
{
    let lead = scan_to(s, 0, Stop::NotWs);
    if lead >= s.len() {
        return Vec::new();
    }
    let mut end = s.len();
    while end > 0 && char_is_whitespace(s[end - 1])
        invariant
            end <= s@.len(),
            trim_end(s@, end as int) == trim_end(s@, s@.len() as int),
        decreases end,
    {
        end = end - 1;
    }
    proof {
        lemma_scan(s@, 0, Stop::NotWs);
        lemma_trim_end(s@, s@.len() as int);
        assert(!unicode_whitespace(s@[lead as int]));
        if end <= lead {
            assert(unicode_whitespace(s@[lead as int]));
        }
    }
    slice_chars(s, lead, end)
}

// ---- entities ---------------------------------------------------------------

/// The value of digit `c` in base `radix` (letters count from ten, in
/// either case), if it is one.
pub open spec fn digit_val(c: char, radix: nat) -> Option<nat> {
    let v: int = if '0' <= c <= '9' {
        c as int - '0' as int
    } else if 'a' <= c <= 'z' {
        c as int - 'a' as int + 10
    } else if 'A' <= c <= 'Z' {
        c as int - 'A' as int + 10
    } else {
        radix as int
    };
    if 0 <= v < radix {
        Some(v as nat)
    } else {
        None
    }
}

/// The value of a run of base-`radix` digits (0 for no digits).
pub open spec fn digits_value(ds: Seq<char>, radix: nat) -> Option<nat>
    decreases ds.len(),
{
    if ds.len() == 0 {
        Some(0)
    } else {
        match (digits_value(ds.drop_last(), radix), digit_val(ds.last(), radix)) {
            (Some(v), Some(d)) => Some(v * radix + d),
            _ => None,
        }
    }
}

/// How `u32`'s parser reads `ds` in base `radix`: an optional `+` and at
/// least one digit, with a value that fits a `u32`.
pub open spec fn parse_u32(ds: Seq<char>, radix: nat) -> Option<nat> {
    let body = if ds.len() > 0 && ds[0] == '+' {
        ds.drop_first()
    } else {
        ds
    };
    if body.len() == 0 {
        None
    } else {
        match digits_value(body, radix) {
            Some(v) => if v <= u32::MAX {
                Some(v)
            } else {
                None
            },
            None => None,
        }
    }
}

/// The character with code point `v`, when `v` is a Unicode scalar value.
pub open spec fn scalar_char(v: Option<nat>) -> Option<char> {
    match v {
        Some(n) => if is_scalar(n as int) {
            Some(n as char)
        } else {
            None
        },
        None => None,
    }
}

/// The character an entity name (the text between `&` and `;`) stands for:
/// one of five named entities, or a decimal (`#65`) or hexadecimal (`#x41`)
/// character reference.
pub open spec fn entity_char(ent: Seq<char>) -> Option<char> {
    if ent == "amp"@ {
        Some('&')
    } else if ent == "lt"@ {
        Some('<')
    } else if ent == "gt"@ {
        Some('>')
    } else if ent == "quot"@ {
        Some('"')
    } else if ent == "apos"@ {
        Some('\'')
    } else if ent.len() >= 2 && ent[0] == '#' && (ent[1] == 'x' || ent[1] == 'X') {
        scalar_char(parse_u32(ent.skip(2), 16))
    } else if ent.len() >= 1 && ent[0] == '#' {
        scalar_char(parse_u32(ent.skip(1), 10))
    } else {
        None
    }
}

/// The entity starting at `s[i]` (an `&`): the character it stands for and
/// the index just past its `;`, if the text up to the next `;` names one.
pub open spec fn entity_at(s: Seq<char>, i: int) -> Option<(char, int)> {
    let semi = scan(s, i + 1, Stop::Char(';'));
    if semi < s.len() {
        match entity_char(s.subrange(i + 1, semi)) {
            Some(c) => Some((c, semi + 1)),
            None => None,
        }
    } else {
        None
    }
}

/// `s` from index `i` on with its entities replaced by the characters they
/// stand for; an `&` that starts no known entity is kept as is.
pub open spec fn decode_from(s: Seq<char>, i: int) -> Seq<char>
    decreases s.len() - i,
{
    if i < 0 || i >= s.len() {
        Seq::empty()
    } else if s[i] == '&' && entity_at(s, i) is Some {
        let (c, next) = entity_at(s, i)->0;
        proof {
            lemma_scan(s, i + 1, Stop::Char(';'));
        }
        seq![c] + decode_from(s, next)
    } else {
        seq![s[i]] + decode_from(s, i + 1)
    }
}

/// `s` with its entities decoded.
pub open spec fn decode(s: Seq<char>) -> Seq<char> {
    decode_from(s, 0)
}

fn digit_value(c: char, radix: u32) -> (r: Option<u32>)
    requires
        radix == 10 || radix == 16,
    ensures
        r matches Some(d) ==> digit_val(c, radix as nat) == Some(d as nat),
        r is None ==> digit_val(c, radix as nat) is None,
{
    let v: u32 = if '0' <= c && c <= '9' {
        (c as u32) - ('0' as u32)
    } else if 'a' <= c && c <= 'z' {
        (c as u32) - ('a' as u32) + 10
    } else if 'A' <= c && c <= 'Z' {
        (c as u32) - ('A' as u32) + 10
    } else {
        radix
    };
    if v < radix {
        Some(v)
    } else {
        None
    }
}

proof fn lemma_digits_step(v: nat, radix: nat, d: nat)
    requires
        1 <= radix <= 16,
        d < radix,
    ensures
        v * radix + d >= v,
        v <= 0x10FFFF ==> v * radix + d <= 0x10FFFF * 16 + 15,
{
    assert(v * radix >= v) by (nonlinear_arith)
        requires
            radix >= 1,
    ;
    if v <= 0x10FFFF {
        assert(v * radix <= 0x10FFFF * 16) by (nonlinear_arith)
            requires
                v <= 0x10FFFF,
                radix <= 16,
        ;
    }
}

/// The character a numeric reference `ent[from..]` stands for.
fn numeric_char(ent: &Vec<char>, from: usize, radix: u32) -> (r: Option<char>)
    requires
        from <= ent@.len(),
        radix == 10 || radix == 16,
    ensures
        r == scalar_char(parse_u32(ent@.skip(from as int), radix as nat)),
{
    let ghost ds = ent@.skip(from as int);
    let mut start = from;
    if start < ent.len() && ent[start] == '+' {
        start = start + 1;
    }
    let ghost body = ent@.skip(start as int);
    proof {
        if ds.len() > 0 && ds[0] == '+' {
            assert(body =~= ds.drop_first());
        } else {
            assert(body =~= ds);
        }
    }
    if start >= ent.len() {
        return None;
    }
    // `value` is exact while `big` is false; once the value passes the
    // largest code point it can only grow, so only validity is tracked.
    let mut value: u32 = 0;
    let mut big = false;
    let mut i = start;
    while i < ent.len()
        invariant
            start <= i <= ent@.len(),
            start < ent@.len(),
            radix == 10 || radix == 16,
            body == ent@.skip(start as int),
            ds == ent@.skip(from as int),
            ds.len() > 0 && ds[0] == '+' ==> body == ds.drop_first(),
            !(ds.len() > 0 && ds[0] == '+') ==> body == ds,
            value <= 0x10FFFF,
            digits_value(ent@.subrange(start as int, i as int), radix as nat) matches Some(v) && (if big {
                v > 0x10FFFF
            } else {
                v == value
            }),
        decreases ent.len() - i,
    {
        let ghost prev = ent@.subrange(start as int, i as int);
        let ghost v = digits_value(prev, radix as nat)->0;
        proof {
            assert(ent@.subrange(start as int, i as int + 1).drop_last() =~= prev);
        }
        match digit_value(ent[i], radix) {
            None => {
                proof {
                    let pre = ent@.subrange(start as int, i as int + 1);
                    assert(pre.last() == ent@[i as int]);
                    assert(digits_value(pre, radix as nat) is None);
                    assert(pre =~= body.take(pre.len() as int));
                    lemma_digits_invalid(pre, body, radix as nat);
                }
                return None;
            },
            Some(d) => {
                proof {
                    lemma_digits_step(v, radix as nat, d as nat);
                }
                if !big {
                    let next: u64 = (value as u64) * (radix as u64) + (d as u64);
                    if next > 0x10FFFF {
                        big = true;
                    } else {
                        value = next as u32;
                    }
                }
            },
        }
        i = i + 1;
    }
    proof {
        assert(ent@.subrange(start as int, ent@.len() as int) =~= body);
    }
    if big {
        None
    } else {
        char_from_u32(value)
    }
}

/// A run with an invalid digit has no value, however it continues.
proof fn lemma_digits_invalid(pre: Seq<char>, s: Seq<char>, radix: nat)
    requires
        pre.len() <= s.len(),
        pre == s.take(pre.len() as int),
        digits_value(pre, radix) is None,
    ensures
        digits_value(s, radix) is None,
    decreases s.len() - pre.len(),
{
    if pre.len() < s.len() {
        let next = s.take(pre.len() as int + 1);
        assert(next.drop_last() =~= pre);
        lemma_digits_invalid(next, s, radix);
    } else {
        assert(s =~= pre);
    }
}

/// The character the entity name `ent` stands for.
fn entity_char_of(ent: &Vec<char>) -> (r: Option<char>)
    ensures
        r == entity_char(ent@),
{
    let name = string_from_chars(ent);
    if str_eq(name.as_str(), "amp") {
        Some('&')
    } else if str_eq(name.as_str(), "lt") {
        Some('<')
    } else if str_eq(name.as_str(), "gt") {
        Some('>')
    } else if str_eq(name.as_str(), "quot") {
        Some('"')
    } else if str_eq(name.as_str(), "apos") {
        Some('\'')
    } else if ent.len() >= 2 && ent[0] == '#' && (ent[1] == 'x' || ent[1] == 'X') {
        numeric_char(ent, 2, 16)
    } else if ent.len() >= 1 && ent[0] == '#' {
        numeric_char(ent, 1, 10)
    } else {
        None
    }
}

/// `s` with its entities decoded.
pub(crate) fn decode_entities(s: &Vec<char>) -> (r: Vec<char>)
    ensures
        r@ == decode(s@),
{
    let mut out: Vec<char> = Vec::new();
    let mut i: usize = 0;
    while i < s.len()
        invariant
            i <= s@.len(),
            out@ + decode_from(s@, i as int) == decode(s@),
        decreases s.len() - i,
    {
        let ghost before = out@;
        if s[i] == '&' {
            let semi = scan_to(s, i + 1, Stop::Char(';'));
            proof {
                lemma_scan(s@, i + 1, Stop::Char(';'));
            }
            if semi < s.len() {
                let ent = slice_chars(s, i + 1, semi);
                match entity_char_of(&ent) {
                    Some(c) => {
                        out.push(c);
                        proof {
                            assert(out@ + decode_from(s@, semi + 1) =~= before + decode_from(s@, i as int));
                        }
                        i = semi + 1;
                        continue;
                    },
                    None => {},
                }
            }
        }
        out.push(s[i]);
        proof {
            assert(out@ + decode_from(s@, i + 1) =~= before + decode_from(s@, i as int));
        }
        i = i + 1;
    }
    out
}

// ---- tokenizer --------------------------------------------------------------

/// A lexical unit of HTML input.
pub enum Token {
    /// An opening tag with its attributes, in source order.
    Open { tag: String, attrs: Vec<(String, String)>, self_closing: bool },
    /// A closing tag.
    Close(String),
    /// A run of text, entities decoded.
    Text(String),
}

/// The value of a [`Token`].
pub enum TokenV {
    Open(Seq<char>, Seq<(Seq<char>, Seq<char>)>, bool),
    Close(Seq<char>),
    Text(Seq<char>),
}

/// The values of a list of string pairs.
pub open spec fn pairs_view(v: Seq<(String, String)>) -> Seq<(Seq<char>, Seq<char>)> {
    Seq::new(v.len(), |i: int| (v[i].0@, v[i].1@))
}

impl View for Token {
    type V = TokenV;

    open spec fn view(&self) -> TokenV {
        match self {
            Token::Open { tag, attrs, self_closing } => TokenV::Open(tag@, pairs_view(attrs@), *self_closing),
            Token::Close(t) => TokenV::Close(t@),
            Token::Text(t) => TokenV::Text(t@),
        }
    }
}

/// The values of a list of tokens.
pub open spec fn tokens_view(v: Seq<Token>) -> Seq<TokenV> {
    Seq::new(v.len(), |i: int| v[i]@)
}

/// Elements that never have content, whatever the markup says.
pub open spec fn is_void_tag(t: Seq<char>) -> bool {
    t == "area"@ || t == "base"@ || t == "br"@ || t == "col"@ || t == "embed"@ || t == "hr"@ || t == "img"@
        || t == "input"@ || t == "link"@ || t == "meta"@ || t == "source"@ || t == "track"@ || t == "wbr"@
}

fn void_tag(t: &str) -> (r: bool)
    ensures
        r == is_void_tag(t@),
{
    str_eq(t, "area") || str_eq(t, "base") || str_eq(t, "br") || str_eq(t, "col") || str_eq(t, "embed")
        || str_eq(t, "hr") || str_eq(t, "img") || str_eq(t, "input") || str_eq(t, "link") || str_eq(t, "meta")
        || str_eq(t, "source") || str_eq(t, "track") || str_eq(t, "wbr")
}

/// The value of an attribute whose name (and the whitespace after it) ends
/// at `j`, with the index just past it: `="…"`, `='…'`, `=…` up to
/// whitespace, `>` or `/`, or nothing when no `=` follows.
pub open spec fn attr_value(cs: Seq<char>, j: int) -> (Seq<char>, int) {
    if 0 <= j < cs.len() && cs[j] == '=' {
        let v = scan(cs, j + 1, Stop::NotWs);
        if v < cs.len() && (cs[v] == '"' || cs[v] == '\'') {
            let e = scan(cs, v + 1, Stop::Char(cs[v]));
            (cs.subrange(v + 1, e), e + 1)
        } else {
            let e = scan(cs, v, Stop::TagEnd);
            (cs.subrange(v, e), e)
        }
    } else {
        (Seq::empty(), j)
    }
}

/// Where the attribute starting at `j1` (not whitespace, `>` or `/`) ends.
pub proof fn lemma_attr_step(cs: Seq<char>, j1: int)
    requires
        0 <= j1 < cs.len(),
        !unicode_whitespace(cs[j1]),
        cs[j1] != '>',
        cs[j1] != '/',
    ensures
        ({
            let j2 = scan(cs, j1, Stop::AttrNameEnd);
            let j3 = scan(cs, j2, Stop::NotWs);
            &&& j1 <= j2 <= j3 <= cs.len()
            &&& j1 < attr_value(cs, j3).1 <= cs.len() + 1
            &&& j3 <= attr_value(cs, j3).1
        }),
{
    let j2 = scan(cs, j1, Stop::AttrNameEnd);
    lemma_scan(cs, j1, Stop::AttrNameEnd);
    lemma_scan(cs, j2, Stop::NotWs);
    let j3 = scan(cs, j2, Stop::NotWs);
    if j3 < cs.len() && cs[j3] == '=' {
        lemma_scan(cs, j3 + 1, Stop::NotWs);
        let v = scan(cs, j3 + 1, Stop::NotWs);
        if v < cs.len() && (cs[v] == '"' || cs[v] == '\'') {
            lemma_scan(cs, v + 1, Stop::Char(cs[v]));
        } else {
            lemma_scan(cs, v, Stop::TagEnd);
        }
    } else {
        if j2 == j1 {
            assert(stops(Stop::AttrNameEnd, cs[j1]));
            assert(j3 == j1);
        }
    }
}

/// The attributes of a tag from `j` on (lowercased names, decoded values,
/// in source order), whether a `/` occurred among them, and the index of
/// the `>` that ends the tag (or the end of input).
pub open spec fn attr_loop(cs: Seq<char>, j: int) -> (Seq<(Seq<char>, Seq<char>)>, bool, int)
    decreases cs.len() + 1 - j,
{
    if j < 0 || j > cs.len() + 1 {
        (Seq::empty(), false, j)
    } else {
        let j1 = scan(cs, j, Stop::NotWs);
        proof {
            lemma_scan(cs, j, Stop::NotWs);
        }
        if j1 >= cs.len() || cs[j1] == '>' {
            (Seq::empty(), false, j1)
        } else if cs[j1] == '/' {
            let r = attr_loop(cs, j1 + 1);
            (r.0, true, r.2)
        } else {
            let j2 = scan(cs, j1, Stop::AttrNameEnd);
            let name = cs.subrange(j1, j2);
            let j3 = scan(cs, j2, Stop::NotWs);
            let value = attr_value(cs, j3);
            proof {
                lemma_attr_step(cs, j1);
            }
            let r = attr_loop(cs, value.1);
            (
                if name.len() > 0 {
                    seq![(ascii_lower_seq(name), decode(value.0))] + r.0
                } else {
                    r.0
                },
                r.1,
                r.2,
            )
        }
    }
}

/// The end of a tag's attributes lies at or after `j`, at most one past the
/// end of input.
pub proof fn lemma_attr_loop_end(cs: Seq<char>, j: int)
    requires
        0 <= j <= cs.len() + 1,
    ensures
        j <= attr_loop(cs, j).2 <= cs.len() + 1,
    decreases cs.len() + 1 - j,
{
    let j1 = scan(cs, j, Stop::NotWs);
    lemma_scan(cs, j, Stop::NotWs);
    if j1 >= cs.len() || cs[j1] == '>' {
    } else if cs[j1] == '/' {
        lemma_attr_loop_end(cs, j1 + 1);
    } else {
        lemma_attr_step(cs, j1);
        let j2 = scan(cs, j1, Stop::AttrNameEnd);
        let j3 = scan(cs, j2, Stop::NotWs);
        lemma_attr_loop_end(cs, attr_value(cs, j3).1);
    }
}

/// The index where `-->` starts at or after `k`, or -1.
pub open spec fn comment_end(cs: Seq<char>, k: int) -> int
    decreases cs.len() - k,
{
    if k < 0 || k + 3 > cs.len() {
        -1
    } else if cs[k] == '-' && cs[k + 1] == '-' && cs[k + 2] == '>' {
        k
    } else {
        comment_end(cs, k + 1)
    }
}

pub proof fn lemma_comment_end(cs: Seq<char>, k: int)
    requires
        0 <= k,
    ensures
        comment_end(cs, k) == -1 || (k <= comment_end(cs, k) && comment_end(cs, k) + 3 <= cs.len()),
    decreases cs.len() - k,
{
    if !(k < 0 || k + 3 > cs.len()) && !(cs[k] == '-' && cs[k + 1] == '-' && cs[k + 2] == '>') {
        lemma_comment_end(cs, k + 1);
    }
}

/// Whether a comment (`<!--`) starts at `i`.
pub open spec fn comment_at(cs: Seq<char>, i: int) -> bool {
    i + 3 < cs.len() && cs[i + 1] == '!' && cs[i + 2] == '-' && cs[i + 3] == '-'
}

/// The tokens of `cs` from index `i` on. Comments, `<!…>` and `<?…>` are
/// skipped; a close tag's name is trimmed; tag and attribute names are
/// lowercased; text runs end at the next `<`.
pub open spec fn tokens_from(cs: Seq<char>, i: int) -> Seq<TokenV>
    decreases cs.len() + 2 - i,
{
    if i < 0 || i >= cs.len() {
        Seq::empty()
    } else if cs[i] == '<' {
        if comment_at(cs, i) {
            let e = comment_end(cs, i + 4);
            proof {
                lemma_comment_end(cs, i + 4);
            }
            tokens_from(cs, if e >= 0 { e + 3 } else { cs.len() as int })
        } else if i + 1 < cs.len() && (cs[i + 1] == '!' || cs[i + 1] == '?') {
            let p = scan(cs, i, Stop::Char('>'));
            proof {
                lemma_scan(cs, i, Stop::Char('>'));
            }
            tokens_from(cs, if p < cs.len() { p + 1 } else { cs.len() as int })
        } else if i + 1 < cs.len() && cs[i + 1] == '/' {
            let j = scan(cs, i + 2, Stop::Char('>'));
            proof {
                lemma_scan(cs, i + 2, Stop::Char('>'));
            }
            seq![TokenV::Close(ascii_lower_seq(trim(cs.subrange(i + 2, j))))] + tokens_from(cs, j + 1)
        } else {
            let j1 = scan(cs, i + 1, Stop::TagEnd);
            let tag = ascii_lower_seq(cs.subrange(i + 1, j1));
            let a = attr_loop(cs, j1);
            proof {
                lemma_scan(cs, i + 1, Stop::TagEnd);
                lemma_attr_loop_end(cs, j1);
            }
            seq![TokenV::Open(tag, a.0, a.1 || is_void_tag(tag))] + tokens_from(cs, a.2 + 1)
        }
    } else {
        let k = scan(cs, i, Stop::Char('<'));
        proof {
            lemma_scan(cs, i, Stop::Char('<'));
        }
        seq![TokenV::Text(decode(cs.subrange(i, k)))] + tokens_from(cs, k)
    }
}

/// The tokens of `cs`.
pub open spec fn tokenized(cs: Seq<char>) -> Seq<TokenV> {
    tokens_from(cs, 0)
}

/// A lowercased string of `cs[from..to]`.
fn lower_string(cs: &Vec<char>, from: usize, to: usize) -> (r: String)
    requires
        from <= to <= cs@.len(),
    ensures
        r@ == ascii_lower_seq(cs@.subrange(from as int, to as int)),
{
    let part = slice_chars(cs, from, to);
    let low = lower_chars(&part);
    string_from_chars(&low)
}

/// Read the attributes of a tag from `j` (see [`attr_loop`]).
fn read_attrs(cs: &Vec<char>, j: usize) -> (r: (Vec<(String, String)>, bool, usize))
    requires
        j <= cs@.len(),
        cs@.len() + 2 <= usize::MAX,
    ensures
        pairs_view(r.0@) == attr_loop(cs@, j as int).0,
        r.1 == attr_loop(cs@, j as int).1,
        r.2 as int == attr_loop(cs@, j as int).2,
{
    let ghost total = attr_loop(cs@, j as int);
    let mut out: Vec<(String, String)> = Vec::new();
    let mut slash = false;
    let mut k = j;
    loop
        invariant
            k <= cs@.len() + 1,
            cs@.len() + 2 <= usize::MAX,
            total == attr_loop(cs@, j as int),
            pairs_view(out@) + attr_loop(cs@, k as int).0 == total.0,
            (slash || attr_loop(cs@, k as int).1) == total.1,
            attr_loop(cs@, k as int).2 == total.2,
        decreases cs@.len() + 1 - k,
    {
        let j1 = scan_to(cs, k, Stop::NotWs);
        proof {
            lemma_scan(cs@, k as int, Stop::NotWs);
        }
        if j1 >= cs.len() || cs[j1] == '>' {
            proof {
                assert(pairs_view(out@) =~= total.0);
            }
            return (out, slash, j1);
        }
        if cs[j1] == '/' {
            slash = true;
            k = j1 + 1;
            continue;
        }
        proof {
            lemma_attr_step(cs@, j1 as int);
        }
        let j2 = scan_to(cs, j1, Stop::AttrNameEnd);
        let j3 = scan_to(cs, j2, Stop::NotWs);
        let ghost value = attr_value(cs@, j3 as int);
        let mut vstart = j3;
        let mut vend = j3;
        let mut next = j3;
        if j3 < cs.len() && cs[j3] == '=' {
            let v = scan_to(cs, j3 + 1, Stop::NotWs);
            if v < cs.len() && (cs[v] == '"' || cs[v] == '\'') {
                let e = scan_to(cs, v + 1, Stop::Char(cs[v]));
                vstart = v + 1;
                vend = e;
                next = e + 1;
            } else {
                let e = scan_to(cs, v, Stop::TagEnd);
                vstart = v;
                vend = e;
                next = e;
            }
            proof {
                lemma_scan(cs@, j3 + 1, Stop::NotWs);
                lemma_scan(cs@, v as int, Stop::TagEnd);
                if v < cs@.len() {
                    lemma_scan(cs@, v + 1, Stop::Char(cs@[v as int]));
                }
            }
        }
        proof {
            assert(cs@.subrange(vstart as int, vend as int) == value.0);
            assert(next as int == value.1);
        }
        if j2 > j1 {
            let name = lower_string(cs, j1, j2);
            let raw = slice_chars(cs, vstart, vend);
            let decoded = decode_entities(&raw);
            let val = string_from_chars(&decoded);
            let ghost before = out@;
            out.push((name, val));
            proof {
                assert(pairs_view(out@) =~= pairs_view(before) + seq![(ascii_lower_seq(cs@.subrange(j1 as int, j2 as int)), decode(value.0))]);
            }
        }
        k = next;
    }
}

/// Where `-->` starts at or after `from`.
fn find_comment_end(cs: &Vec<char>, from: usize) -> (r: Option<usize>)
    ensures
        match r {
            Some(e) => e as int == comment_end(cs@, from as int) && e + 3 <= cs@.len(),
            None => comment_end(cs@, from as int) == -1,
        },
{
    let n = cs.len();
    if from > n {
        return None;
    }
    let mut k = from;
    while n - k >= 3
        invariant
            from <= k <= n,
            n == cs@.len(),
            comment_end(cs@, k as int) == comment_end(cs@, from as int),
        decreases n - k,
    {
        if cs[k] == '-' && cs[k + 1] == '-' && cs[k + 2] == '>' {
            return Some(k);
        }
        k = k + 1;
    }
    None
}

/// Split `html` into tokens.
pub(crate) fn tokenize(html: &str) -> (r: Vec<Token>)
    requires
        html@.len() + 2 <= usize::MAX,
    ensures
        tokens_view(r@) == tokenized(html@),
{
    let cs = crate::strutil::chars_of(html);
    let n = cs.len();
    let mut out: Vec<Token> = Vec::new();
    let mut i: usize = 0;
    while i < n
        invariant
            n == cs@.len(),
            cs@ == html@,
            n + 2 <= usize::MAX,
            i <= n + 2,
            tokens_view(out@) + tokens_from(cs@, i as int) == tokenized(html@),
        decreases n + 2 - i,
    {
        let ghost before = out@;
        if cs[i] == '<' {
            if i + 3 < n && cs[i + 1] == '!' && cs[i + 2] == '-' && cs[i + 3] == '-' {
                proof {
                    lemma_comment_end(cs@, i + 4);
                }
                i = match find_comment_end(&cs, i + 4) {
                    Some(e) => e + 3,
                    None => n,
                };
                continue;
            }
            if i + 1 < n && (cs[i + 1] == '!' || cs[i + 1] == '?') {
                let p = scan_to(&cs, i, Stop::Char('>'));
                proof {
                    lemma_scan(cs@, i as int, Stop::Char('>'));
                }
                i = if p < n { p + 1 } else { n };
                continue;
            }
            if i + 1 < n && cs[i + 1] == '/' {
                let j = scan_to(&cs, i + 2, Stop::Char('>'));
                proof {
                    lemma_scan(cs@, i + 2, Stop::Char('>'));
                }
                let raw = slice_chars(&cs, i + 2, j);
                let trimmed = trim_chars(&raw);
                let low = lower_chars(&trimmed);
                let name = string_from_chars(&low);
                out.push(Token::Close(name));
                proof {
                    assert(tokens_view(out@) =~= tokens_view(before) + seq![out@.last()@]);
                }
                i = j + 1;
                continue;
            }
            let j1 = scan_to(&cs, i + 1, Stop::TagEnd);
            proof {
                lemma_scan(cs@, i + 1, Stop::TagEnd);
                lemma_attr_loop_end(cs@, j1 as int);
            }
            let tag = lower_string(&cs, i + 1, j1);
            let (attrs, slash, end) = read_attrs(&cs, j1);
            let self_closing = slash || void_tag(tag.as_str());
            out.push(Token::Open { tag, attrs, self_closing });
            proof {
                assert(tokens_view(out@) =~= tokens_view(before) + seq![out@.last()@]);
            }
            i = end + 1;
        } else {
            let k = scan_to(&cs, i, Stop::Char('<'));
            proof {
                lemma_scan(cs@, i as int, Stop::Char('<'));
            }
            let raw = slice_chars(&cs, i, k);
            let decoded = decode_entities(&raw);
            out.push(Token::Text(string_from_chars(&decoded)));
            proof {
                assert(tokens_view(out@) =~= tokens_view(before) + seq![out@.last()@]);
            }
            i = k;
        }
    }
    proof {
        assert(tokens_view(out@) =~= tokenized(html@));
    }
    out
}

// ---- tree building ----------------------------------------------------------

/// The balanced tree as a preorder walk: entering an element, leaving it,
/// or a text run.
pub enum TreeEvent {
    Enter(String, Vec<(String, String)>),
    Leave,
    Text(String),
}

/// The value of a [`TreeEvent`].
pub enum TreeEventV {
    Enter(Seq<char>, Seq<(Seq<char>, Seq<char>)>),
    Leave,
    Text(Seq<char>),
}

impl View for TreeEvent {
    type V = TreeEventV;

    open spec fn view(&self) -> TreeEventV {
        match self {
            TreeEvent::Enter(t, a) => TreeEventV::Enter(t@, pairs_view(a@)),
            TreeEvent::Leave => TreeEventV::Leave,
            TreeEvent::Text(t) => TreeEventV::Text(t@),
        }
    }
}

/// The values of a list of tree events.
pub open spec fn events_view(v: Seq<TreeEvent>) -> Seq<TreeEventV> {
    Seq::new(v.len(), |i: int| v[i]@)
}

/// The tree builder's state: the tags of the open elements, the events so
/// far, and whether the nesting limit was hit.
pub struct TreeState {
    pub open: Seq<Seq<char>>,
    pub out: Seq<TreeEventV>,
    pub failed: bool,
}

/// The index of the innermost open element named `t`, or -1.
pub open spec fn last_index_of(s: Seq<Seq<char>>, t: Seq<char>) -> int
    decreases s.len(),
{
    if s.len() == 0 {
        -1
    } else if s.last() == t {
        s.len() - 1
    } else {
        last_index_of(s.drop_last(), t)
    }
}

/// `k` leave events.
pub open spec fn leaves(k: nat) -> Seq<TreeEventV> {
    Seq::new(k, |i: int| TreeEventV::Leave)
}

/// One token's effect on the tree: text is a child of the innermost open
/// element; a self-closing (or void) tag is a childless element; an opening
/// tag opens an element unless `MAX_DEPTH` elements are open already, which
/// fails; a closing tag closes its innermost namesake and every element
/// opened inside it, and is ignored when none is open.
pub open spec fn tree_step(st: TreeState, t: TokenV) -> TreeState {
    if st.failed {
        st
    } else {
        match t {
            TokenV::Text(x) => TreeState { out: st.out.push(TreeEventV::Text(x)), ..st },
            TokenV::Open(tag, attrs, self_closing) => if self_closing {
                TreeState { out: st.out.push(TreeEventV::Enter(tag, attrs)).push(TreeEventV::Leave), ..st }
            } else if st.open.len() >= MAX_DEPTH {
                TreeState { failed: true, ..st }
            } else {
                TreeState { open: st.open.push(tag), out: st.out.push(TreeEventV::Enter(tag, attrs)), failed: false }
            },
            TokenV::Close(tag) => {
                let d = last_index_of(st.open, tag);
                if d >= 0 {
                    TreeState {
                        open: st.open.take(d),
                        out: st.out + leaves((st.open.len() - d) as nat),
                        failed: false,
                    }
                } else {
                    st
                }
            },
        }
    }
}

/// The builder's state after the tokens `ts`.
pub open spec fn tree_fold(ts: Seq<TokenV>) -> TreeState
    decreases ts.len(),
{
    if ts.len() == 0 {
        TreeState { open: Seq::empty(), out: Seq::empty(), failed: false }
    } else {
        tree_step(tree_fold(ts.drop_last()), ts.last())
    }
}

/// The balanced tree of the tokens `ts`, elements left open at the end
/// closed there; `None` when the nesting limit was hit.
pub open spec fn tree_events(ts: Seq<TokenV>) -> Option<Seq<TreeEventV>> {
    let st = tree_fold(ts);
    if st.failed {
        None
    } else {
        Some(st.out + leaves(st.open.len()))
    }
}

/// The message of the error for input nested too deeply.
pub open spec fn too_deep_message() -> Seq<char> {
    "element nesting exceeds "@ + decimal(MAX_DEPTH as nat)
}

fn too_deep() -> (e: DocError)
    ensures
        e matches DocError::HtmlParse(m) && m@ == too_deep_message(),
{
    let mut msg: Vec<char> = Vec::new();
    push_str(&mut msg, "element nesting exceeds ");
    let digits = decimal_chars(MAX_DEPTH as u64);
    push_chars(&mut msg, &digits);
    DocError::HtmlParse(string_from_chars(&msg))
}

fn clone_pairs(v: &Vec<(String, String)>) -> (r: Vec<(String, String)>)
    ensures
        pairs_view(r@) == pairs_view(v@),
{
    let mut out: Vec<(String, String)> = Vec::new();
    let mut i: usize = 0;
    while i < v.len()
        invariant
            i <= v.len(),
            out@.len() == i,
            pairs_view(out@) == pairs_view(v@.take(i as int)),
        decreases v.len() - i,
    {
        let a = v[i].0.clone();
        let b = v[i].1.clone();
        let ghost before = out@;
        out.push((a, b));
        proof {
            let t = v@.take(i as int + 1);
            assert forall|j: int| 0 <= j < i + 1 implies #[trigger] pairs_view(out@)[j] == pairs_view(t)[j] by {
                if j < i {
                    assert(pairs_view(before)[j] == pairs_view(v@.take(i as int))[j]);
                    assert(out@[j] == before[j]);
                    assert(t[j] == v@.take(i as int)[j]);
                } else {
                    assert(out@[j] == (a, b));
                    assert(t[j] == v@[i as int]);
                }
            }
            assert(pairs_view(out@) =~= pairs_view(t));
        }
        i = i + 1;
    }
    proof {
        assert(v@.take(v@.len() as int) =~= v@);
    }
    out
}

proof fn lemma_leaves_push(k: nat)
    ensures
        leaves(k).push(TreeEventV::Leave) == leaves(k + 1),
{
    assert(leaves(k).push(TreeEventV::Leave) =~= leaves(k + 1));
}

/// Once the nesting limit is hit, the builder stays failed.
proof fn lemma_fold_failed(ts: Seq<TokenV>, k: int)
    requires
        0 <= k <= ts.len(),
        tree_fold(ts.take(k)).failed,
    ensures
        tree_fold(ts).failed,
    decreases ts.len() - k,
{
    if k < ts.len() {
        assert(ts.take(k + 1).drop_last() =~= ts.take(k));
        lemma_fold_failed(ts, k + 1);
    } else {
        assert(ts.take(k) =~= ts);
    }
}

/// The index of the innermost open element named `tag`.
fn last_open_index(open: &Vec<String>, tag: &str) -> (r: Option<usize>)
    ensures
        match r {
            Some(d) => d < open@.len() && d as int == last_index_of(Seq::new(open@.len(), |k: int| open@[k]@), tag@),
            None => last_index_of(Seq::new(open@.len(), |k: int| open@[k]@), tag@) == -1,
        },
{
    let ghost opened = Seq::new(open@.len(), |k: int| open@[k]@);
    let mut d = open.len();
    proof {
        assert(opened.take(d as int) =~= opened);
    }
    while d > 0
        invariant
            d <= open@.len(),
            opened == Seq::new(open@.len(), |k: int| open@[k]@),
            last_index_of(opened, tag@) == last_index_of(opened.take(d as int), tag@),
        decreases d,
    {
        proof {
            assert(opened.take(d as int).drop_last() =~= opened.take(d - 1));
        }
        if str_eq(open[d - 1].as_str(), tag) {
            return Some(d - 1);
        }
        d = d - 1;
    }
    None
}

/// Balance the tokens into a tree (see [`tree_events`]).
pub(crate) fn build_tree(tokens: &Vec<Token>) -> (r: Result<Vec<TreeEvent>, DocError>)
    ensures
        match r {
            Ok(ev) => tree_events(tokens_view(tokens@)) == Some(events_view(ev@)),
            Err(e) => tree_events(tokens_view(tokens@)) is None && (e matches DocError::HtmlParse(m)
                && m@ == too_deep_message()),
        },
{
    let ghost ts = tokens_view(tokens@);
    let mut out: Vec<TreeEvent> = Vec::new();
    let mut open: Vec<String> = Vec::new();
    let mut i: usize = 0;
    while i < tokens.len()
        invariant
            i <= tokens@.len(),
            ts == tokens_view(tokens@),
            tree_fold(ts.take(i as int)).failed == false,
            tree_fold(ts.take(i as int)).out == events_view(out@),
            tree_fold(ts.take(i as int)).open == Seq::new(open@.len(), |k: int| open@[k]@),
        decreases tokens.len() - i,
    {
        let ghost st = tree_fold(ts.take(i as int));
        let ghost before = out@;
        proof {
            assert(ts.take(i as int + 1).drop_last() =~= ts.take(i as int));
            assert(ts.take(i as int + 1).last() == tokens@[i as int]@);
        }
        match &tokens[i] {
            Token::Text(x) => {
                out.push(TreeEvent::Text(x.clone()));
                proof {
                    assert(events_view(out@) =~= st.out.push(TreeEventV::Text(x@)));
                }
            },
            Token::Open { tag, attrs, self_closing } => {
                if *self_closing {
                    out.push(TreeEvent::Enter(tag.clone(), clone_pairs(attrs)));
                    out.push(TreeEvent::Leave);
                    proof {
                        assert(events_view(out@) =~= st.out.push(TreeEventV::Enter(tag@, pairs_view(attrs@))).push(
                            TreeEventV::Leave,
                        ));
                    }
                } else if open.len() >= MAX_DEPTH {
                    proof {
                        lemma_fold_failed(ts, i as int + 1);
                    }
                    return Err(too_deep());
                } else {
                    open.push(tag.clone());
                    out.push(TreeEvent::Enter(tag.clone(), clone_pairs(attrs)));
                    proof {
                        assert(events_view(out@) =~= st.out.push(TreeEventV::Enter(tag@, pairs_view(attrs@))));
                        assert(Seq::new(open@.len(), |k: int| open@[k]@) =~= st.open.push(tag@));
                    }
                }
            },
            Token::Close(tag) => {
                let ghost opened = st.open;
                if let Some(depth) = last_open_index(&open, tag.as_str()) {
                    while open.len() > depth
                        invariant
                            depth <= open@.len() <= opened.len(),
                            Seq::new(open@.len(), |k: int| open@[k]@) == opened.take(open@.len() as int),
                            events_view(out@) == st.out + leaves((opened.len() - open@.len()) as nat),
                        decreases open.len(),
                    {
                        let ghost len0 = open@.len();
                        let ghost ev0 = out@;
                        open.pop();
                        out.push(TreeEvent::Leave);
                        proof {
                            assert(Seq::new(open@.len(), |k: int| open@[k]@) =~= opened.take(open@.len() as int));
                            lemma_leaves_push((opened.len() - len0) as nat);
                            assert(events_view(out@) =~= events_view(ev0).push(TreeEventV::Leave));
                        }
                    }
                }
            },
        }
        i = i + 1;
    }
    let ghost st = tree_fold(ts.take(i as int));
    let ghost before = out@;
    let ghost opened = st.open;
    while open.len() > 0
        invariant
            open@.len() <= opened.len(),
            Seq::new(open@.len(), |k: int| open@[k]@) == opened.take(open@.len() as int),
            events_view(out@) == st.out + leaves((opened.len() - open@.len()) as nat),
        decreases open.len(),
    {
        let ghost len0 = open@.len();
        let ghost ev0 = out@;
        open.pop();
        out.push(TreeEvent::Leave);
        proof {
            assert(Seq::new(open@.len(), |k: int| open@[k]@) =~= opened.take(open@.len() as int));
            lemma_leaves_push((opened.len() - len0) as nat);
            assert(events_view(out@) =~= events_view(ev0).push(TreeEventV::Leave));
        }
    }
    proof {
        assert(ts.take(tokens@.len() as int) =~= ts);
    }
    Ok(out)
}

// ---- conversion to nodes ----------------------------------------------------

/// Whether `n` is a text node holding only whitespace.
pub open spec fn ws_text(n: Node) -> bool {
    n.spec_text() matches Some(t) && forall|i: int| 0 <= i < t.len() ==> unicode_whitespace(#[trigger] t[i])
}

/// `kids` without its whitespace-only text nodes.
pub open spec fn drop_ws(kids: Seq<Node>) -> Seq<Node>
    decreases kids.len(),
{
    if kids.len() == 0 {
        kids
    } else if ws_text(kids.last()) {
        drop_ws(kids.drop_last())
    } else {
        drop_ws(kids.drop_last()).push(kids.last())
    }
}

/// Whether `n` is a text node holding only whitespace.
fn is_ws_text(n: &Node) -> (r: bool)
    ensures
        r == ws_text(*n),
{
    match n.text() {
        None => false,
        Some(t) => {
            let cs = crate::strutil::chars_of(t);
            let mut i: usize = 0;
            while i < cs.len()
                invariant
                    i <= cs@.len(),
                    cs@ == t@,
                    n.spec_text() == Some(t@),
                    forall|j: int| 0 <= j < i ==> unicode_whitespace(#[trigger] cs@[j]),
                decreases cs.len() - i,
            {
                if !char_is_whitespace(cs[i]) {
                    proof {
                        assert(cs@[i as int] == t@[i as int]);
                        assert(!unicode_whitespace(t@[i as int]));
                        let tv = n.spec_text()->0;
                        assert(tv == t@);
                        assert(!(forall|j: int| 0 <= j < tv.len() ==> unicode_whitespace(#[trigger] tv[j])));
                    }
                    return false;
                }
                i = i + 1;
            }
            true
        },
    }
}

/// Whether `rule` matches an element with the (lowercased) tag `tag`,
/// ignoring ASCII case.
fn rule_matches(rule: &ParseRule, tag: &str) -> (r: bool)
    ensures
        r == (ascii_lower_seq(rule.tag@) == ascii_lower_seq(tag@)),
{
    let a = lower_chars(&crate::strutil::chars_of(rule.tag.as_str()));
    let b = lower_chars(&crate::strutil::chars_of(tag));
    str_eq(string_from_chars(&a).as_str(), string_from_chars(&b).as_str())
}

/// The value of the last of the first `n` entries keyed `k`, if any.
pub open spec fn last_entry(entries: Seq<(Seq<char>, AttrValueV)>, k: Seq<char>, n: int) -> Option<AttrValueV>
    decreases n,
{
    if n <= 0 {
        None
    } else if entries[n - 1].0 == k {
        Some(entries[n - 1].1)
    } else {
        last_entry(entries, k, n - 1)
    }
}

/// The attribute `k` that `rule` gives `el` after its fixed attributes and
/// the first `n` copy pairs: the last of those pairs that targets `k` and
/// whose HTML attribute `el` carries, as a string; else the last fixed
/// attribute keyed `k`.
pub open spec fn copied_attr(rule: ParseRule, el: HtmlElement, k: Seq<char>, n: int) -> Option<AttrValueV>
    decreases n,
{
    if n <= 0 {
        last_entry(rule.attrs@, k, rule.attrs@.len() as int)
    } else if rule.copy@[n - 1].1@ == k && pairs_lookup(el.attrs@, rule.copy@[n - 1].0@) is Some {
        Some(AttrValueV::String(pairs_lookup(el.attrs@, rule.copy@[n - 1].0@).unwrap()))
    } else {
        copied_attr(rule, el, k, n - 1)
    }
}

/// The attribute `k` that `rule` gives `el`.
pub open spec fn rule_attr(rule: ParseRule, el: HtmlElement, k: Seq<char>) -> Option<AttrValueV> {
    copied_attr(rule, el, k, rule.copy@.len() as int)
}

/// The attributes `rule` gives an element: its fixed attributes, then each
/// copied attribute the element carries, as a string.
fn rule_attrs(rule: &ParseRule, el: &HtmlElement) -> (r: Attrs)
    ensures
        r.wf(),
        forall|k: Seq<char>| #[trigger] r.spec_get(k) == rule_attr(*rule, *el, k),
{
    let mut a = Attrs::new();
    let mut i: usize = 0;
    while i < rule.attrs.len()
        invariant
            a.wf(),
            i <= rule.attrs@.len(),
            forall|k: Seq<char>| #[trigger] a.spec_get(k) == last_entry(rule.attrs@, k, i as int),
        decreases rule.attrs@.len() - i,
    {
        a.insert(rule.attrs.key_at(i).to_string(), rule.attrs.value_at(i).clone());
        i = i + 1;
    }
    let mut k: usize = 0;
    while k < rule.copy.len()
        invariant
            a.wf(),
            k <= rule.copy@.len(),
            forall|key: Seq<char>| #[trigger] a.spec_get(key) == copied_attr(*rule, *el, key, k as int),
        decreases rule.copy@.len() - k,
    {
        match el.attr(rule.copy[k].0.as_str()) {
            Some(v) => {
                a.insert(rule.copy[k].1.clone(), AttrValue::from_str(v));
            },
            None => {},
        }
        k = k + 1;
    }
    a
}

/// Whether `rule` matches the element `el` (tags compared ignoring ASCII
/// case).
pub open spec fn rule_fits(rule: ParseRule, el: HtmlElement) -> bool {
    ascii_lower_seq(rule.tag@) == ascii_lower_seq(el.tag@)
}

/// The index of the first of `rules` from `i` on that matches `el`, or the
/// number of rules.
pub open spec fn first_fit(rules: Seq<ParseRule>, el: HtmlElement, i: int) -> int
    decreases rules.len() - i,
{
    if i < 0 || i >= rules.len() {
        rules.len() as int
    } else if rule_fits(rules[i], el) {
        i
    } else {
        first_fit(rules, el, i + 1)
    }
}

/// Whether `a` holds, for every key, what `rule` gives `el`.
pub open spec fn attrs_of_rule(a: Attrs, rule: ParseRule, el: HtmlElement) -> bool {
    forall|k: Seq<char>| #[trigger] a.spec_get(k) == rule_attr(rule, el, k)
}

/// The first rule of `rules` that matches `el`, with the attributes it gives.
fn first_match(rules: &Vec<ParseRule>, el: &HtmlElement) -> (r: Option<Attrs>)
    ensures
        r matches Some(a) ==> a.wf(),
        match r {
            Some(a) => first_fit(rules@, *el, 0) < rules@.len() && attrs_of_rule(a, rules@[first_fit(rules@, *el, 0)], *el),
            None => first_fit(rules@, *el, 0) == rules@.len(),
        },
{
    let mut i: usize = 0;
    while i < rules.len()
        invariant
            i <= rules@.len(),
            first_fit(rules@, *el, 0) == first_fit(rules@, *el, i as int),
        decreases rules.len() - i,
    {
        if rule_matches(&rules[i], el.tag.as_str()) {
            return Some(rule_attrs(&rules[i], el));
        }
        i = i + 1;
    }
    None
}

impl Schema {
    /// The mark the first mark type (in schema order) with a matching parse
    /// rule gives `el`, its attributes completed with declared defaults.
    fn match_mark(&self, el: &HtmlElement) -> (r: Option<Mark>)
        ensures
            match r {
                Some(m) => exists|i: int| #![trigger self.spec_mark_types()[i]]
                    0 <= i < self.spec_mark_types().len()
                    && m.mark_type_spec() == self.spec_mark_types()[i]
                    && (forall|j: int| 0 <= j < i ==> first_fit((#[trigger] self.spec_mark_types()[j]).spec_decl().parse_dom@, *el, 0)
                        == self.spec_mark_types()[j].spec_decl().parse_dom@.len())
                    && first_fit(self.spec_mark_types()[i].spec_decl().parse_dom@, *el, 0) < self.spec_mark_types()[i].spec_decl().parse_dom@.len()
                    && exists|a: Attrs| #![trigger a.spec_get(seq![])]
                        attrs_of_rule(a, self.spec_mark_types()[i].spec_decl().parse_dom@[first_fit(self.spec_mark_types()[i].spec_decl().parse_dom@, *el, 0)], *el)
                        && forall|k: Seq<char>| #[trigger] attrs_lookup(m.spec_attrs(), k) == filled_attr(self.spec_mark_types()[i].spec_decl().attrs@, a, k),
                None => forall|j: int| 0 <= j < self.spec_mark_types().len() ==> first_fit((#[trigger] self.spec_mark_types()[j]).spec_decl().parse_dom@, *el, 0)
                    == self.spec_mark_types()[j].spec_decl().parse_dom@.len(),
            },
    {
        let types = self.mark_types();
        let mut i: usize = 0;
        while i < types.len()
            invariant
                i <= types@.len(),
                types@ == self.spec_mark_types(),
                forall|j: int| 0 <= j < i ==> first_fit((#[trigger] self.spec_mark_types()[j]).spec_decl().parse_dom@, *el, 0)
                    == self.spec_mark_types()[j].spec_decl().parse_dom@.len(),
            decreases types.len() - i,
        {
            let mt = &types[i];
            match first_match(&mt.spec().parse_dom, el) {
                Some(a) => {
                    let ghost given = a;
                    let filled = Schema::fill_attrs(&mt.spec().attrs, a);
                    let m = mt.create(filled);
                    proof {
                        assert(given.spec_get(seq![]) == given.spec_get(seq![]));
                        assert forall|k: Seq<char>| #[trigger] attrs_lookup(m.spec_attrs(), k) == filled_attr(self.spec_mark_types()[i as int].spec_decl().attrs@, given, k) by {
                            assert(filled.spec_get(k) == attrs_lookup(m.spec_attrs(), k));
                        }
                    }
                    return Some(m);
                },
                None => {},
            }
            i = i + 1;
        }
        None
    }

    /// The name of the first node type (in schema order) with a matching
    /// parse rule for `el`, and the attributes the rule gives.
    fn match_node(&self, el: &HtmlElement) -> (r: Option<(String, Attrs)>)
        ensures
            r matches Some(p) ==> p.1.wf(),
            match r {
                Some(p) => exists|i: int| #![trigger self.spec_node_types()[i]]
                    0 <= i < self.spec_node_types().len()
                    && p.0@ == self.spec_node_types()[i].spec_name()
                    && (forall|j: int| 0 <= j < i ==> first_fit((#[trigger] self.spec_node_types()[j]).spec_decl().parse_dom@, *el, 0)
                        == self.spec_node_types()[j].spec_decl().parse_dom@.len())
                    && first_fit(self.spec_node_types()[i].spec_decl().parse_dom@, *el, 0) < self.spec_node_types()[i].spec_decl().parse_dom@.len()
                    && attrs_of_rule(p.1, self.spec_node_types()[i].spec_decl().parse_dom@[first_fit(self.spec_node_types()[i].spec_decl().parse_dom@, *el, 0)], *el),
                None => forall|j: int| 0 <= j < self.spec_node_types().len() ==> first_fit((#[trigger] self.spec_node_types()[j]).spec_decl().parse_dom@, *el, 0)
                    == self.spec_node_types()[j].spec_decl().parse_dom@.len(),
            },
    {
        let types = self.node_types();
        let mut i: usize = 0;
        while i < types.len()
            invariant
                i <= types@.len(),
                types@ == self.spec_node_types(),
                forall|j: int| 0 <= j < i ==> first_fit((#[trigger] self.spec_node_types()[j]).spec_decl().parse_dom@, *el, 0)
                    == self.spec_node_types()[j].spec_decl().parse_dom@.len(),
            decreases types.len() - i,
        {
            let nt = &types[i];
            match first_match(&nt.spec().parse_dom, el) {
                Some(a) => {
                    return Some((nt.name().to_string(), a));
                },
                None => {},
            }
            i = i + 1;
        }
        None
    }

    /// Build a valid node, retrying once without whitespace-only text
    /// children when the first attempt violates the content expression
    /// (insignificant whitespace between tags).
    fn build_node(&self, name: &str, attrs: Attrs, kids: Vec<Node>) -> (r: Result<Node, DocError>)
        requires
            attrs.wf(),
            forall|i: int| 0 <= i < kids@.len() ==> valid_tree(*self, #[trigger] kids@[i]),
        ensures
            r matches Ok(n) ==> valid_tree(*self, n) && n.spec_type().spec_name() == name@,
            r is Ok <==> nodes_size(kids@) + 2 <= usize::MAX && self.spec_node_names().contains(name@)
                && (self.spec_content_valid(self.spec_id_of(name@), kids@)
                    || self.spec_content_valid(self.spec_id_of(name@), drop_ws(kids@))),
    {
        let first = self.node_checked(name, attrs.clone(), clone_nodes(&kids), Vec::new());
        match first {
            Ok(n) => Ok(n),
            Err(DocError::InvalidContent { .. }) => {
                let mut filtered: Vec<Node> = Vec::new();
                let mut i: usize = 0;
                while i < kids.len()
                    invariant
                        i <= kids@.len(),
                        forall|j: int| 0 <= j < kids@.len() ==> valid_tree(*self, #[trigger] kids@[j]),
                        forall|j: int| 0 <= j < filtered@.len() ==> valid_tree(*self, #[trigger] filtered@[j]),
                        nodes_size(filtered@) <= nodes_size(kids@.take(i as int)),
                        filtered@ == drop_ws(kids@.take(i as int)),
                    decreases kids.len() - i,
                {
                    proof {
                        assert(kids@.take(i as int + 1).drop_last() =~= kids@.take(i as int));
                    }
                    if !is_ws_text(&kids[i]) {
                        let ghost before = filtered@;
                        filtered.push(kids[i].clone());
                        proof {
                            assert(filtered@.drop_last() =~= before);
                        }
                    }
                    i = i + 1;
                }
                proof {
                    assert(kids@.take(kids@.len() as int) =~= kids@);
                }
                let second = self.node_checked(name, attrs, filtered, Vec::new());
                second
            },
            Err(e) => Err(e),
        }
    }

    /// Convert the events from `i` up to the `Leave` that closes the
    /// enclosing element (or the end of input), under `marks`, at nesting
    /// `depth`; returns the nodes and the index past that `Leave`. Mark
    /// elements add their mark for their content, node elements start with
    /// no marks, and other elements are unwrapped.
    fn convert(&self, ev: &Vec<TreeEvent>, i: usize, marks: &Vec<Mark>, depth: usize) -> (r: Result<(Vec<Node>, usize), DocError>)
        requires
            i <= ev@.len(),
        ensures
            r matches Ok(p) ==> i <= p.1 <= ev@.len()
                && forall|k: int| 0 <= k < p.0@.len() ==> valid_tree(*self, #[trigger] p.0@[k]),
        decreases ev@.len() - i,
    {
        if depth > MAX_DEPTH {
            return Err(too_deep());
        }
        let mut out: Vec<Node> = Vec::new();
        let mut k = i;
        while k < ev.len()
            invariant
                i <= k <= ev@.len(),
                depth <= MAX_DEPTH,
                forall|m: int| 0 <= m < out@.len() ==> valid_tree(*self, #[trigger] out@[m]),
            decreases ev@.len() - k,
        {
            match &ev[k] {
                TreeEvent::Leave => {
                    return Ok((out, k + 1));
                },
                TreeEvent::Text(t) => {
                    if crate::strutil::char_count(t.as_str()) > 0 {
                        let n = self.text(t.as_str(), clone_marks(marks.as_slice()))?;
                        out.push(n);
                    }
                    k = k + 1;
                },
                TreeEvent::Enter(tag, attrs) => {
                    let el = HtmlElement { tag: tag.clone(), attrs: clone_pairs(attrs) };
                    let (kids, next) = match self.match_mark(&el) {
                        Some(m) => {
                            let inner = m.add_to_set(marks.as_slice());
                            let (kids, next) = self.convert(ev, k + 1, &inner, depth + 1)?;
                            let mut j: usize = 0;
                            while j < kids.len()
                                invariant
                                    j <= kids@.len(),
                                    forall|m: int| 0 <= m < kids@.len() ==> valid_tree(*self, #[trigger] kids@[m]),
                                    forall|m: int| 0 <= m < out@.len() ==> valid_tree(*self, #[trigger] out@[m]),
                                decreases kids.len() - j,
                            {
                                out.push(kids[j].clone());
                                j = j + 1;
                            }
                            (Vec::new(), next)
                        },
                        None => match self.match_node(&el) {
                            Some((name, node_attrs)) => {
                                let (kids, next) = self.convert(ev, k + 1, &Vec::new(), depth + 1)?;
                                let n = self.build_node(name.as_str(), node_attrs, kids)?;
                                out.push(n);
                                (Vec::new(), next)
                            },
                            None => {
                                let (kids, next) = self.convert(ev, k + 1, marks, depth + 1)?;
                                (kids, next)
                            },
                        },
                    };
                    let mut j: usize = 0;
                    while j < kids.len()
                        invariant
                            j <= kids@.len(),
                            forall|m: int| 0 <= m < kids@.len() ==> valid_tree(*self, #[trigger] kids@[m]),
                            forall|m: int| 0 <= m < out@.len() ==> valid_tree(*self, #[trigger] out@[m]),
                        decreases kids.len() - j,
                    {
                        out.push(kids[j].clone());
                        j = j + 1;
                    }
                    k = next;
                },
            }
        }
        Ok((out, k))
    }

    /// Parse an HTML string into a document validated against this schema.
    ///
    /// Tags some node or mark spec declares (through a [`ParseRule`]) become
    /// nodes or marks; unknown elements are unwrapped. The result is the
    /// single parsed node when that is of the top type, else the parsed
    /// nodes wrapped in the top node, and every node of it satisfies the
    /// schema. Input nested more than [`MAX_DEPTH`] deep yields
    /// [`DocError::HtmlParse`].
    pub fn parse_html(&self, html: &str) -> (r: Result<Node, DocError>)
        requires
            html@.len() + 2 <= usize::MAX,
        ensures
            r matches Ok(doc) ==> valid_tree(*self, doc)
                && doc.spec_type().spec_name() == self.spec_top().spec_name(),
            tree_events(tokenized(html@)) is None ==> (r matches Err(DocError::HtmlParse(m))
                && m@ == too_deep_message()),
    {
        let tokens = tokenize(html);
        let events = build_tree(&tokens)?;
        let (children, _) = self.convert(&events, 0, &Vec::new(), 0)?;
        let top = self.top_node_type().name();
        if children.len() == 1 && str_eq(children[0].node_type().name(), top) {
            return Ok(children[0].clone());
        }
        self.build_node(top, Attrs::new(), children)
    }
}

fn clone_nodes(v: &Vec<Node>) -> (r: Vec<Node>)
    ensures
        r@ == v@,
{
    let mut out: Vec<Node> = Vec::new();
    let mut i: usize = 0;
    while i < v.len()
        invariant
            i <= v@.len(),
            out@ == v@.take(i as int),
        decreases v.len() - i,
    {
        out.push(v[i].clone());
        i = i + 1;
        proof {
            assert(out@ =~= v@.take(i as int));
        }
    }
    proof {
        assert(v@.take(v@.len() as int) =~= v@);
    }
    out
}

// ---- laws of escaping --------------------------------------------------------

/// Escaping a character sequence one character at a time, from the front.
proof fn lemma_escape_front(c: char, t: Seq<char>, attr: bool)
    ensures
        attr ==> escape_attr(seq![c] + t) == escape_attr_char(c) + escape_attr(t),
        !attr ==> escape_text(seq![c] + t) == escape_text_char(c) + escape_text(t),
    decreases t.len(),
{
    let s = seq![c] + t;
    if t.len() == 0 {
        assert(s.drop_last() =~= Seq::<char>::empty());
        assert(escape_attr(Seq::<char>::empty()) =~= Seq::<char>::empty());
        assert(escape_text(Seq::<char>::empty()) =~= Seq::<char>::empty());
        assert(escape_attr(s) =~= escape_attr_char(c) + escape_attr(t));
        assert(escape_text(s) =~= escape_text_char(c) + escape_text(t));
    } else {
        lemma_escape_front(c, t.drop_last(), attr);
        assert(s.drop_last() =~= seq![c] + t.drop_last());
        assert(s.last() == t.last());
        if attr {
            assert(escape_attr(s) == escape_attr(s.drop_last()) + escape_attr_char(s.last()));
            assert(escape_attr(t) == escape_attr(t.drop_last()) + escape_attr_char(t.last()));
            assert(escape_attr(s) =~= escape_attr_char(c) + escape_attr(t));
        } else {
            assert(escape_text(s) == escape_text(s.drop_last()) + escape_text_char(s.last()));
            assert(escape_text(t) == escape_text(t.drop_last()) + escape_text_char(t.last()));
            assert(escape_text(s) =~= escape_text_char(c) + escape_text(t));
        }
    }
}

/// Escaped text holds no `<` or `>`: text can never open or close an
/// element.
pub proof fn law_escaped_text_has_no_markup(s: Seq<char>)
    ensures
        forall|i: int| 0 <= i < escape_text(s).len() ==> #[trigger] escape_text(s)[i] != '<' && escape_text(s)[i] != '>',
    decreases s.len(),
{
    reveal_strlit("&amp;");
    reveal_strlit("&lt;");
    reveal_strlit("&gt;");
    if s.len() > 0 {
        law_escaped_text_has_no_markup(s.drop_last());
        let a = escape_text(s.drop_last());
        let b = escape_text_char(s.last());
        assert forall|i: int| 0 <= i < escape_text(s).len() implies #[trigger] escape_text(s)[i] != '<' && escape_text(s)[i] != '>' by {
            if i < a.len() {
                assert(escape_text(s)[i] == a[i]);
            } else {
                assert(escape_text(s)[i] == b[i - a.len()]);
            }
        }
    }
}

/// An escaped attribute value holds no `"`, `<` or `>`: it can neither end
/// its attribute nor open an element.
pub proof fn law_escaped_attr_is_inert(s: Seq<char>)
    ensures
        forall|i: int| 0 <= i < escape_attr(s).len() ==> #[trigger] escape_attr(s)[i] != '"' && escape_attr(s)[i] != '<'
            && escape_attr(s)[i] != '>',
    decreases s.len(),
{
    reveal_strlit("&amp;");
    reveal_strlit("&lt;");
    reveal_strlit("&gt;");
    reveal_strlit("&quot;");
    if s.len() > 0 {
        law_escaped_attr_is_inert(s.drop_last());
        let a = escape_attr(s.drop_last());
        let b = escape_attr_char(s.last());
        assert forall|i: int| 0 <= i < escape_attr(s).len() implies #[trigger] escape_attr(s)[i] != '"' && escape_attr(s)[i] != '<'
            && escape_attr(s)[i] != '>' by {
            if i < a.len() {
                assert(escape_attr(s)[i] == a[i]);
            } else {
                assert(escape_attr(s)[i] == b[i - a.len()]);
            }
        }
    }
}

/// Scanning behind a prefix.
proof fn lemma_scan_shift(p: Seq<char>, q: Seq<char>, k: int, stop: Stop)
    requires
        0 <= k,
    ensures
        scan(p + q, p.len() + k, stop) == p.len() + scan(q, k, stop),
    decreases q.len() - k,
{
    if k < q.len() {
        assert((p + q)[p.len() + k] == q[k]);
        if !stops(stop, q[k]) {
            lemma_scan_shift(p, q, k + 1, stop);
        }
    }
}

/// Decoding behind a prefix decodes the rest alone.
proof fn lemma_decode_shift(p: Seq<char>, q: Seq<char>, i: int)
    requires
        0 <= i,
    ensures
        decode_from(p + q, p.len() + i) == decode_from(q, i),
    decreases q.len() - i,
{
    let x = p + q;
    let j = p.len() + i;
    if i < q.len() {
        assert(x[j] == q[i]);
        lemma_scan_shift(p, q, i + 1, Stop::Char(';'));
        lemma_scan(q, i + 1, Stop::Char(';'));
        let semi = scan(q, i + 1, Stop::Char(';'));
        if semi < q.len() {
            assert(x.subrange(j + 1, p.len() + semi) =~= q.subrange(i + 1, semi));
        }
        if q[i] == '&' && entity_at(q, i) is Some {
            let (c, next) = entity_at(q, i)->0;
            lemma_decode_shift(p, q, next);
        } else {
            lemma_decode_shift(p, q, i + 1);
        }
    }
}

/// The entity an escape writes for a special character reads back as it.
proof fn lemma_decode_entity(e: Seq<char>, c: char, t: Seq<char>)
    requires
        (e == "&amp;"@ && c == '&') || (e == "&lt;"@ && c == '<') || (e == "&gt;"@ && c == '>') || (e == "&quot;"@
            && c == '"'),
    ensures
        decode(e + t) == seq![c] + decode(t),
{
    reveal_strlit("&amp;");
    reveal_strlit("&lt;");
    reveal_strlit("&gt;");
    reveal_strlit("&quot;");
    reveal_strlit("amp");
    reveal_strlit("lt");
    reveal_strlit("gt");
    reveal_strlit("quot");
    let x = e + t;
    let n = e.len() as int;
    assert(x[0] == '&');
    assert forall|m: int| 1 <= m < n - 1 implies !stops(Stop::Char(';'), #[trigger] x[m]) by {
        assert(x[m] == e[m]);
    }
    assert(x[n - 1] == ';');
    lemma_scan_range(x, 1, n - 1, Stop::Char(';'));
    let ent = x.subrange(1, n - 1);
    assert(ent =~= e.subrange(1, n - 1));
    assert(scan(x, 1, Stop::Char(';')) == n - 1);
    if c == '&' {
        assert(ent =~= "amp"@);
        assert(entity_char(ent) == Some('&'));
    } else if c == '<' {
        assert(ent =~= "lt"@);
        assert(ent != "amp"@);
        assert(entity_char(ent) == Some('<'));
    } else if c == '>' {
        assert(ent =~= "gt"@);
        assert(ent != "amp"@);
        assert(ent[0] != "lt"@[0]);
        assert(ent != "lt"@);
        assert(entity_char(ent) == Some('>'));
    } else {
        assert(ent =~= "quot"@);
        assert(ent != "amp"@);
        assert(ent != "lt"@);
        assert(ent != "gt"@);
        assert(entity_char(ent) == Some('"'));
    }
    assert(entity_at(x, 0) == Some((c, n)));
    lemma_decode_shift(e, t, 0);
}

/// A scan over a run with no stop before `e`, which stops, ends at `e`.
proof fn lemma_scan_range(s: Seq<char>, j: int, e: int, stop: Stop)
    requires
        0 <= j <= e < s.len(),
        stops(stop, s[e]),
        forall|m: int| j <= m < e ==> !stops(stop, #[trigger] s[m]),
    ensures
        scan(s, j, stop) == e,
    decreases e - j,
{
    if j < e {
        lemma_scan_range(s, j + 1, e, stop);
    }
}

/// Decoding undoes escaping: the text a parser reads back from escaped
/// text (or an escaped attribute value) is the original.
pub proof fn law_decode_escaped(s: Seq<char>)
    ensures
        decode(escape_text(s)) == s,
        decode(escape_attr(s)) == s,
    decreases s.len(),
{
    if s.len() > 0 {
        let c = s[0];
        let t = s.drop_first();
        assert(s =~= seq![c] + t);
        law_decode_escaped(t);
        lemma_escape_front(c, t, true);
        lemma_escape_front(c, t, false);
        if c == '&' || c == '<' || c == '>' {
            lemma_decode_entity(escape_text_char(c), c, escape_text(t));
            lemma_decode_entity(escape_attr_char(c), c, escape_attr(t));
        } else if c == '"' {
            lemma_decode_single(c, escape_text(t));
            lemma_decode_entity(escape_attr_char(c), c, escape_attr(t));
        } else {
            lemma_decode_single(c, escape_text(t));
            lemma_decode_single(c, escape_attr(t));
        }
    } else {
        assert(escape_text(s) =~= Seq::<char>::empty());
        assert(escape_attr(s) =~= Seq::<char>::empty());
    }
}

/// A character other than `&` decodes as itself.
proof fn lemma_decode_single(c: char, t: Seq<char>)
    requires
        c != '&',
    ensures
        decode(seq![c] + t) == seq![c] + decode(t),
{
    lemma_decode_shift(seq![c], t, 0);
    assert((seq![c] + t)[0] == c);
}

} // verus!
