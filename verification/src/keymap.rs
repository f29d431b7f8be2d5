//! Keymaps: bind key combinations such as `"Mod-a"` or `"Shift-Enter"` to
//! [`Command`]s. `Mod` is Cmd (Meta) on macOS and Ctrl elsewhere.

use vstd::prelude::*;

use crate::commands::{chain, Command, Outcome, outcome_ok};
use crate::state::{EditorState, Transaction};
use crate::strutil::{chars_of, push_str, push_chars, str_eq, string_from_chars};

verus! {

/// A key press: the key's name and the modifiers held.
#[derive(Debug, Clone)]
pub struct KeyPress {
    /// The key name (`"a"`, `"Enter"`, `">"` …).
    pub key: String,
    /// Ctrl held.
    pub ctrl: bool,
    /// Alt (Option) held.
    pub alt: bool,
    /// Shift held.
    pub shift: bool,
    /// Meta (Cmd) held.
    pub meta: bool,
}

/// The canonical name of a key combination: `Alt-`, `Ctrl-`, `Meta-`,
/// `Shift-` (for the modifiers held, in that order), then the key.
pub open spec fn canonical_name(key: Seq<char>, ctrl: bool, alt: bool, shift: bool, meta: bool) -> Seq<char> {
    (if alt { "Alt-"@ } else { Seq::empty() })
        + (if ctrl { "Ctrl-"@ } else { Seq::empty() })
        + (if meta { "Meta-"@ } else { Seq::empty() })
        + (if shift { "Shift-"@ } else { Seq::empty() })
        + key
}

impl KeyPress {
    /// The press's canonical name.
    pub open spec fn spec_canonical(self) -> Seq<char> {
        canonical_name(self.key@, self.ctrl, self.alt, self.shift, self.meta)
    }

    /// A press of `name` with no modifiers.
    pub fn key(name: &str) -> (r: KeyPress)
        ensures
            r.key@ == name@,
            !r.ctrl && !r.alt && !r.shift && !r.meta,
    {
        KeyPress { key: name.to_string(), ctrl: false, alt: false, shift: false, meta: false }
    }

    /// The same press with Ctrl held.
    pub fn ctrl(self) -> (r: KeyPress)
        ensures
            r.key == self.key && r.ctrl && r.alt == self.alt && r.shift == self.shift && r.meta == self.meta,
    {
        KeyPress { ctrl: true, ..self }
    }

    /// The same press with Alt held.
    pub fn alt(self) -> (r: KeyPress)
        ensures
            r.key == self.key && r.ctrl == self.ctrl && r.alt && r.shift == self.shift && r.meta == self.meta,
    {
        KeyPress { alt: true, ..self }
    }

    /// The same press with Shift held.
    pub fn shift(self) -> (r: KeyPress)
        ensures
            r.key == self.key && r.ctrl == self.ctrl && r.alt == self.alt && r.shift && r.meta == self.meta,
    {
        KeyPress { shift: true, ..self }
    }

    /// The same press with Meta held.
    pub fn meta(self) -> (r: KeyPress)
        ensures
            r.key == self.key && r.ctrl == self.ctrl && r.alt == self.alt && r.shift == self.shift && r.meta,
    {
        KeyPress { meta: true, ..self }
    }

    /// The press's canonical name.
    fn canonical(&self) -> (r: String)
        ensures
            r@ == self.spec_canonical(),
    {
        canonical(self.key.as_str(), self.ctrl, self.alt, self.shift, self.meta)
    }
}

/// The canonical name of a key combination.
fn canonical(key: &str, ctrl: bool, alt: bool, shift: bool, meta: bool) -> (r: String)
    ensures
        r@ == canonical_name(key@, ctrl, alt, shift, meta),
{
    let mut s: Vec<char> = Vec::new();
    if alt {
        push_str(&mut s, "Alt-");
    }
    let ghost a = s@;
    if ctrl {
        push_str(&mut s, "Ctrl-");
    }
    let ghost b = s@;
    if meta {
        push_str(&mut s, "Meta-");
    }
    let ghost c = s@;
    if shift {
        push_str(&mut s, "Shift-");
    }
    let ghost d = s@;
    push_str(&mut s, key);
    proof {
        assert(a =~= (if alt { "Alt-"@ } else { Seq::empty() }));
        assert(b =~= a + (if ctrl { "Ctrl-"@ } else { Seq::empty() }));
        assert(c =~= b + (if meta { "Meta-"@ } else { Seq::empty() }));
        assert(d =~= c + (if shift { "Shift-"@ } else { Seq::empty() }));
        assert(s@ =~= canonical_name(key@, ctrl, alt, shift, meta));
    }
    string_from_chars(&s)
}

/// The `-`-separated pieces of `s` (empty pieces kept), given the piece
/// `cur` collected so far.
pub open spec fn dash_parts_from(s: Seq<char>, cur: Seq<char>) -> Seq<Seq<char>>
    decreases s.len(),
{
    if s.len() == 0 {
        seq![cur]
    } else if s[0] == '-' {
        seq![cur] + dash_parts_from(s.drop_first(), Seq::empty())
    } else {
        dash_parts_from(s.drop_first(), cur.push(s[0]))
    }
}

/// The `-`-separated pieces of `s`.
pub open spec fn dash_parts(s: Seq<char>) -> Seq<Seq<char>> {
    dash_parts_from(s, Seq::empty())
}

/// Whether `p` names a modifier.
pub open spec fn is_modifier(p: Seq<char>) -> bool {
    p == "Mod"@ || p == "Cmd"@ || p == "Meta"@ || p == "Ctrl"@ || p == "Control"@ || p == "Alt"@ || p == "Option"@
        || p == "Shift"@
}

/// Whether every piece of a binding but the last (the key) names a
/// modifier.
pub open spec fn binding_ok(s: Seq<char>) -> bool {
    let parts = dash_parts(s);
    forall|i: int| 0 <= i < parts.len() - 1 ==> is_modifier(#[trigger] parts[i])
}

/// The modifiers `(ctrl, alt, shift, meta)` the first `k` pieces of a
/// binding name on this platform (`Mod` is Meta on macOS, Ctrl elsewhere).
pub open spec fn mod_flags(parts: Seq<Seq<char>>, k: int, mac: bool) -> (bool, bool, bool, bool)
    decreases k,
{
    if k <= 0 {
        (false, false, false, false)
    } else {
        let (ctrl, alt, shift, meta) = mod_flags(parts, k - 1, mac);
        let p = parts[k - 1];
        (
            ctrl || p == "Ctrl"@ || p == "Control"@ || (p == "Mod"@ && !mac),
            alt || p == "Alt"@ || p == "Option"@,
            shift || p == "Shift"@,
            meta || p == "Cmd"@ || p == "Meta"@ || (p == "Mod"@ && mac),
        )
    }
}

/// The canonical name a binding stands for on this platform: its last
/// piece is the key, the pieces before it the modifiers.
pub open spec fn normalized(spec: Seq<char>, mac: bool) -> Seq<char> {
    let parts = dash_parts(spec);
    let (ctrl, alt, shift, meta) = mod_flags(parts, parts.len() - 1, mac);
    canonical_name(parts.last(), ctrl, alt, shift, meta)
}

/// The modifier names are distinct.
proof fn lemma_modifier_names()
    ensures
        "Mod"@ != "Cmd"@, "Mod"@ != "Meta"@, "Mod"@ != "Ctrl"@, "Mod"@ != "Control"@,
        "Mod"@ != "Alt"@, "Mod"@ != "Option"@, "Mod"@ != "Shift"@,
        "Cmd"@ != "Meta"@, "Cmd"@ != "Ctrl"@, "Cmd"@ != "Control"@, "Cmd"@ != "Alt"@,
        "Cmd"@ != "Option"@, "Cmd"@ != "Shift"@,
        "Meta"@ != "Ctrl"@, "Meta"@ != "Control"@, "Meta"@ != "Alt"@, "Meta"@ != "Option"@,
        "Meta"@ != "Shift"@,
        "Ctrl"@ != "Control"@, "Ctrl"@ != "Alt"@, "Ctrl"@ != "Option"@, "Ctrl"@ != "Shift"@,
        "Control"@ != "Alt"@, "Control"@ != "Option"@, "Control"@ != "Shift"@,
        "Alt"@ != "Option"@, "Alt"@ != "Shift"@,
        "Option"@ != "Shift"@,
{
    reveal_strlit("Mod");
    reveal_strlit("Cmd");
    reveal_strlit("Meta");
    reveal_strlit("Ctrl");
    reveal_strlit("Control");
    reveal_strlit("Alt");
    reveal_strlit("Option");
    reveal_strlit("Shift");
    assert("Mod"@.len() == 3 && "Cmd"@.len() == 3 && "Alt"@.len() == 3);
    assert("Meta"@.len() == 4 && "Ctrl"@.len() == 4);
    assert("Control"@.len() == 7 && "Option"@.len() == 6 && "Shift"@.len() == 5);
    assert("Mod"@[0] != "Cmd"@[0] && "Mod"@[0] != "Alt"@[0] && "Cmd"@[0] != "Alt"@[0]);
    assert("Meta"@[0] != "Ctrl"@[0]);
}

/// A text without `-` is one piece.
pub open spec fn dash_free(s: Seq<char>) -> bool {
    forall|i: int| 0 <= i < s.len() ==> s[i] != '-'
}

proof fn lemma_dash_free_parts(s: Seq<char>, cur: Seq<char>)
    requires
        dash_free(s),
    ensures
        dash_parts_from(s, cur) == seq![cur + s],
    decreases s.len(),
{
    if s.len() == 0 {
        assert(cur + s =~= cur);
    } else {
        assert(s[0] != '-');
        assert(dash_free(s.drop_first()));
        lemma_dash_free_parts(s.drop_first(), cur.push(s[0]));
        assert(cur.push(s[0]) + s.drop_first() =~= cur + s);
    }
}

proof fn lemma_dash_split(a: Seq<char>, b: Seq<char>, cur: Seq<char>)
    requires
        dash_free(a),
    ensures
        dash_parts_from(a + seq!['-'] + b, cur) == seq![cur + a] + dash_parts_from(b, Seq::empty()),
    decreases a.len(),
{
    let s = a + seq!['-'] + b;
    if a.len() == 0 {
        assert(s[0] == '-');
        assert(s.drop_first() =~= b);
        assert(cur + a =~= cur);
    } else {
        assert(s[0] == a[0] && a[0] != '-');
        assert(s.drop_first() =~= a.drop_first() + seq!['-'] + b);
        assert(dash_free(a.drop_first()));
        lemma_dash_split(a.drop_first(), b, cur.push(a[0]));
        assert(cur.push(a[0]) + a.drop_first() =~= cur + a);
    }
}

/// A plain key (no modifiers) is a valid binding and names itself.
proof fn lemma_plain_key(key: Seq<char>, mac: bool)
    requires
        dash_free(key),
    ensures
        binding_ok(key),
        normalized(key, mac) == key,
{
    lemma_dash_free_parts(key, Seq::empty());
    assert(Seq::<char>::empty() + key =~= key);
    let e = Seq::<char>::empty();
    assert(e + e + e + e + key =~= key);
}

/// `Mod` stands for Meta (Cmd) on macOS and for Ctrl elsewhere: the binding
/// `Mod-key` names the same combination as Meta-key on macOS and Ctrl-key on
/// other platforms.
pub proof fn law_mod_follows_platform(key: Seq<char>, mac: bool)
    requires
        dash_free(key),
    ensures
        binding_ok("Mod-"@ + key),
        normalized("Mod-"@ + key, mac) == canonical_name(key, !mac, false, false, mac),
{
    reveal_strlit("Mod-");
    reveal_strlit("Mod");
    lemma_modifier_names();
    let m = "Mod"@;
    assert("Mod-"@ =~= m + seq!['-']);
    assert(dash_free(m));
    lemma_dash_split(m, key, Seq::empty());
    lemma_dash_free_parts(key, Seq::empty());
    let parts = dash_parts("Mod-"@ + key);
    assert("Mod-"@ + key =~= m + seq!['-'] + key);
    assert(Seq::<char>::empty() + m =~= m);
    assert(Seq::<char>::empty() + key =~= key);
    assert(parts =~= seq![m, key]);
    assert(parts[0] == m);
    assert(mod_flags(parts, 0, mac) == (false, false, false, false));
    assert(mod_flags(parts, 1, mac) == (!mac, false, false, mac));
}

/// A binding of one modifier name `m` and a key splits into the two and
/// takes its flags from `m` alone.
proof fn lemma_one_modifier(m: Seq<char>, key: Seq<char>, mac: bool)
    requires
        dash_free(m),
        dash_free(key),
    ensures
        normalized(m + seq!['-'] + key, mac) == ({
            let f = mod_flags(seq![m, key], 1, mac);
            canonical_name(key, f.0, f.1, f.2, f.3)
        }),
{
    lemma_dash_split(m, key, Seq::empty());
    lemma_dash_free_parts(key, Seq::empty());
    assert(Seq::<char>::empty() + m =~= m);
    assert(Seq::<char>::empty() + key =~= key);
    let parts = dash_parts(m + seq!['-'] + key);
    assert(parts =~= seq![m, key]);
}

/// `Cmd` always names the Meta key, on every platform: `Cmd-key` is the
/// same combination as `Meta-key`.
pub proof fn law_cmd_is_meta(key: Seq<char>, mac: bool)
    requires
        dash_free(key),
    ensures
        normalized("Cmd-"@ + key, mac) == canonical_name(key, false, false, false, true),
        normalized("Meta-"@ + key, mac) == canonical_name(key, false, false, false, true),
{
    reveal_strlit("Cmd-");
    reveal_strlit("Meta-");
    reveal_strlit("Cmd");
    reveal_strlit("Meta");
    lemma_modifier_names();
    assert("Cmd-"@ =~= "Cmd"@ + seq!['-']);
    assert("Meta-"@ =~= "Meta"@ + seq!['-']);
    lemma_one_modifier("Cmd"@, key, mac);
    lemma_one_modifier("Meta"@, key, mac);
    assert("Cmd-"@ + key =~= "Cmd"@ + seq!['-'] + key);
    assert("Meta-"@ + key =~= "Meta"@ + seq!['-'] + key);
    assert(mod_flags(seq!["Cmd"@, key], 0, mac) == (false, false, false, false));
    assert(mod_flags(seq!["Meta"@, key], 0, mac) == (false, false, false, false));
}

/// `Ctrl` and `Control` always name the Control key, on every platform.
pub proof fn law_ctrl_is_control(key: Seq<char>, mac: bool)
    requires
        dash_free(key),
    ensures
        normalized("Ctrl-"@ + key, mac) == canonical_name(key, true, false, false, false),
        normalized("Control-"@ + key, mac) == canonical_name(key, true, false, false, false),
{
    reveal_strlit("Ctrl-");
    reveal_strlit("Control-");
    reveal_strlit("Ctrl");
    reveal_strlit("Control");
    lemma_modifier_names();
    assert("Ctrl-"@ =~= "Ctrl"@ + seq!['-']);
    assert("Control-"@ =~= "Control"@ + seq!['-']);
    lemma_one_modifier("Ctrl"@, key, mac);
    lemma_one_modifier("Control"@, key, mac);
    assert("Ctrl-"@ + key =~= "Ctrl"@ + seq!['-'] + key);
    assert("Control-"@ + key =~= "Control"@ + seq!['-'] + key);
    assert(mod_flags(seq!["Ctrl"@, key], 0, mac) == (false, false, false, false));
    assert(mod_flags(seq!["Control"@, key], 0, mac) == (false, false, false, false));
}

/// `Alt` and `Option` always name the Alt key, and `Shift` the Shift key.
pub proof fn law_alt_and_shift(key: Seq<char>, mac: bool)
    requires
        dash_free(key),
    ensures
        normalized("Alt-"@ + key, mac) == canonical_name(key, false, true, false, false),
        normalized("Option-"@ + key, mac) == canonical_name(key, false, true, false, false),
        normalized("Shift-"@ + key, mac) == canonical_name(key, false, false, true, false),
{
    reveal_strlit("Alt-");
    reveal_strlit("Option-");
    reveal_strlit("Shift-");
    reveal_strlit("Alt");
    reveal_strlit("Option");
    reveal_strlit("Shift");
    lemma_modifier_names();
    assert("Alt-"@ =~= "Alt"@ + seq!['-']);
    assert("Option-"@ =~= "Option"@ + seq!['-']);
    assert("Shift-"@ =~= "Shift"@ + seq!['-']);
    lemma_one_modifier("Alt"@, key, mac);
    lemma_one_modifier("Option"@, key, mac);
    lemma_one_modifier("Shift"@, key, mac);
    assert("Alt-"@ + key =~= "Alt"@ + seq!['-'] + key);
    assert("Option-"@ + key =~= "Option"@ + seq!['-'] + key);
    assert("Shift-"@ + key =~= "Shift"@ + seq!['-'] + key);
    assert(mod_flags(seq!["Alt"@, key], 0, mac) == (false, false, false, false));
    assert(mod_flags(seq!["Option"@, key], 0, mac) == (false, false, false, false));
    assert(mod_flags(seq!["Shift"@, key], 0, mac) == (false, false, false, false));
}

/// Split `s` on `-`.
fn split_dash(s: &str) -> (r: Vec<Vec<char>>)
    ensures
        r@.len() >= 1,
        Seq::new(r@.len(), |i: int| r@[i]@) == dash_parts(s@),
{
    let cs = chars_of(s);
    let mut out: Vec<Vec<char>> = Vec::new();
    let mut cur: Vec<char> = Vec::new();
    let mut i: usize = 0;
    proof {
        assert(cs@.skip(0) =~= cs@);
        assert(Seq::new(out@.len(), |k: int| out@[k]@) + dash_parts_from(cs@, cur@) =~= dash_parts(s@));
    }
    while i < cs.len()
        invariant
            i <= cs@.len(),
            cs@ == s@,
            Seq::new(out@.len(), |k: int| out@[k]@) + dash_parts_from(cs@.skip(i as int), cur@) == dash_parts(s@),
        decreases cs.len() - i,
    {
        let c = cs[i];
        proof {
            assert(cs@.skip(i as int)[0] == c);
            assert(cs@.skip(i as int).drop_first() =~= cs@.skip(i as int + 1));
        }
        if c == '-' {
            let ghost before = Seq::new(out@.len(), |k: int| out@[k]@);
            let piece = cur;
            out.push(piece);
            cur = Vec::new();
            proof {
                assert(Seq::new(out@.len(), |k: int| out@[k]@) =~= before + seq![piece@]);
                assert(cur@ =~= Seq::<char>::empty());
                assert(before + seq![piece@] + dash_parts_from(cs@.skip(i as int + 1), Seq::empty())
                    =~= before + (seq![piece@] + dash_parts_from(cs@.skip(i as int + 1), Seq::empty())));
            }
        } else {
            cur.push(c);
        }
        i = i + 1;
    }
    proof {
        assert(cs@.skip(i as int) =~= Seq::<char>::empty());
    }
    let ghost before = Seq::new(out@.len(), |k: int| out@[k]@);
    let piece = cur;
    out.push(piece);
    proof {
        assert(Seq::new(out@.len(), |k: int| out@[k]@) =~= before + seq![piece@]);
    }
    out
}

/// Whether a binding names only known modifiers.
pub fn is_valid_binding(spec: &str) -> (r: bool)
    ensures
        r == binding_ok(spec@),
{
    let parts = split_dash(spec);
    let n = parts.len();
    let mut i: usize = 0;
    while i + 1 < n
        invariant
            n == parts@.len(),
            n >= 1,
            i <= n - 1,
            Seq::new(parts@.len(), |k: int| parts@[k]@) == dash_parts(spec@),
            forall|k: int| 0 <= k < i ==> is_modifier(#[trigger] dash_parts(spec@)[k]),
        decreases n - i,
    {
        let p = string_from_chars(&parts[i]);
        proof {
            assert(dash_parts(spec@)[i as int] == parts@[i as int]@);
        }
        if !(str_eq(p.as_str(), "Mod") || str_eq(p.as_str(), "Cmd") || str_eq(p.as_str(), "Meta")
            || str_eq(p.as_str(), "Ctrl") || str_eq(p.as_str(), "Control") || str_eq(p.as_str(), "Alt")
            || str_eq(p.as_str(), "Option") || str_eq(p.as_str(), "Shift")) {
            return false;
        }
        i = i + 1;
    }
    true
}

/// The canonical name a binding stands for on this platform.
fn normalize(spec: &str, mac: bool) -> (r: String)
    ensures
        r@ == normalized(spec@, mac),
{
    let parts = split_dash(spec);
    let ghost ps = dash_parts(spec@);
    let n = parts.len();
    let (mut alt, mut ctrl, mut shift, mut meta) = (false, false, false, false);
    let mut i: usize = 0;
    while i + 1 < n
        invariant
            n == parts@.len(),
            n >= 1,
            i <= n - 1,
            ps == dash_parts(spec@),
            Seq::new(parts@.len(), |k: int| parts@[k]@) == ps,
            (ctrl, alt, shift, meta) == mod_flags(ps, i as int, mac),
        decreases n - i,
    {
        let p = string_from_chars(&parts[i]);
        proof {
            assert(ps[i as int] == parts@[i as int]@);
            lemma_modifier_names();
        }
        let p = p.as_str();
        if str_eq(p, "Mod") {
            if mac {
                meta = true;
            } else {
                ctrl = true;
            }
        } else if str_eq(p, "Cmd") || str_eq(p, "Meta") {
            meta = true;
        } else if str_eq(p, "Ctrl") || str_eq(p, "Control") {
            ctrl = true;
        } else if str_eq(p, "Alt") || str_eq(p, "Option") {
            alt = true;
        } else if str_eq(p, "Shift") {
            shift = true;
        }
        i = i + 1;
    }
    let key = string_from_chars(&parts[n - 1]);
    proof {
        assert(ps[n - 1] == parts@[n - 1]@);
    }
    canonical(key.as_str(), ctrl, alt, shift, meta)
}

/// Whether `key` is a single symbol character (not a letter or digit):
/// such keys arrive with Shift held on common layouts.
pub open spec fn symbol_key(key: Seq<char>) -> bool {
    key.len() == 1 && !(('a' <= key[0] && key[0] <= 'z') || ('A' <= key[0] && key[0] <= 'Z') || ('0' <= key[0] && key[0] <= '9'))
}

/// Whether `key` is a single symbol character.
fn is_symbol_key(key: &str) -> (r: bool)
    ensures
        r == symbol_key(key@),
{
    let cs = chars_of(key);
    if cs.len() != 1 {
        return false;
    }
    let c = cs[0];
    !(('a' <= c && c <= 'z') || ('A' <= c && c <= 'Z') || ('0' <= c && c <= '9'))
}

/// The command bound to `name` among `b` (the first binding of that name).
pub open spec fn bound_in(b: Seq<(String, Command)>, name: Seq<char>) -> Option<Command>
    decreases b.len(),
{
    if b.len() == 0 {
        None
    } else if b[0].0@ == name {
        Some(b[0].1)
    } else {
        bound_in(b.drop_first(), name)
    }
}

/// The command of the last of the first `k` bindings whose combination is
/// `name` on this platform.
pub open spec fn last_bound(b: Seq<(&str, Command)>, k: int, mac: bool, name: Seq<char>) -> Option<Command>
    decreases k,
{
    if k <= 0 {
        None
    } else if normalized(b[k - 1].0@, mac) == name {
        Some(b[k - 1].1)
    } else {
        last_bound(b, k - 1, mac, name)
    }
}

/// The first binding named `name` decides.
proof fn lemma_bound_first(b: Seq<(String, Command)>, i: int, name: Seq<char>)
    requires
        0 <= i < b.len(),
        b[i].0@ == name,
        forall|k: int| 0 <= k < i ==> (#[trigger] b[k]).0@ != name,
    ensures
        bound_in(b, name) == Some(b[i].1),
    decreases i,
{
    if i > 0 {
        assert forall|k: int| 0 <= k < i - 1 implies (#[trigger] b.drop_first()[k]).0@ != name by {
            assert(b.drop_first()[k] == b[k + 1]);
        }
        lemma_bound_first(b.drop_first(), i - 1, name);
    }
}

/// A name no binding has is unbound.
proof fn lemma_bound_none(b: Seq<(String, Command)>, name: Seq<char>)
    requires
        forall|k: int| 0 <= k < b.len() ==> (#[trigger] b[k]).0@ != name,
    ensures
        bound_in(b, name) is None,
    decreases b.len(),
{
    if b.len() > 0 {
        assert forall|k: int| 0 <= k < b.len() - 1 implies (#[trigger] b.drop_first()[k]).0@ != name by {
            assert(b.drop_first()[k] == b[k + 1]);
        }
        lemma_bound_none(b.drop_first(), name);
    }
}

/// Replacing the command of a binding leaves other names as they were.
proof fn lemma_bound_update_other(b: Seq<(String, Command)>, i: int, x: (String, Command), name: Seq<char>)
    requires
        0 <= i < b.len(),
        b[i].0@ == x.0@,
        x.0@ != name,
    ensures
        bound_in(b.update(i, x), name) == bound_in(b, name),
    decreases b.len(),
{
    let u = b.update(i, x);
    if i > 0 {
        assert(u[0] == b[0]);
        assert(u.drop_first() =~= b.drop_first().update(i - 1, x));
        lemma_bound_update_other(b.drop_first(), i - 1, x, name);
    } else {
        assert(u[0] == x);
        assert(u.drop_first() =~= b.drop_first());
    }
}

/// Appending a binding leaves names already bound as they were and binds
/// its own name when it was unbound.
proof fn lemma_bound_push(b: Seq<(String, Command)>, x: (String, Command), name: Seq<char>)
    ensures
        bound_in(b.push(x), name) == (if bound_in(b, name) is Some {
            bound_in(b, name)
        } else if x.0@ == name {
            Some(x.1)
        } else {
            None
        }),
    decreases b.len(),
{
    let p = b.push(x);
    if b.len() > 0 {
        assert(p[0] == b[0]);
        assert(p.drop_first() =~= b.drop_first().push(x));
        lemma_bound_push(b.drop_first(), x, name);
    } else {
        assert(p[0] == x);
        assert(p.drop_first() =~= Seq::<(String, Command)>::empty());
        assert(bound_in(p.drop_first(), name) is None);
    }
}

/// A set of key bindings.
#[derive(Debug)]
pub struct Keymap {
    pub(crate) mac: bool,
    pub(crate) bindings: Vec<(String, Command)>,
}

impl Keymap {
    /// The bound canonical names, in order.
    pub open(crate) spec fn spec_names(self) -> Seq<Seq<char>> {
        Seq::new(self.bindings@.len(), |i: int| self.bindings@[i].0@)
    }

    /// Whether `Mod` means Meta (macOS) rather than Ctrl.
    pub open(crate) spec fn spec_mac(self) -> bool {
        self.mac
    }

    /// The command bound to the canonical name `name`.
    pub open(crate) spec fn spec_bound(self, name: Seq<char>) -> Option<Command> {
        bound_in(self.bindings@, name)
    }

    /// A keymap for the given platform with `bindings`; a later binding of
    /// the same combination replaces an earlier one.
    pub fn new(mac: bool, bindings: Vec<(&str, Command)>) -> (r: Keymap)
        requires
            forall|i: int| 0 <= i < bindings@.len() ==> binding_ok((#[trigger] bindings@[i]).0@),
        ensures
            r.spec_mac() == mac,
            forall|name: Seq<char>| #[trigger] r.spec_bound(name) == last_bound(bindings@, bindings@.len() as int, mac, name),
            r.spec_names().len() <= bindings@.len(),
    {
        let mut km = Keymap { mac, bindings: Vec::new() };
        let mut rest = bindings;
        let ghost all = rest@;
        let n = rest.len();
        let mut taken: usize = 0;
        while rest.len() > 0
            invariant
                all.len() == n,
                taken <= all.len(),
                rest@ == all.skip(taken as int),
                forall|i: int| 0 <= i < all.len() ==> binding_ok((#[trigger] all[i]).0@),
                km.spec_names().len() <= taken,
                km.spec_mac() == mac,
                forall|name: Seq<char>| #[trigger] km.spec_bound(name) == last_bound(all, taken as int, mac, name),
            decreases rest.len(),
        {
            proof {
                assert(rest@[0] == all[taken as int]);
            }
            let (spec, cmd) = rest.remove(0);
            proof {
                assert(rest@ =~= all.skip(taken as int + 1));
            }
            km.add(spec, cmd);
            taken = taken + 1;
        }
        km
    }

    /// Bind `spec` to `command`, replacing any binding of the same
    /// combination.
    pub fn add(&mut self, spec: &str, command: Command)
        requires
            binding_ok(spec@),
        ensures
            final(self).spec_mac() == old(self).spec_mac(),
            final(self).spec_names() == (if old(self).spec_names().contains(normalized(spec@, old(self).spec_mac())) {
                old(self).spec_names()
            } else {
                old(self).spec_names().push(normalized(spec@, old(self).spec_mac()))
            }),
            forall|name: Seq<char>| #[trigger] final(self).spec_bound(name) == (if name == normalized(spec@, old(self).spec_mac()) {
                Some(command)
            } else {
                old(self).spec_bound(name)
            }),
    {
        let name = normalize(spec, self.mac);
        let ghost key = name@;
        let mut i: usize = 0;
        while i < self.bindings.len()
            invariant
                i <= self.bindings@.len(),
                self.bindings@ == old(self).bindings@,
                self.mac == old(self).mac,
                name@ == key,
                key == normalized(spec@, old(self).mac),
                forall|k: int| 0 <= k < i ==> (#[trigger] self.bindings@[k]).0@ != key,
            decreases self.bindings.len() - i,
        {
            if str_eq(self.bindings[i].0.as_str(), name.as_str()) {
                let ghost b = self.bindings@;
                let ghost x = (name, command);
                proof {
                    assert(self.spec_names()[i as int] == key);
                }
                self.bindings.set(i, (name, command));
                proof {
                    assert(self.bindings@ == b.update(i as int, x));
                    assert(self.spec_names() =~= old(self).spec_names());
                    assert forall|n: Seq<char>| #[trigger] bound_in(self.bindings@, n) == (if n == key {
                        Some(x.1)
                    } else {
                        bound_in(b, n)
                    }) by {
                        if n == key {
                            assert forall|k: int| 0 <= k < i implies (#[trigger] self.bindings@[k]).0@ != n by {
                                assert(self.bindings@[k] == b[k]);
                            }
                            lemma_bound_first(self.bindings@, i as int, n);
                        } else {
                            lemma_bound_update_other(b, i as int, x, n);
                        }
                    }
                }
                return;
            }
            i = i + 1;
        }
        let ghost b = self.bindings@;
        let ghost x = (name, command);
        self.bindings.push((name, command));
        proof {
            assert(!old(self).spec_names().contains(key)) by {
                if old(self).spec_names().contains(key) {
                    let k = choose|k: int| 0 <= k < old(self).spec_names().len() && old(self).spec_names()[k] == key;
                    assert(old(self).bindings@[k].0@ == key);
                }
            }
            assert(self.spec_names() =~= old(self).spec_names().push(key));
            lemma_bound_none(b, key);
            assert forall|n: Seq<char>| #[trigger] bound_in(self.bindings@, n) == (if n == key {
                Some(x.1)
            } else {
                bound_in(b, n)
            }) by {
                lemma_bound_push(b, x, n);
            }
        }
    }

    /// The command bound to the canonical name `name`, if any.
    fn lookup(&self, name: &str) -> (r: Option<&Command>)
        ensures
            match r {
                Some(c) => self.spec_bound(name@) == Some(*c),
                None => self.spec_bound(name@) is None,
            },
    {
        let mut i: usize = 0;
        while i < self.bindings.len()
            invariant
                i <= self.bindings@.len(),
                forall|k: int| 0 <= k < i ==> (#[trigger] self.bindings@[k]).0@ != name@,
            decreases self.bindings.len() - i,
        {
            if str_eq(self.bindings[i].0.as_str(), name) {
                proof {
                    lemma_bound_first(self.bindings@, i as int, name@);
                }
                return Some(&self.bindings[i].1);
            }
            i = i + 1;
        }
        proof {
            lemma_bound_none(self.bindings@, name@);
        }
        None
    }

    /// Run the command bound to `press` (with Shift ignored for symbol keys
    /// when the exact combination is unbound). Unbound presses are not
    /// handled.
    pub fn handle(&self, state: &EditorState, press: &KeyPress, dispatch: bool) -> (r: Outcome)
        ensures
            outcome_ok(r, dispatch),
            (self.spec_bound(press.spec_canonical()) is None && !(press.shift && symbol_key(press.key@)
                && self.spec_bound(canonical_name(press.key@, press.ctrl, press.alt, false, press.meta)) is Some))
                ==> r == (false, None::<Transaction>),
            self.spec_bound(press.spec_canonical()) matches Some(c) ==> call_ensures(Command::run, (&c, state, dispatch), r),
            (self.spec_bound(press.spec_canonical()) is None && press.shift && symbol_key(press.key@))
                ==> (self.spec_bound(canonical_name(press.key@, press.ctrl, press.alt, false, press.meta)) matches Some(c)
                    ==> call_ensures(Command::run, (&c, state, dispatch), r)),
    {
        let name = press.canonical();
        match self.lookup(name.as_str()) {
            Some(cmd) => {
                return cmd.run(state, dispatch);
            },
            None => {},
        }
        if press.shift && is_symbol_key(press.key.as_str()) {
            let plain = canonical(press.key.as_str(), press.ctrl, press.alt, false, press.meta);
            match self.lookup(plain.as_str()) {
                Some(cmd) => {
                    return cmd.run(state, dispatch);
                },
                None => {},
            }
        }
        (false, None)
    }

    /// The number of bindings.
    pub fn len(&self) -> (r: usize)
        ensures
            r == self.spec_names().len(),
    {
        self.bindings.len()
    }

    /// Whether there are no bindings.
    pub fn is_empty(&self) -> (r: bool)
        ensures
            r == (self.spec_names().len() == 0),
    {
        self.bindings.len() == 0
    }
}

/// Bind `spec` to `command` in `km` when the binding is well formed.
fn bind(km: &mut Keymap, spec: &str, command: Command)
    ensures
        final(km).spec_mac() == old(km).spec_mac(),
        binding_ok(spec@) ==> forall|name: Seq<char>| #[trigger] final(km).spec_bound(name) == (if name == normalized(spec@, old(km).spec_mac()) {
            Some(command)
        } else {
            old(km).spec_bound(name)
        }),
{
    if is_valid_binding(spec) {
        km.add(spec, command);
    }
}

/// The standard bindings: Enter splits the block; Backspace and Delete
/// delete the selection, join blocks, or delete a character; Mod-a selects
/// all; the arrows, Home and End move the caret.
#[verifier::rlimit(80)]
pub fn base_keymap(mac: bool) -> (r: Keymap)
    ensures
        r.spec_mac() == mac,
        r.spec_bound("Enter"@) == Some(Command::SplitBlock),
        r.spec_bound("Backspace"@) matches Some(Command::Chain(v))
            && v@ == seq![Command::DeleteSelection, Command::JoinBackward, Command::DeleteBackward],
        r.spec_bound("Delete"@) matches Some(Command::Chain(v))
            && v@ == seq![Command::DeleteSelection, Command::JoinForward, Command::DeleteForward],
        r.spec_bound(canonical_name("a"@, !mac, false, false, mac)) == Some(Command::SelectAll),
        r.spec_bound("ArrowLeft"@) == Some(Command::CaretLeft),
        r.spec_bound("ArrowRight"@) == Some(Command::CaretRight),
        r.spec_bound("Home"@) == Some(Command::CaretLineStart),
        r.spec_bound("End"@) == Some(Command::CaretLineEnd),
{
    proof {
        reveal_strlit("Enter");
        reveal_strlit("Backspace");
        reveal_strlit("Delete");
        reveal_strlit("a");
        reveal_strlit("ArrowLeft");
        reveal_strlit("ArrowRight");
        reveal_strlit("Home");
        reveal_strlit("End");
        reveal_strlit("Ctrl-");
        reveal_strlit("Meta-");
        lemma_plain_key("Enter"@, mac);
        lemma_plain_key("Backspace"@, mac);
        lemma_plain_key("Delete"@, mac);
        lemma_plain_key("ArrowLeft"@, mac);
        lemma_plain_key("ArrowRight"@, mac);
        lemma_plain_key("Home"@, mac);
        lemma_plain_key("End"@, mac);
        law_mod_follows_platform("a"@, mac);
    }
    let ghost mod_a = canonical_name("a"@, !mac, false, false, mac);
    proof {
        if mac {
            assert(mod_a =~= "Meta-"@ + "a"@);
        } else {
            assert(mod_a =~= "Ctrl-"@ + "a"@);
        }
        assert(mod_a.len() == 6);
        assert(mod_a[0] == 'M' || mod_a[0] == 'C');
        assert("Enter"@ != "Backspace"@ && "Enter"@ != "Delete"@ && "Enter"@ != mod_a && "Enter"@ != "ArrowLeft"@
            && "Enter"@ != "ArrowRight"@ && "Enter"@ != "Home"@ && "Enter"@ != "End"@);
        assert("Backspace"@ != "Delete"@ && "Backspace"@ != mod_a && "Backspace"@ != "ArrowLeft"@
            && "Backspace"@ != "ArrowRight"@ && "Backspace"@ != "Home"@ && "Backspace"@ != "End"@);
        assert("Delete"@[0] != mod_a[0]);
        assert("Delete"@ != mod_a && "Delete"@ != "ArrowLeft"@ && "Delete"@ != "ArrowRight"@ && "Delete"@ != "Home"@
            && "Delete"@ != "End"@);
        assert(mod_a != "ArrowLeft"@ && mod_a != "ArrowRight"@ && mod_a != "Home"@ && mod_a != "End"@);
        assert("ArrowLeft"@ != "ArrowRight"@ && "ArrowLeft"@ != "Home"@ && "ArrowLeft"@ != "End"@);
        assert("ArrowRight"@ != "Home"@ && "ArrowRight"@ != "End"@);
        assert("Home"@ != "End"@);
    }
    let mut km = Keymap { mac, bindings: Vec::new() };
    bind(&mut km, "Enter", Command::SplitBlock);
    let mut back: Vec<Command> = Vec::new();
    back.push(Command::DeleteSelection);
    back.push(Command::JoinBackward);
    back.push(Command::DeleteBackward);
    let back_cmd = chain(back);
    let ghost back_v = back_cmd;
    bind(&mut km, "Backspace", back_cmd);
    let mut del: Vec<Command> = Vec::new();
    del.push(Command::DeleteSelection);
    del.push(Command::JoinForward);
    del.push(Command::DeleteForward);
    let del_cmd = chain(del);
    let ghost del_v = del_cmd;
    bind(&mut km, "Delete", del_cmd);
    bind(&mut km, "Mod-a", Command::SelectAll);
    bind(&mut km, "ArrowLeft", Command::CaretLeft);
    bind(&mut km, "ArrowRight", Command::CaretRight);
    bind(&mut km, "Home", Command::CaretLineStart);
    bind(&mut km, "End", Command::CaretLineEnd);
    proof {
        reveal_strlit("Mod-a");
        assert("Mod-a"@ =~= "Mod-"@ + "a"@) by {
            reveal_strlit("Mod-");
        }
        assert(km.spec_bound("Backspace"@) == Some(back_v));
        assert(km.spec_bound("Delete"@) == Some(del_v));
    }
    km
}

} // verus!
