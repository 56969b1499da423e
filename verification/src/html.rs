//! The HTML backend: canonical HTML and the accessibility tree.
//!
//! `canonicalize` normalises HTML source (lowercase tags, attributes sorted by
//! name, double-quoted values) so that presentational reformatting never
//! reaches history. `inspect` extracts the semantic accessibility tree: one
//! [`Def`] per ARIA landmark, heading or interactive control. The role is the
//! one an explicit `role` attribute names, else the implicit role of the tag;
//! the accessible name is `aria-label`, else `title`, else `alt`, else the
//! element's text content with white space collapsed.

use vstd::prelude::*;
use vstd::string::StringExecFns;
use vstd::utf8::encode_utf8;
use crate::cst::{
    find_kind, find_named, find_named_kind, first_kind, first_named, first_named_kind, has,
    kind_is, named_from, node_str, node_text, parse_with, text, text_or_empty, Cst, Grammar, cst_is, parse_spec,
};
use crate::hash::{fnv1a, fnv1a_exec, sort_u64};
use crate::printer::{def_is, defs_are, Def, DefSpec};
use crate::Error;
use crate::text::{push_char, bytes_lt, lemma_bytes_lt_irrefl, lemma_bytes_lt_trans, lemma_name_lt_total, name_lt, str_lt, append_bytes, hex_string, lit, push_lit, push_str, string_bytes, is_white_space, lemma_seq_assoc, str_eq, trim, trim_chars};

verus! {

broadcast use lemma_seq_assoc;

// ─── Strings ─────────────────────────────────────────────────────────────────

/// The characters of `s`, in order.
pub(crate) fn chars_vec(s: &str) -> (r: Vec<char>)
    ensures
        r@ == s@,
{
    let mut v: Vec<char> = Vec::new();
    for c in it: s.chars()
        invariant
            v@ == it.seq().take(it.index() as int),
    {
        v.push(c);
    }
    v
}

/// What `str::to_lowercase` returns for the characters `s` (Unicode lower
/// case mapping).
pub uninterp spec fn lowercase(s: Seq<char>) -> Seq<char>;

/// `str::to_lowercase`: the lower-case equivalent of `s`, which depends on the
/// characters of `s` alone.
#[verifier::external_body]
fn to_lowercase(s: &str) -> (r: String)
    ensures
        r@ == lowercase(s@),
{
    s.to_lowercase()
}

/// Builds a string from the characters `cs[from..to]`.
pub(crate) fn string_of(cs: &Vec<char>, from: usize, to: usize) -> (r: String)
    requires
        from <= to <= cs@.len(),
    ensures
        r@ == cs@.subrange(from as int, to as int),
{
    let mut s = String::new();
    let mut i = from;
    while i < to
        invariant
            from <= i <= to <= cs@.len(),
            s@ == cs@.subrange(from as int, i as int),
        decreases to - i,
    {
        push_char(&mut s, cs[i]);
        proof {
            assert(cs@.subrange(from as int, i + 1) =~= cs@.subrange(from as int, i as int).push(cs@[i as int]));
        }
        i += 1;
    }
    s
}

/// A straight quote, single or double.
pub open spec fn is_quote(c: char) -> bool {
    c == '"' || c == '\''
}

/// `s` without its leading quotes.
pub open spec fn trim_quotes_start(s: Seq<char>) -> Seq<char>
    decreases s.len(),
{
    if s.len() > 0 && is_quote(s.first()) {
        trim_quotes_start(s.drop_first())
    } else {
        s
    }
}

/// `s` without its trailing quotes.
pub open spec fn trim_quotes_end(s: Seq<char>) -> Seq<char>
    decreases s.len(),
{
    if s.len() > 0 && is_quote(s.last()) {
        trim_quotes_end(s.drop_last())
    } else {
        s
    }
}

/// `s` without leading and trailing quotes (`str::trim_matches` on quotes).
pub open spec fn trim_quotes(s: Seq<char>) -> Seq<char> {
    trim_quotes_end(trim_quotes_start(s))
}

/// Strips leading and trailing quotes.
fn strip_quotes(s: &str) -> (r: String)
    ensures
        r@ == trim_quotes(s@),
{
    let cs = chars_vec(s);
    let mut i: usize = 0;
    proof {
        assert(cs@.subrange(0, cs@.len() as int) =~= s@);
    }
    while i < cs.len() && (cs[i] == '"' || cs[i] == '\'')
        invariant
            i <= cs@.len(),
            cs@ == s@,
            trim_quotes_start(s@) == trim_quotes_start(cs@.subrange(i as int, cs@.len() as int)),
        decreases cs.len() - i,
    {
        proof {
            let t = cs@.subrange(i as int, cs@.len() as int);
            assert(t.drop_first() =~= cs@.subrange(i + 1, cs@.len() as int));
        }
        i += 1;
    }
    let ghost t = cs@.subrange(i as int, cs@.len() as int);
    assert(trim_quotes_start(s@) == t);
    let mut j: usize = cs.len();
    while j > i && (cs[j - 1] == '"' || cs[j - 1] == '\'')
        invariant
            i <= j <= cs@.len(),
            trim_quotes_end(t) == trim_quotes_end(cs@.subrange(i as int, j as int)),
        decreases j,
    {
        proof {
            let u = cs@.subrange(i as int, j as int);
            assert(u.drop_last() =~= cs@.subrange(i as int, j - 1));
        }
        j -= 1;
    }
    string_of(&cs, i, j)
}

/// The words of `s` joined by single spaces, and whether a space is due before
/// the next word.
pub open spec fn squeeze(s: Seq<char>) -> (Seq<char>, bool)
    decreases s.len(),
{
    if s.len() == 0 {
        (Seq::empty(), false)
    } else {
        let (o, p) = squeeze(s.drop_last());
        let c = s.last();
        if is_white_space(c) {
            (o, o.len() > 0)
        } else if p {
            (o.push(' ').push(c), false)
        } else {
            (o.push(c), false)
        }
    }
}

/// The white-space separated words of `s`, joined by single spaces.
pub open spec fn collapse_ws(s: Seq<char>) -> Seq<char> {
    squeeze(s).0
}

/// `char::is_whitespace`.
fn is_ws(c: char) -> (r: bool)
    ensures
        r == is_white_space(c),
{
    ('\u{9}' <= c && c <= '\u{d}') || c == ' ' || c == '\u{85}' || c == '\u{a0}' || c == '\u{1680}'
        || ('\u{2000}' <= c && c <= '\u{200a}') || c == '\u{2028}' || c == '\u{2029}' || c
        == '\u{202f}' || c == '\u{205f}' || c == '\u{3000}'
}

/// Collapses white space: the words of `s` joined by single spaces.
fn collapse(s: &str) -> (r: String)
    ensures
        r@ == collapse_ws(s@),
{
    let cs = chars_vec(s);
    let mut out = String::new();
    let mut pending = false;
    let mut i: usize = 0;
    while i < cs.len()
        invariant
            i <= cs@.len(),
            cs@ == s@,
            squeeze(cs@.take(i as int)) == (out@, pending),
        decreases cs.len() - i,
    {
        let c = cs[i];
        proof {
            assert(cs@.take(i + 1).drop_last() =~= cs@.take(i as int));
        }
        if is_ws(c) {
            pending = !out.as_str().is_empty();
        } else {
            if pending {
                push_char(&mut out, ' ');
            }
            push_char(&mut out, c);
            pending = false;
        }
        i += 1;
    }
    proof {
        assert(cs@.take(cs@.len() as int) =~= cs@);
    }
    out
}

// ─── Attribute maps ──────────────────────────────────────────────────────────

/// The names and values of an attribute map, as plain values.
pub open spec fn entry_views(v: Seq<(String, String)>) -> Seq<(Seq<char>, Seq<char>)> {
    v.map_values(|p: (String, String)| (p.0@, p.1@))
}

/// The first index at or after `i` whose name does not sort before `k`.
pub open spec fn lower_bound(l: Seq<(Seq<char>, Seq<char>)>, k: Seq<char>, i: int) -> int
    decreases l.len() - i,
{
    if i < 0 || i >= l.len() {
        l.len() as int
    } else if name_lt(l[i].0, k) {
        lower_bound(l, k, i + 1)
    } else {
        i
    }
}

/// `l` with `k` set to `v`: the entry for `k` replaced, or a new entry at its
/// place in name order (`BTreeMap::insert`).
pub open spec fn insert_entry(l: Seq<(Seq<char>, Seq<char>)>, k: Seq<char>, v: Seq<char>) -> Seq<
    (Seq<char>, Seq<char>),
> {
    let i = lower_bound(l, k, 0);
    if i < l.len() && l[i].0 == k {
        l.update(i, (k, v))
    } else {
        l.insert(i, (k, v))
    }
}

/// Whether the names of `l` are in strictly increasing order (so each name
/// occurs once).
pub open spec fn sorted_names(l: Seq<(Seq<char>, Seq<char>)>) -> bool {
    forall|i: int, j: int| 0 <= i < j < l.len() ==> name_lt(#[trigger] l[i].0, #[trigger] l[j].0)
}

proof fn lemma_lower_bound(l: Seq<(Seq<char>, Seq<char>)>, k: Seq<char>, i: int)
    requires
        0 <= i <= l.len(),
    ensures
        i <= lower_bound(l, k, i) <= l.len(),
        forall|j: int| i <= j < lower_bound(l, k, i) ==> name_lt(#[trigger] l[j].0, k),
        lower_bound(l, k, i) < l.len() ==> !name_lt(l[lower_bound(l, k, i)].0, k),
    decreases l.len() - i,
{
    if i < l.len() && name_lt(l[i].0, k) {
        lemma_lower_bound(l, k, i + 1);
    }
}

/// Setting an attribute keeps the names in strictly increasing order.
#[verifier::spinoff_prover]
pub proof fn lemma_insert_sorted(l: Seq<(Seq<char>, Seq<char>)>, k: Seq<char>, v: Seq<char>)
    requires
        sorted_names(l),
    ensures
        sorted_names(insert_entry(l, k, v)),
{
    let i = lower_bound(l, k, 0);
    lemma_lower_bound(l, k, 0);
    let r = insert_entry(l, k, v);
    if i < l.len() && l[i].0 == k {
        assert forall|a: int, b: int| 0 <= a < b < r.len() implies name_lt(#[trigger] r[a].0, #[trigger] r[b].0) by {
            assert(r[a].0 == l[a].0);
            assert(r[b].0 == l[b].0);
        }
    } else {
        if i < l.len() {
            lemma_name_lt_total(k, l[i].0);
        }
        assert forall|a: int, b: int| 0 <= a < b < r.len() implies name_lt(#[trigger] r[a].0, #[trigger] r[b].0) by {
            if b < i {
                assert(r[a] == l[a] && r[b] == l[b]);
            } else if b == i {
                assert(r[a] == l[a]);
            } else if a < i {
                assert(r[a] == l[a] && r[b] == l[b - 1]);
                if b - 1 > i {
                    assert(name_lt(l[i].0, l[b - 1].0));
                    lemma_bytes_lt_trans(encode_utf8(k), encode_utf8(l[i].0), encode_utf8(l[b - 1].0));
                }
                lemma_bytes_lt_trans(encode_utf8(l[a].0), encode_utf8(k), encode_utf8(l[b - 1].0));
            } else if a == i {
                assert(r[b] == l[b - 1]);
                if b - 1 > i {
                    assert(name_lt(l[i].0, l[b - 1].0));
                    lemma_bytes_lt_trans(encode_utf8(k), encode_utf8(l[i].0), encode_utf8(l[b - 1].0));
                }
            } else {
                assert(r[a] == l[a - 1] && r[b] == l[b - 1]);
            }
        }
    }
}

proof fn lemma_lookup_sorted(l: Seq<(Seq<char>, Seq<char>)>, q: Seq<char>, j: int, i: int)
    requires
        sorted_names(l),
        0 <= i <= j < l.len(),
        l[j].0 == q,
    ensures
        lookup(l, q, i) == Some(l[j].1),
    decreases j - i,
{
    if i < j {
        assert(name_lt(l[i].0, l[j].0));
        if l[i].0 == q {
            lemma_bytes_lt_irrefl(encode_utf8(q));
        }
        lemma_lookup_sorted(l, q, j, i + 1);
    }
}

proof fn lemma_lookup_absent(l: Seq<(Seq<char>, Seq<char>)>, q: Seq<char>, i: int)
    requires
        0 <= i <= l.len(),
        forall|j: int| 0 <= j < l.len() ==> (#[trigger] l[j]).0 != q,
    ensures
        lookup(l, q, i) is None,
    decreases l.len() - i,
{
    if i < l.len() {
        lemma_lookup_absent(l, q, i + 1);
    }
}

/// Reading an attribute after setting one: the value just set for its own
/// name, the earlier value for any other.
#[verifier::spinoff_prover]
pub proof fn lemma_insert_lookup(l: Seq<(Seq<char>, Seq<char>)>, k: Seq<char>, v: Seq<char>, q: Seq<char>)
    requires
        sorted_names(l),
    ensures
        lookup(insert_entry(l, k, v), q, 0) == if q == k {
            Some(v)
        } else {
            lookup(l, q, 0)
        },
{
    let i = lower_bound(l, k, 0);
    lemma_lower_bound(l, k, 0);
    lemma_insert_sorted(l, k, v);
    let r = insert_entry(l, k, v);
    let updated = i < l.len() && l[i].0 == k;
    assert(r[i] == (k, v));
    if q == k {
        lemma_lookup_sorted(r, q, i, 0);
    } else if exists|j: int| 0 <= j < l.len() && (#[trigger] l[j]).0 == q {
        let j = choose|j: int| 0 <= j < l.len() && (#[trigger] l[j]).0 == q;
        lemma_lookup_sorted(l, q, j, 0);
        let jr = if updated || j < i { j } else { j + 1 };
        assert(r[jr] == l[j]);
        lemma_lookup_sorted(r, q, jr, 0);
    } else {
        lemma_lookup_absent(l, q, 0);
        assert forall|j: int| 0 <= j < r.len() implies (#[trigger] r[j]).0 != q by {
            if j != i {
                if updated || j < i {
                    assert(r[j] == l[j]);
                } else {
                    assert(r[j] == l[j - 1]);
                }
            }
        }
        lemma_lookup_absent(r, q, 0);
    }
}

/// The value of the first entry named `k` at or after `i`.
pub open spec fn lookup(l: Seq<(Seq<char>, Seq<char>)>, k: Seq<char>, i: int) -> Option<Seq<char>>
    decreases l.len() - i,
{
    if i < 0 || i >= l.len() {
        None
    } else if l[i].0 == k {
        Some(l[i].1)
    } else {
        lookup(l, k, i + 1)
    }
}

/// Sets `k` to `v` in a name-ordered attribute map.
pub(crate) fn insert_attr(attrs: &mut Vec<(String, String)>, k: String, v: String)
    ensures
        entry_views(final(attrs)@) == insert_entry(entry_views(old(attrs)@), k@, v@),
{
    let ghost l = entry_views(attrs@);
    let mut i: usize = 0;
    while i < attrs.len() && str_lt(attrs[i].0.as_str(), k.as_str())
        invariant
            i <= attrs@.len(),
            l == entry_views(attrs@),
            lower_bound(l, k@, 0) == lower_bound(l, k@, i as int),
        decreases attrs.len() - i,
    {
        i += 1;
    }
    assert(lower_bound(l, k@, 0) == i);
    if i < attrs.len() && str_eq(attrs[i].0.as_str(), k.as_str()) {
        attrs.set(i, (k, v));
        proof {
            assert(entry_views(attrs@) =~= insert_entry(l, k@, v@));
        }
    } else {
        attrs.insert(i, (k, v));
        proof {
            assert(entry_views(attrs@) =~= insert_entry(l, k@, v@));
        }
    }
}

/// The value of attribute `k`, if the map has one.
pub(crate) fn get_attr<'a>(attrs: &'a Vec<(String, String)>, k: &str) -> (r: Option<&'a String>)
    ensures
        match lookup(entry_views(attrs@), k@, 0) {
            Some(v) => r matches Some(s) && s@ == v,
            None => r is None,
        },
{
    let ghost l = entry_views(attrs@);
    let mut i: usize = 0;
    while i < attrs.len()
        invariant
            i <= attrs@.len(),
            l == entry_views(attrs@),
            lookup(l, k@, 0) == lookup(l, k@, i as int),
        decreases attrs.len() - i,
    {
        if str_eq(attrs[i].0.as_str(), k) {
            return Some(&attrs[i].1);
        }
        i += 1;
    }
    None
}

// ─── ARIA semantics ──────────────────────────────────────────────────────────

/// The implicit ARIA role of a lowercase HTML tag name.
pub open spec fn implicit_role_of(tag: Seq<char>) -> Option<Seq<char>> {
    if tag == "a"@ {
        Some("link"@)
    } else if tag == "button"@ {
        Some("button"@)
    } else if tag == "h1"@ || tag == "h2"@ || tag == "h3"@ || tag == "h4"@ || tag == "h5"@ || tag == "h6"@ {
        Some("heading"@)
    } else if tag == "ul"@ || tag == "ol"@ {
        Some("list"@)
    } else if tag == "li"@ {
        Some("listitem"@)
    } else if tag == "nav"@ {
        Some("navigation"@)
    } else if tag == "main"@ {
        Some("main"@)
    } else if tag == "header"@ {
        Some("banner"@)
    } else if tag == "footer"@ {
        Some("contentinfo"@)
    } else if tag == "aside"@ {
        Some("complementary"@)
    } else if tag == "section"@ || tag == "article"@ {
        Some("region"@)
    } else if tag == "form"@ {
        Some("form"@)
    } else if tag == "table"@ {
        Some("table"@)
    } else if tag == "tr"@ {
        Some("row"@)
    } else if tag == "th"@ {
        Some("columnheader"@)
    } else if tag == "td"@ {
        Some("cell"@)
    } else if tag == "img"@ {
        Some("img"@)
    } else if tag == "input"@ || tag == "textarea"@ || tag == "select"@ {
        Some("textbox"@)
    } else if tag == "dialog"@ {
        Some("dialog"@)
    } else {
        None
    }
}

/// The implicit ARIA role of a lowercase tag name ([`implicit_role_of`]).
#[verifier::spinoff_prover]
fn implicit_role(tag: &str) -> (r: Option<&'static str>)
    ensures
        match implicit_role_of(tag@) {
            Some(k) => r matches Some(x) && x@ == k,
            None => r is None,
        },
{
    if str_eq(tag, "a") {
        return Some("link");
    }
    if str_eq(tag, "button") {
        return Some("button");
    }
    if str_eq(tag, "h1") || str_eq(tag, "h2") || str_eq(tag, "h3") || str_eq(tag, "h4") || str_eq(tag, "h5") || str_eq(tag, "h6") {
        return Some("heading");
    }
    if str_eq(tag, "ul") || str_eq(tag, "ol") {
        return Some("list");
    }
    if str_eq(tag, "li") {
        return Some("listitem");
    }
    if str_eq(tag, "nav") {
        return Some("navigation");
    }
    if str_eq(tag, "main") {
        return Some("main");
    }
    if str_eq(tag, "header") {
        return Some("banner");
    }
    if str_eq(tag, "footer") {
        return Some("contentinfo");
    }
    if str_eq(tag, "aside") {
        return Some("complementary");
    }
    if str_eq(tag, "section") || str_eq(tag, "article") {
        return Some("region");
    }
    if str_eq(tag, "form") {
        return Some("form");
    }
    if str_eq(tag, "table") {
        return Some("table");
    }
    if str_eq(tag, "tr") {
        return Some("row");
    }
    if str_eq(tag, "th") {
        return Some("columnheader");
    }
    if str_eq(tag, "td") {
        return Some("cell");
    }
    if str_eq(tag, "img") {
        return Some("img");
    }
    if str_eq(tag, "input") || str_eq(tag, "textarea") || str_eq(tag, "select") {
        return Some("textbox");
    }
    if str_eq(tag, "dialog") {
        return Some("dialog");
    }
    None
}

/// The kind that an explicit `role` attribute gives: the ARIA role itself
/// (`presentation` reads as `none`), or nothing for an unknown or custom role.
pub open spec fn aria_role_kind(role: Seq<char>) -> Option<Seq<char>> {
    if role == "alert"@ {
        Some("alert"@)
    } else if role == "alertdialog"@ {
        Some("alertdialog"@)
    } else if role == "banner"@ {
        Some("banner"@)
    } else if role == "button"@ {
        Some("button"@)
    } else if role == "cell"@ {
        Some("cell"@)
    } else if role == "checkbox"@ {
        Some("checkbox"@)
    } else if role == "columnheader"@ {
        Some("columnheader"@)
    } else if role == "complementary"@ {
        Some("complementary"@)
    } else if role == "contentinfo"@ {
        Some("contentinfo"@)
    } else if role == "definition"@ {
        Some("definition"@)
    } else if role == "dialog"@ {
        Some("dialog"@)
    } else if role == "document"@ {
        Some("document"@)
    } else if role == "feed"@ {
        Some("feed"@)
    } else if role == "figure"@ {
        Some("figure"@)
    } else if role == "form"@ {
        Some("form"@)
    } else if role == "grid"@ {
        Some("grid"@)
    } else if role == "gridcell"@ {
        Some("gridcell"@)
    } else if role == "group"@ {
        Some("group"@)
    } else if role == "heading"@ {
        Some("heading"@)
    } else if role == "img"@ {
        Some("img"@)
    } else if role == "link"@ {
        Some("link"@)
    } else if role == "list"@ {
        Some("list"@)
    } else if role == "listbox"@ {
        Some("listbox"@)
    } else if role == "listitem"@ {
        Some("listitem"@)
    } else if role == "log"@ {
        Some("log"@)
    } else if role == "main"@ {
        Some("main"@)
    } else if role == "marquee"@ {
        Some("marquee"@)
    } else if role == "math"@ {
        Some("math"@)
    } else if role == "menu"@ {
        Some("menu"@)
    } else if role == "menubar"@ {
        Some("menubar"@)
    } else if role == "menuitem"@ {
        Some("menuitem"@)
    } else if role == "menuitemcheckbox"@ {
        Some("menuitemcheckbox"@)
    } else if role == "menuitemradio"@ {
        Some("menuitemradio"@)
    } else if role == "navigation"@ {
        Some("navigation"@)
    } else if role == "none"@ || role == "presentation"@ {
        Some("none"@)
    } else if role == "note"@ {
        Some("note"@)
    } else if role == "option"@ {
        Some("option"@)
    } else if role == "progressbar"@ {
        Some("progressbar"@)
    } else if role == "radio"@ {
        Some("radio"@)
    } else if role == "radiogroup"@ {
        Some("radiogroup"@)
    } else if role == "region"@ {
        Some("region"@)
    } else if role == "row"@ {
        Some("row"@)
    } else if role == "rowgroup"@ {
        Some("rowgroup"@)
    } else if role == "rowheader"@ {
        Some("rowheader"@)
    } else if role == "scrollbar"@ {
        Some("scrollbar"@)
    } else if role == "search"@ {
        Some("search"@)
    } else if role == "searchbox"@ {
        Some("searchbox"@)
    } else if role == "separator"@ {
        Some("separator"@)
    } else if role == "slider"@ {
        Some("slider"@)
    } else if role == "spinbutton"@ {
        Some("spinbutton"@)
    } else if role == "status"@ {
        Some("status"@)
    } else if role == "switch"@ {
        Some("switch"@)
    } else if role == "tab"@ {
        Some("tab"@)
    } else if role == "table"@ {
        Some("table"@)
    } else if role == "tablist"@ {
        Some("tablist"@)
    } else if role == "tabpanel"@ {
        Some("tabpanel"@)
    } else if role == "term"@ {
        Some("term"@)
    } else if role == "textbox"@ {
        Some("textbox"@)
    } else if role == "timer"@ {
        Some("timer"@)
    } else if role == "toolbar"@ {
        Some("toolbar"@)
    } else if role == "tooltip"@ {
        Some("tooltip"@)
    } else if role == "tree"@ {
        Some("tree"@)
    } else if role == "treegrid"@ {
        Some("treegrid"@)
    } else if role == "treeitem"@ {
        Some("treeitem"@)
    } else {
        None
    }
}

/// The kind of an explicit role ([`aria_role_kind`]).
#[verifier::spinoff_prover]
fn aria_kind(role: &str) -> (r: Option<&'static str>)
    ensures
        match aria_role_kind(role@) {
            Some(k) => r matches Some(x) && x@ == k,
            None => r is None,
        },
{
    if str_eq(role, "alert") {
        return Some("alert");
    }
    if str_eq(role, "alertdialog") {
        return Some("alertdialog");
    }
    if str_eq(role, "banner") {
        return Some("banner");
    }
    if str_eq(role, "button") {
        return Some("button");
    }
    if str_eq(role, "cell") {
        return Some("cell");
    }
    if str_eq(role, "checkbox") {
        return Some("checkbox");
    }
    if str_eq(role, "columnheader") {
        return Some("columnheader");
    }
    if str_eq(role, "complementary") {
        return Some("complementary");
    }
    if str_eq(role, "contentinfo") {
        return Some("contentinfo");
    }
    if str_eq(role, "definition") {
        return Some("definition");
    }
    if str_eq(role, "dialog") {
        return Some("dialog");
    }
    if str_eq(role, "document") {
        return Some("document");
    }
    if str_eq(role, "feed") {
        return Some("feed");
    }
    if str_eq(role, "figure") {
        return Some("figure");
    }
    if str_eq(role, "form") {
        return Some("form");
    }
    if str_eq(role, "grid") {
        return Some("grid");
    }
    if str_eq(role, "gridcell") {
        return Some("gridcell");
    }
    if str_eq(role, "group") {
        return Some("group");
    }
    if str_eq(role, "heading") {
        return Some("heading");
    }
    if str_eq(role, "img") {
        return Some("img");
    }
    if str_eq(role, "link") {
        return Some("link");
    }
    if str_eq(role, "list") {
        return Some("list");
    }
    if str_eq(role, "listbox") {
        return Some("listbox");
    }
    if str_eq(role, "listitem") {
        return Some("listitem");
    }
    if str_eq(role, "log") {
        return Some("log");
    }
    if str_eq(role, "main") {
        return Some("main");
    }
    if str_eq(role, "marquee") {
        return Some("marquee");
    }
    if str_eq(role, "math") {
        return Some("math");
    }
    if str_eq(role, "menu") {
        return Some("menu");
    }
    if str_eq(role, "menubar") {
        return Some("menubar");
    }
    if str_eq(role, "menuitem") {
        return Some("menuitem");
    }
    if str_eq(role, "menuitemcheckbox") {
        return Some("menuitemcheckbox");
    }
    if str_eq(role, "menuitemradio") {
        return Some("menuitemradio");
    }
    if str_eq(role, "navigation") {
        return Some("navigation");
    }
    if str_eq(role, "none") || str_eq(role, "presentation") {
        return Some("none");
    }
    if str_eq(role, "note") {
        return Some("note");
    }
    if str_eq(role, "option") {
        return Some("option");
    }
    if str_eq(role, "progressbar") {
        return Some("progressbar");
    }
    if str_eq(role, "radio") {
        return Some("radio");
    }
    if str_eq(role, "radiogroup") {
        return Some("radiogroup");
    }
    if str_eq(role, "region") {
        return Some("region");
    }
    if str_eq(role, "row") {
        return Some("row");
    }
    if str_eq(role, "rowgroup") {
        return Some("rowgroup");
    }
    if str_eq(role, "rowheader") {
        return Some("rowheader");
    }
    if str_eq(role, "scrollbar") {
        return Some("scrollbar");
    }
    if str_eq(role, "search") {
        return Some("search");
    }
    if str_eq(role, "searchbox") {
        return Some("searchbox");
    }
    if str_eq(role, "separator") {
        return Some("separator");
    }
    if str_eq(role, "slider") {
        return Some("slider");
    }
    if str_eq(role, "spinbutton") {
        return Some("spinbutton");
    }
    if str_eq(role, "status") {
        return Some("status");
    }
    if str_eq(role, "switch") {
        return Some("switch");
    }
    if str_eq(role, "tab") {
        return Some("tab");
    }
    if str_eq(role, "table") {
        return Some("table");
    }
    if str_eq(role, "tablist") {
        return Some("tablist");
    }
    if str_eq(role, "tabpanel") {
        return Some("tabpanel");
    }
    if str_eq(role, "term") {
        return Some("term");
    }
    if str_eq(role, "textbox") {
        return Some("textbox");
    }
    if str_eq(role, "timer") {
        return Some("timer");
    }
    if str_eq(role, "toolbar") {
        return Some("toolbar");
    }
    if str_eq(role, "tooltip") {
        return Some("tooltip");
    }
    if str_eq(role, "tree") {
        return Some("tree");
    }
    if str_eq(role, "treegrid") {
        return Some("treegrid");
    }
    if str_eq(role, "treeitem") {
        return Some("treeitem");
    }
    None
}

// ─── Tags and attributes ─────────────────────────────────────────────────────

/// The lowercase tag name of a tag node: the text of its first named
/// `tag_name` child, lowercased; empty when there is none.
pub open spec fn tag_name(src: Seq<u8>, tag: Cst) -> Seq<char> {
    let k = find_named_kind(tag.children@, "tag_name"@, 0);
    if has(tag, k) {
        match text(src, tag.children@[k]) {
            Some(t) => lowercase(t),
            None => Seq::empty(),
        }
    } else {
        Seq::empty()
    }
}

/// The value an attribute's value node carries: the inner text of a quoted
/// value, the text of a bare one, quotes stripped otherwise.
pub open spec fn attr_value(src: Seq<u8>, n: Cst) -> Seq<char> {
    if n.kind@ == "quoted_attribute_value"@ {
        let k = find_named_kind(n.children@, "attribute_value"@, 0);
        if has(n, k) && text(src, n.children@[k]) is Some {
            text(src, n.children@[k]).unwrap()
        } else {
            trim_quotes(text_or_empty(src, n))
        }
    } else if n.kind@ == "attribute_value"@ {
        text_or_empty(src, n)
    } else {
        trim_quotes(text_or_empty(src, n))
    }
}

/// The (lowercase name, value) pair of an `attribute` node: its first named
/// child must be an `attribute_name` whose lowercase text is not empty; its
/// second named child, if any, holds the value.
pub open spec fn attr_entry(src: Seq<u8>, a: Cst) -> Option<(Seq<char>, Seq<char>)> {
    let k1 = find_named(a.children@, 0);
    if has(a, k1) == false || a.children@[k1].kind@ != "attribute_name"@ {
        None
    } else {
        let name = lowercase(text_or_empty(src, a.children@[k1]));
        if name.len() == 0 {
            None
        } else {
            let k2 = find_named(a.children@, k1 + 1);
            Some((name, if has(a, k2) { attr_value(src, a.children@[k2]) } else { Seq::empty() }))
        }
    }
}

/// The attribute map `acc` after the `attribute` children of `tag` from index
/// `i` on are set in turn (a later duplicate overrides an earlier one).
pub open spec fn attrs_from(src: Seq<u8>, tag: Cst, i: int, acc: Seq<(Seq<char>, Seq<char>)>) -> Seq<
    (Seq<char>, Seq<char>),
>
    decreases tag.children@.len() - i,
{
    if i < 0 || i >= tag.children@.len() {
        acc
    } else {
        let c = tag.children@[i];
        let next = if c.named && c.kind@ == "attribute"@ {
            match attr_entry(src, c) {
                Some(e) => insert_entry(acc, e.0, e.1),
                None => acc,
            }
        } else {
            acc
        };
        attrs_from(src, tag, i + 1, next)
    }
}

/// The attributes of a tag node, in name order.
pub open spec fn attrs_of(src: Seq<u8>, tag: Cst) -> Seq<(Seq<char>, Seq<char>)> {
    attrs_from(src, tag, 0, Seq::empty())
}

proof fn lemma_attrs_from_sorted(src: Seq<u8>, tag: Cst, i: int, acc: Seq<(Seq<char>, Seq<char>)>)
    requires
        sorted_names(acc),
    ensures
        sorted_names(attrs_from(src, tag, i, acc)),
    decreases tag.children@.len() - i,
{
    if 0 <= i < tag.children@.len() {
        let c = tag.children@[i];
        if c.named && c.kind@ == "attribute"@ {
            match attr_entry(src, c) {
                Some(e) => {
                    lemma_insert_sorted(acc, e.0, e.1);
                    lemma_attrs_from_sorted(src, tag, i + 1, insert_entry(acc, e.0, e.1));
                },
                None => lemma_attrs_from_sorted(src, tag, i + 1, acc),
            }
        } else {
            lemma_attrs_from_sorted(src, tag, i + 1, acc);
        }
    }
}

/// The attributes of a tag are in strictly increasing name order, so each
/// name occurs once.
pub proof fn lemma_attrs_sorted(src: Seq<u8>, tag: Cst)
    ensures
        sorted_names(attrs_of(src, tag)),
{
    lemma_attrs_from_sorted(src, tag, 0, Seq::empty());
}

/// The lowercase tag name of a tag node ([`tag_name`]).
fn tag_name_of(src: &[u8], tag: &Cst) -> (r: String)
    ensures
        r@ == tag_name(src@, *tag),
{
    match first_named_kind(tag, "tag_name") {
        Some(k) => match node_str(src, &tag.children[k]) {
            Some(t) => to_lowercase(t),
            None => String::new(),
        },
        None => String::new(),
    }
}

/// The value of an attribute's value node ([`attr_value`]).
fn extract_attr_value(src: &[u8], n: &Cst) -> (r: String)
    ensures
        r@ == attr_value(src@, *n),
{
    if kind_is(n, "quoted_attribute_value") {
        if let Some(k) = first_named_kind(n, "attribute_value") {
            if let Some(t) = node_str(src, &n.children[k]) {
                return String::from_str(t);
            }
        }
        strip_quotes(node_text(src, n))
    } else if kind_is(n, "attribute_value") {
        String::from_str(node_text(src, n))
    } else {
        strip_quotes(node_text(src, n))
    }
}

/// The entry of an `attribute` node ([`attr_entry`]).
fn attr_entry_exec(src: &[u8], a: &Cst) -> (r: Option<(String, String)>)
    ensures
        match attr_entry(src@, *a) {
            Some(e) => r matches Some(p) && p.0@ == e.0 && p.1@ == e.1,
            None => r is None,
        },
{
    let k1 = match first_named(a) {
        Some(k) => k,
        None => return None,
    };
    if !kind_is(&a.children[k1], "attribute_name") {
        return None;
    }
    let name = to_lowercase(node_text(src, &a.children[k1]));
    if name.as_str().is_empty() {
        return None;
    }
    assert(k1 < a.children.len());
    let value = match named_from(a, k1 + 1) {
        Some(k2) => extract_attr_value(src, &a.children[k2]),
        None => String::new(),
    };
    Some((name, value))
}

/// The attributes of a tag node, in name order ([`attrs_of`]).
fn collect_attrs(src: &[u8], tag: &Cst) -> (r: Vec<(String, String)>)
    ensures
        entry_views(r@) == attrs_of(src@, *tag),
{
    let mut attrs: Vec<(String, String)> = Vec::new();
    let mut i: usize = 0;
    proof {
        assert(entry_views(attrs@) =~= Seq::<(Seq<char>, Seq<char>)>::empty());
    }
    while i < tag.children.len()
        invariant
            i <= tag.children@.len(),
            attrs_of(src@, *tag) == attrs_from(src@, *tag, i as int, entry_views(attrs@)),
        decreases tag.children.len() - i,
    {
        let c = &tag.children[i];
        if c.named && kind_is(c, "attribute") {
            if let Some(e) = attr_entry_exec(src, c) {
                let (k, v) = e;
                insert_attr(&mut attrs, k, v);
            }
        }
        i += 1;
    }
    attrs
}

// ─── Canonical HTML ──────────────────────────────────────────────────────────

/// One attribute as printed: ` name` for an empty value, else ` name="value"`.
pub open spec fn attr_text(e: (Seq<char>, Seq<char>)) -> Seq<char> {
    if e.1.len() == 0 {
        " "@ + e.0
    } else {
        " "@ + e.0 + "=\""@ + quote_escaped(e.1) + "\""@
    }
}

/// A value for a double-quoted attribute: each `"` written `&quot;`, so that
/// the value reads back the same.
pub open spec fn quote_escaped(v: Seq<char>) -> Seq<char>
    decreases v.len(),
{
    if v.len() == 0 {
        Seq::empty()
    } else {
        quote_escaped(v.drop_last()) + if v.last() == '"' {
            "&quot;"@
        } else {
            seq![v.last()]
        }
    }
}

/// Appends a value for a double-quoted attribute ([`quote_escaped`]).
fn push_quote_escaped(out: &mut String, v: &str)
    ensures
        final(out)@ == old(out)@ + quote_escaped(v@),
{
    let cs = chars_vec(v);
    let ghost before = out@;
    let mut i: usize = 0;
    while i < cs.len()
        invariant
            i <= cs@.len(),
            cs@ == v@,
            out@ == before + quote_escaped(cs@.take(i as int)),
        decreases cs.len() - i,
    {
        if cs[i] == '"' {
            push_str(out, "&quot;");
        } else {
            push_char(out, cs[i]);
        }
        proof {
            assert(cs@.take(i + 1).drop_last() =~= cs@.take(i as int));
        }
        i += 1;
    }
    proof {
        assert(cs@.take(cs@.len() as int) =~= cs@);
    }
}

/// The attributes as printed, in order.
pub open spec fn attrs_text(l: Seq<(Seq<char>, Seq<char>)>) -> Seq<char>
    decreases l.len(),
{
    if l.len() == 0 {
        Seq::empty()
    } else {
        attrs_text(l.drop_last()) + attr_text(l.last())
    }
}

/// An opening tag as printed: lowercase name, attributes in name order, and
/// ` />` for a self-closing tag.
pub open spec fn open_tag(src: Seq<u8>, tag: Cst, self_close: bool) -> Seq<char> {
    "<"@ + tag_name(src, tag) + attrs_text(attrs_of(src, tag)) + if self_close {
        " />"@
    } else {
        ">"@
    }
}

/// The canonical text of a node: a document is its children; an element is
/// its opening tag, its content, and its closing tag; a self-closing element
/// is its tag; a doctype is `<!DOCTYPE html>` and a line break; anything else
/// (text, comments, scripts, styles) is its source text, verbatim.
pub open spec fn html_node(src: Seq<u8>, n: Cst) -> Seq<char>
    decreases n, 1nat, 0nat,
{
    let k = n.kind@;
    let cs = n.children@;
    if k == "document"@ {
        html_list(src, n, 0, false)
    } else if k == "element"@ {
        let st = find_kind(cs, "start_tag"@, 0);
        let et = find_kind(cs, "end_tag"@, 0);
        (if has(n, st) {
            open_tag(src, cs[st], false)
        } else {
            Seq::empty()
        }) + html_list(src, n, 0, true) + (if has(n, et) && tag_name(src, cs[et]).len() > 0 {
            "</"@ + tag_name(src, cs[et]) + ">"@
        } else {
            Seq::empty()
        })
    } else if k == "self_closing_element"@ {
        let t = find_kind(cs, "self_closing_tag"@, 0);
        if has(n, t) {
            open_tag(src, cs[t], true)
        } else {
            Seq::empty()
        }
    } else if k == "doctype"@ {
        "<!DOCTYPE html>\n"@
    } else {
        text_or_empty(src, n)
    }
}

/// The canonical text of the children of `p` from index `i` on; with
/// `skip_tags`, start and end tags are left out.
pub open spec fn html_list(src: Seq<u8>, p: Cst, i: int, skip_tags: bool) -> Seq<char>
    decreases p, 0nat, p.children@.len() - i,
{
    if i < 0 || i >= p.children@.len() {
        Seq::empty()
    } else {
        let c = p.children@[i];
        (if skip_tags && (c.kind@ == "start_tag"@ || c.kind@ == "end_tag"@) {
            Seq::empty()
        } else {
            html_node(src, c)
        }) + html_list(src, p, i + 1, skip_tags)
    }
}

/// The canonical form of a document: its canonical text, ending in a line
/// break.
pub open spec fn canonical_html(src: Seq<u8>, root: Cst) -> Seq<char> {
    let t = html_node(src, root);
    if t.len() > 0 && t.last() == '\n' {
        t
    } else {
        t.push('\n')
    }
}

/// Whether `s` ends with `c`.
pub(crate) fn ends_with_char(s: &str, c: char) -> (r: bool)
    ensures
        r == (s@.len() > 0 && s@.last() == c),
{
    let cs = chars_vec(s);
    cs.len() > 0 && cs[cs.len() - 1] == c
}

/// Prints an opening tag ([`open_tag`]).
#[verifier::rlimit(60)]
fn emit_open_tag(src: &[u8], tag: &Cst, self_close: bool, out: &mut String)
    ensures
        final(out)@ == old(out)@ + open_tag(src@, *tag, self_close),
{
    let name = tag_name_of(src, tag);
    let attrs = collect_attrs(src, tag);
    let ghost l = entry_views(attrs@);
    let ghost before = out@;
    push_str(out, "<");
    push_str(out, name.as_str());
    let mut i: usize = 0;
    proof {
        assert(l.take(0) =~= Seq::<(Seq<char>, Seq<char>)>::empty());
    }
    while i < attrs.len()
        invariant
            i <= attrs@.len(),
            l == entry_views(attrs@),
            l == attrs_of(src@, *tag),
            out@ == before + "<"@ + tag_name(src@, *tag) + attrs_text(l.take(i as int)),
        decreases attrs.len() - i,
    {
        let k = attrs[i].0.as_str();
        let v = attrs[i].1.as_str();
        let ghost mid = out@;
        let ghost e = l[i as int];
        proof {
            assert(e == (k@, v@));
        }
        if v.is_empty() {
            push_str(out, " ");
            push_str(out, k);
            proof {
                assert(out@ =~= mid + attr_text(e));
            }
        } else {
            push_str(out, " ");
            push_str(out, k);
            push_str(out, "=\"");
            push_quote_escaped(out, v);
            push_str(out, "\"");
            proof {
                assert(out@ =~= mid + attr_text(e));
            }
        }
        proof {
            assert(l.take(i + 1).drop_last() =~= l.take(i as int));
            assert(l.take(i + 1).last() == e);
            assert(attrs_text(l.take(i + 1)) == attrs_text(l.take(i as int)) + attr_text(e));
        }
        i += 1;
    }
    proof {
        assert(l.take(attrs@.len() as int) =~= l);
    }
    if self_close {
        push_str(out, " />");
    } else {
        push_str(out, ">");
    }
}

/// Prints a node ([`html_node`]).
fn emit_node(src: &[u8], n: &Cst, out: &mut String)
    ensures
        final(out)@ == old(out)@ + html_node(src@, *n),
    decreases n, 1nat, 0nat,
{
    if kind_is(n, "document") {
        emit_list(src, n, false, out);
    } else if kind_is(n, "element") {
        emit_element(src, n, out);
    } else if kind_is(n, "self_closing_element") {
        if let Some(t) = first_kind(n, "self_closing_tag") {
            emit_open_tag(src, &n.children[t], true, out);
        } else {
            proof {
                assert(old(out)@ + Seq::<char>::empty() =~= old(out)@);
            }
        }
    } else if kind_is(n, "doctype") {
        push_str(out, "<!DOCTYPE html>\n");
    } else {
        push_str(out, node_text(src, n));
    }
}

/// Prints an element: its opening tag, its content, and its closing tag.
fn emit_element(src: &[u8], n: &Cst, out: &mut String)
    requires
        n.kind@ == "element"@,
    ensures
        final(out)@ == old(out)@ + html_node(src@, *n),
    decreases n, 0nat, 1nat,
{
    let ghost before = out@;
    let ghost cs = n.children@;
    let ghost a = if has(*n, find_kind(cs, "start_tag"@, 0)) {
        open_tag(src@, cs[find_kind(cs, "start_tag"@, 0)], false)
    } else {
        Seq::<char>::empty()
    };
    match first_kind(n, "start_tag") {
        Some(st) => emit_open_tag(src, &n.children[st], false, out),
        None => {},
    }
    assert(out@ =~= before + a);
    emit_list(src, n, true, out);
    let ghost mid = out@;
    let ghost et = find_kind(cs, "end_tag"@, 0);
    let ghost c = if has(*n, et) && tag_name(src@, cs[et]).len() > 0 {
        "</"@ + tag_name(src@, cs[et]) + ">"@
    } else {
        Seq::<char>::empty()
    };
    match first_kind(n, "end_tag") {
        Some(et) => {
            let name = tag_name_of(src, &n.children[et]);
            if !name.as_str().is_empty() {
                push_str(out, "</");
                push_str(out, name.as_str());
                push_str(out, ">");
            }
        },
        None => {},
    }
    proof {
        assert(out@ =~= mid + c);
        reveal_strlit("element");
        reveal_strlit("document");
        assert("element"@.len() == 7);
        assert("document"@.len() == 8);
        assert(n.kind@ != "document"@);
        assert(html_node(src@, *n) == a + html_list(src@, *n, 0, true) + c);
    }
}

/// Prints the children of `p` ([`html_list`]).
fn emit_list(src: &[u8], p: &Cst, skip_tags: bool, out: &mut String)
    ensures
        final(out)@ == old(out)@ + html_list(src@, *p, 0, skip_tags),
    decreases p, 0nat, 0nat,
{
    let ghost before = out@;
    let ghost mut acc: Seq<char> = Seq::empty();
    let mut i: usize = 0;
    while i < p.children.len()
        invariant
            i <= p.children@.len(),
            out@ == before + acc,
            html_list(src@, *p, 0, skip_tags) == acc + html_list(src@, *p, i as int, skip_tags),
        decreases p.children.len() - i,
    {
        let c = &p.children[i];
        let ghost mid = out@;
        if !(skip_tags && (kind_is(c, "start_tag") || kind_is(c, "end_tag"))) {
            emit_node(src, c, out);
        }
        proof {
            let e = out@.subrange(mid.len() as int, out@.len() as int);
            assert(out@ =~= mid + e);
            acc = acc + e;
        }
        i += 1;
    }
    proof {
        assert(acc + Seq::<char>::empty() =~= acc);
    }
}

/// The canonical form of an already parsed document ([`canonical_html`]), as
/// UTF-8 bytes.
pub fn canonicalize_parsed(source: &[u8], root: &Cst) -> (r: Vec<u8>)
    ensures
        r@ == encode_utf8(canonical_html(source@, *root)),
{
    let mut out = String::new();
    emit_node(source, root, &mut out);
    proof {
        assert(out@ =~= html_node(source@, *root));
    }
    if !ends_with_char(out.as_str(), '\n') {
        push_char(&mut out, '\n');
    }
    string_bytes(&out)
}

/// Rewrites HTML to canonical form: lowercase tag names, attributes in name
/// order, double-quoted values; structure and text content unchanged.
///
/// [`Error::Parsing`] when the parser gives no tree; otherwise the output is
/// the canonical form ([`canonical_html`]) of the tree that Tree-sitter gives
/// for the source ([`parse_spec`]).
pub fn canonicalize(source: &[u8]) -> (r: Result<Vec<u8>, Error>)
    ensures
        match parse_spec(Grammar::Html, source@) {
            Some((t, _)) => exists|root: Cst| #[trigger] cst_is(root, t) && (r matches Ok(out) && out@ == encode_utf8(
                canonical_html(source@, root),
            )),
            None => r matches Err(e) && e is Parsing,
        },
{
    let parsed = match parse_with(source, Grammar::Html) {
        Ok(p) => p,
        Err(e) => return Err(e),
    };
    let r = Ok(canonicalize_parsed(source, &parsed.root));
    proof {
        let t = parse_spec(Grammar::Html, source@)->Some_0.0;
        assert(cst_is(parsed.root, t));
    }
    r
}

// ─── Accessibility tree ──────────────────────────────────────────────────────

/// The text content of the children of `p` from index `i` on: text nodes
/// verbatim, and the text content of nested elements.
pub open spec fn text_list(src: Seq<u8>, p: Cst, i: int) -> Seq<char>
    decreases p, p.children@.len() - i,
{
    if i < 0 || i >= p.children@.len() {
        Seq::empty()
    } else {
        let c = p.children@[i];
        (if c.kind@ == "text"@ {
            text_or_empty(src, c)
        } else if c.kind@ == "element"@ || c.kind@ == "self_closing_element"@ {
            text_list(src, c, 0)
        } else {
            Seq::empty()
        }) + text_list(src, p, i + 1)
    }
}

/// The trimmed value of attribute `key`, when it has one that is not blank.
pub open spec fn labelled(attrs: Seq<(Seq<char>, Seq<char>)>, key: Seq<char>) -> Option<Seq<char>> {
    match lookup(attrs, key, 0) {
        Some(v) => if trim_chars(v).len() > 0 {
            Some(trim_chars(v))
        } else {
            None
        },
        None => None,
    }
}

/// The accessible name: `aria-label`, else `title`, else `alt` (each trimmed,
/// and only when not blank), else the text content with white space collapsed.
pub open spec fn accessible_name_of(attrs: Seq<(Seq<char>, Seq<char>)>, text: Seq<char>) -> Seq<char> {
    match labelled(attrs, "aria-label"@) {
        Some(t) => t,
        None => match labelled(attrs, "title"@) {
            Some(t) => t,
            None => match labelled(attrs, "alt"@) {
                Some(t) => t,
                None => collapse_ws(text),
            },
        },
    }
}

/// The kind of an element: the ARIA kind of its explicit `role` (none, so the
/// element is skipped, when that role is unknown), else the implicit role of
/// its tag.
pub open spec fn element_kind(attrs: Seq<(Seq<char>, Seq<char>)>, tag: Seq<char>) -> Option<Seq<char>> {
    match lookup(attrs, "role"@, 0) {
        Some(r) => aria_role_kind(r),
        None => implicit_role_of(tag),
    }
}

/// Whether an attribute contributes to the accessible name (its value is
/// blanked in the shape hash).
pub open spec fn is_name_attr(k: Seq<char>) -> bool {
    k == "aria-label"@ || k == "title"@ || k == "alt"@
}

/// `k=v` as bytes.
pub open spec fn pair_bytes(e: (Seq<char>, Seq<char>)) -> Seq<u8> {
    encode_utf8(e.0) + lit("=") + encode_utf8(e.1)
}

/// `k=v`, or `k=_` for a name attribute, as bytes.
pub open spec fn shaped_pair_bytes(e: (Seq<char>, Seq<char>)) -> Seq<u8> {
    if is_name_attr(e.0) {
        encode_utf8(e.0) + lit("=_")
    } else {
        pair_bytes(e)
    }
}

/// The attribute pairs joined by NUL bytes; `shaped` blanks name attributes.
pub open spec fn attr_str(l: Seq<(Seq<char>, Seq<char>)>, shaped: bool) -> Seq<u8>
    decreases l.len(),
{
    let last = if shaped {
        shaped_pair_bytes(l.last())
    } else {
        pair_bytes(l.last())
    };
    if l.len() == 0 {
        Seq::empty()
    } else if l.len() == 1 {
        last
    } else {
        attr_str(l.drop_last(), shaped) + seq![0u8] + last
    }
}

/// The hash preimage of an element: `kind NUL name NUL tag NUL attributes`;
/// the shaped preimage has `_` for the name and blanks name attributes.
pub open spec fn def_preimage(
    kind: Seq<char>,
    name: Seq<char>,
    tag: Seq<char>,
    attrs: Seq<(Seq<char>, Seq<char>)>,
    shaped: bool,
) -> Seq<u8> {
    encode_utf8(kind) + seq![0u8] + (if shaped {
        lit("_")
    } else {
        encode_utf8(name)
    }) + seq![0u8] + encode_utf8(tag) + seq![0u8] + attr_str(attrs, shaped)
}

/// One hash per semantic unit of an element: each `k=v` attribute, the tag,
/// the role, and the name when there is one.
pub open spec fn html_subtrees(
    kind: Seq<char>,
    name: Seq<char>,
    tag: Seq<char>,
    attrs: Seq<(Seq<char>, Seq<char>)>,
) -> Seq<u64> {
    attrs.map_values(|e: (Seq<char>, Seq<char>)| fnv1a(pair_bytes(e))) + seq![
        fnv1a(lit("tag=") + encode_utf8(tag)),
        fnv1a(lit("role=") + encode_utf8(kind)),
    ] + if name.len() > 0 {
        seq![fnv1a(lit("name=") + encode_utf8(name))]
    } else {
        Seq::empty()
    }
}

/// The definition of an element with the given kind, name, tag and attributes.
pub open spec fn html_def(
    kind: Seq<char>,
    name: Seq<char>,
    tag: Seq<char>,
    attrs: Seq<(Seq<char>, Seq<char>)>,
) -> DefSpec {
    DefSpec {
        kind,
        name,
        content_hash: fnv1a(def_preimage(kind, name, tag, attrs, false)),
        shape_hash: fnv1a(def_preimage(kind, name, tag, attrs, true)),
        subtrees: html_subtrees(kind, name, tag, attrs),
    }
}

proof fn lemma_shaped_attr_str(a1: Seq<(Seq<char>, Seq<char>)>, a2: Seq<(Seq<char>, Seq<char>)>)
    requires
        a1.len() == a2.len(),
        forall|i: int|
            0 <= i < a1.len() ==> (#[trigger] a1[i]).0 == a2[i].0 && (!is_name_attr(a1[i].0) ==> a1[i].1
                == a2[i].1),
    ensures
        attr_str(a1, true) == attr_str(a2, true),
    decreases a1.len(),
{
    if a1.len() > 0 {
        assert(a1.last() == a1[a1.len() - 1]);
        lemma_shaped_attr_str(a1.drop_last(), a2.drop_last());
    }
}

/// Two elements that differ only in their accessible name and in the values
/// of their name attributes (`aria-label`, `title`, `alt`) share a shape hash.
pub proof fn lemma_shape_ignores_label(
    kind: Seq<char>,
    name1: Seq<char>,
    name2: Seq<char>,
    tag: Seq<char>,
    a1: Seq<(Seq<char>, Seq<char>)>,
    a2: Seq<(Seq<char>, Seq<char>)>,
)
    requires
        a1.len() == a2.len(),
        forall|i: int|
            0 <= i < a1.len() ==> (#[trigger] a1[i]).0 == a2[i].0 && (!is_name_attr(a1[i].0) ==> a1[i].1
                == a2[i].1),
    ensures
        html_def(kind, name1, tag, a1).shape_hash == html_def(kind, name2, tag, a2).shape_hash,
{
    lemma_shaped_attr_str(a1, a2);
}

/// The definition of an element from its tag node, when its tag has a name and
/// it has a kind; `text` is its text content.
#[verifier::opaque]
pub open spec fn tag_def(src: Seq<u8>, tag: Cst, text: Seq<char>) -> Option<DefSpec> {
    let t = tag_name(src, tag);
    let attrs = attrs_of(src, tag);
    if t.len() == 0 {
        None
    } else {
        match element_kind(attrs, t) {
            Some(kind) => Some(html_def(kind, accessible_name_of(attrs, text), t, attrs)),
            None => None,
        }
    }
}

/// The definition of an `element` node: from its start tag and its text
/// content, else from a self-closing tag (a void element), with no text.
pub open spec fn element_def(src: Seq<u8>, n: Cst) -> Option<DefSpec> {
    let cs = n.children@;
    let st = find_kind(cs, "start_tag"@, 0);
    let sc = find_kind(cs, "self_closing_tag"@, 0);
    if has(n, st) {
        tag_def(src, cs[st], text_list(src, n, 0))
    } else if has(n, sc) {
        tag_def(src, cs[sc], Seq::empty())
    } else {
        None
    }
}

/// The definition of a `self_closing_element` node: from its self-closing tag,
/// or from the node itself when it has none.
pub open spec fn self_closing_def(src: Seq<u8>, n: Cst) -> Option<DefSpec> {
    let sc = find_kind(n.children@, "self_closing_tag"@, 0);
    tag_def(src, if has(n, sc) { n.children@[sc] } else { n }, Seq::empty())
}

/// The sequence holding the definition, if any.
pub open spec fn opt_seq(d: Option<DefSpec>) -> Seq<DefSpec> {
    match d {
        Some(x) => seq![x],
        None => Seq::empty(),
    }
}

/// The definitions found among the children of `p` from index `i` on, in
/// document order: an element's own definition precedes those nested in it; a
/// self-closing element is not searched further; tags are not searched.
pub open spec fn defs_list(src: Seq<u8>, p: Cst, i: int) -> Seq<DefSpec>
    decreases p, p.children@.len() - i,
{
    if i < 0 || i >= p.children@.len() {
        Seq::empty()
    } else {
        let c = p.children@[i];
        let k = c.kind@;
        (if k == "element"@ {
            opt_seq(element_def(src, c)) + defs_list(src, c, 0)
        } else if k == "self_closing_element"@ {
            opt_seq(self_closing_def(src, c))
        } else if k == "start_tag"@ || k == "end_tag"@ || k == "self_closing_tag"@ {
            Seq::empty()
        } else {
            defs_list(src, c, 0)
        }) + defs_list(src, p, i + 1)
    }
}

/// Appends the text content of the children of `p` ([`text_list`]).
fn collect_text_into(src: &[u8], p: &Cst, out: &mut String)
    ensures
        final(out)@ == old(out)@ + text_list(src@, *p, 0),
    decreases p,
{
    let ghost before = out@;
    let ghost mut acc: Seq<char> = Seq::empty();
    let mut i: usize = 0;
    while i < p.children.len()
        invariant
            i <= p.children@.len(),
            out@ == before + acc,
            text_list(src@, *p, 0) == acc + text_list(src@, *p, i as int),
        decreases p.children.len() - i,
    {
        let c = &p.children[i];
        let ghost mid = out@;
        if kind_is(c, "text") {
            push_str(out, node_text(src, c));
        } else if kind_is(c, "element") || kind_is(c, "self_closing_element") {
            collect_text_into(src, c, out);
        }
        proof {
            let e = out@.subrange(mid.len() as int, out@.len() as int);
            assert(out@ =~= mid + e);
            acc = acc + e;
        }
        i += 1;
    }
    proof {
        assert(acc + Seq::<char>::empty() =~= acc);
    }
}

/// The trimmed value of attribute `key`, when not blank ([`labelled`]).
fn labelled_exec(attrs: &Vec<(String, String)>, key: &str) -> (r: Option<String>)
    ensures
        match labelled(entry_views(attrs@), key@) {
            Some(t) => r matches Some(s) && s@ == t,
            None => r is None,
        },
{
    match get_attr(attrs, key) {
        Some(v) => {
            let t = trim(v.as_str());
            if t.is_empty() {
                None
            } else {
                Some(String::from_str(t))
            }
        },
        None => None,
    }
}

/// The accessible name ([`accessible_name_of`]).
fn accessible_name(attrs: &Vec<(String, String)>, text: &str) -> (r: String)
    ensures
        r@ == accessible_name_of(entry_views(attrs@), text@),
{
    if let Some(t) = labelled_exec(attrs, "aria-label") {
        return t;
    }
    if let Some(t) = labelled_exec(attrs, "title") {
        return t;
    }
    if let Some(t) = labelled_exec(attrs, "alt") {
        return t;
    }
    collapse(text)
}

/// Whether `k` is a name attribute ([`is_name_attr`]).
fn is_name_attr_exec(k: &str) -> (r: bool)
    ensures
        r == is_name_attr(k@),
{
    str_eq(k, "aria-label") || str_eq(k, "title") || str_eq(k, "alt")
}

/// The attribute pairs joined by NUL bytes ([`attr_str`]).
fn attr_str_exec(attrs: &Vec<(String, String)>, shaped: bool) -> (r: Vec<u8>)
    ensures
        r@ == attr_str(entry_views(attrs@), shaped),
{
    let ghost l = entry_views(attrs@);
    let mut out: Vec<u8> = Vec::new();
    let mut i: usize = 0;
    proof {
        assert(l.take(0) =~= Seq::<(Seq<char>, Seq<char>)>::empty());
    }
    while i < attrs.len()
        invariant
            i <= attrs@.len(),
            l == entry_views(attrs@),
            out@ == attr_str(l.take(i as int), shaped),
        decreases attrs.len() - i,
    {
        let ghost before = out@;
        if i > 0 {
            out.push(0u8);
        }
        let k = attrs[i].0.as_str();
        append_bytes(&mut out, k.as_bytes());
        if shaped && is_name_attr_exec(k) {
            push_lit(&mut out, "=_");
        } else {
            push_lit(&mut out, "=");
            append_bytes(&mut out, attrs[i].1.as_str().as_bytes());
        }
        proof {
            let t = l.take(i + 1);
            assert(t.drop_last() =~= l.take(i as int));
            assert(t.last() == l[i as int]);
            if i == 0 {
                assert(out@ =~= attr_str(t, shaped));
            } else {
                assert(out@ =~= attr_str(t, shaped));
            }
        }
        i += 1;
    }
    proof {
        assert(l.take(attrs@.len() as int) =~= l);
    }
    out
}

/// The hash preimage of an element ([`def_preimage`]).
fn preimage_exec(kind: &str, name: &str, tag: &str, attrs: &Vec<(String, String)>, shaped: bool) -> (r:
    Vec<u8>)
    ensures
        r@ == def_preimage(kind@, name@, tag@, entry_views(attrs@), shaped),
{
    let mut out: Vec<u8> = Vec::new();
    append_bytes(&mut out, kind.as_bytes());
    out.push(0u8);
    if shaped {
        push_lit(&mut out, "_");
    } else {
        append_bytes(&mut out, name.as_bytes());
    }
    out.push(0u8);
    append_bytes(&mut out, tag.as_bytes());
    out.push(0u8);
    let a = attr_str_exec(attrs, shaped);
    append_bytes(&mut out, a.as_slice());
    out
}

/// The hash of `prefix` followed by the UTF-8 bytes of `s`.
fn labelled_hash(prefix: &str, s: &str) -> (h: u64)
    ensures
        h == fnv1a(lit(prefix) + encode_utf8(s@)),
{
    let mut b: Vec<u8> = Vec::new();
    push_lit(&mut b, prefix);
    append_bytes(&mut b, s.as_bytes());
    fnv1a_exec(b.as_slice())
}

/// Builds the definition of one element ([`html_def`]).
fn make_def(kind: &'static str, name: String, tag: &str, attrs: &Vec<(String, String)>) -> (d: Def)
    ensures
        def_is(d, html_def(kind@, name@, tag@, entry_views(attrs@))),
{
    let ghost l = entry_views(attrs@);
    let canonical = preimage_exec(kind, name.as_str(), tag, attrs, false);
    let shaped = preimage_exec(kind, name.as_str(), tag, attrs, true);
    let mut hashes: Vec<u64> = Vec::new();
    let mut i: usize = 0;
    while i < attrs.len()
        invariant
            i <= attrs@.len(),
            l == entry_views(attrs@),
            hashes@ == l.take(i as int).map_values(|e: (Seq<char>, Seq<char>)| fnv1a(pair_bytes(e))),
        decreases attrs.len() - i,
    {
        let mut b: Vec<u8> = Vec::new();
        append_bytes(&mut b, attrs[i].0.as_str().as_bytes());
        push_lit(&mut b, "=");
        append_bytes(&mut b, attrs[i].1.as_str().as_bytes());
        hashes.push(fnv1a_exec(b.as_slice()));
        proof {
            assert(b@ == pair_bytes(l[i as int]));
            assert(l.take(i + 1).map_values(|e: (Seq<char>, Seq<char>)| fnv1a(pair_bytes(e))) =~= l.take(
                i as int,
            ).map_values(|e: (Seq<char>, Seq<char>)| fnv1a(pair_bytes(e))).push(fnv1a(pair_bytes(l[i as int]))));
        }
        i += 1;
    }
    proof {
        assert(l.take(attrs@.len() as int) =~= l);
    }
    hashes.push(labelled_hash("tag=", tag));
    hashes.push(labelled_hash("role=", kind));
    if !name.as_str().is_empty() {
        hashes.push(labelled_hash("name=", name.as_str()));
    }
    proof {
        assert(hashes@ =~= html_subtrees(kind@, name@, tag@, l));
    }
    let subtree_hashes = sort_u64(&hashes);
    Def {
        kind,
        name,
        content_hash: hex_string(fnv1a_exec(canonical.as_slice())),
        shape_hash: hex_string(fnv1a_exec(shaped.as_slice())),
        subtree_hashes,
    }
}

/// The definition of an element from its tag node ([`tag_def`]).
fn tag_def_exec(src: &[u8], tag: &Cst, text: &str) -> (r: Option<Def>)
    ensures
        match tag_def(src@, *tag, text@) {
            Some(s) => r matches Some(d) && def_is(d, s),
            None => r is None,
        },
{
    reveal(tag_def);
    let tag_name = tag_name_of(src, tag);
    if tag_name.as_str().is_empty() {
        return None;
    }
    let attrs = collect_attrs(src, tag);
    let kind = match get_attr(&attrs, "role") {
        Some(r) => match aria_kind(r.as_str()) {
            Some(k) => k,
            None => return None,
        },
        None => match implicit_role(tag_name.as_str()) {
            Some(k) => k,
            None => return None,
        },
    };
    let name = accessible_name(&attrs, text);
    Some(make_def(kind, name, tag_name.as_str(), &attrs))
}

/// The definition of an `element` node ([`element_def`]).
fn element_to_def(src: &[u8], n: &Cst) -> (r: Option<Def>)
    ensures
        match element_def(src@, *n) {
            Some(s) => r matches Some(d) && def_is(d, s),
            None => r is None,
        },
{
    if let Some(st) = first_kind(n, "start_tag") {
        let mut text = String::new();
        collect_text_into(src, n, &mut text);
        proof {
            assert(text@ =~= text_list(src@, *n, 0));
        }
        tag_def_exec(src, &n.children[st], text.as_str())
    } else if let Some(sc) = first_kind(n, "self_closing_tag") {
        let empty = String::new();
        tag_def_exec(src, &n.children[sc], empty.as_str())
    } else {
        None
    }
}

/// The definition of a `self_closing_element` node ([`self_closing_def`]).
fn self_closing_to_def(src: &[u8], n: &Cst) -> (r: Option<Def>)
    ensures
        match self_closing_def(src@, *n) {
            Some(s) => r matches Some(d) && def_is(d, s),
            None => r is None,
        },
{
    let empty = String::new();
    match first_kind(n, "self_closing_tag") {
        Some(sc) => tag_def_exec(src, &n.children[sc], empty.as_str()),
        None => tag_def_exec(src, n, empty.as_str()),
    }
}

proof fn lemma_defs_are_append(a: Seq<Def>, s: Seq<DefSpec>, b: Seq<Def>, t: Seq<DefSpec>)
    requires
        defs_are(a, s),
        defs_are(b, t),
    ensures
        defs_are(a + b, s + t),
{
    assert forall|i: int| 0 <= i < (a + b).len() implies def_is(#[trigger] (a + b)[i], (s + t)[i]) by {
        if i < a.len() {
            assert(def_is(a[i], s[i]));
        } else {
            assert(def_is(b[i - a.len()], t[i - a.len()]));
        }
    }
}

/// The definitions among the children of `p` ([`defs_list`]).
fn collect_defs(src: &[u8], p: &Cst) -> (r: Vec<Def>)
    ensures
        defs_are(r@, defs_list(src@, *p, 0)),
    decreases p,
{
    let mut defs: Vec<Def> = Vec::new();
    let ghost mut acc: Seq<DefSpec> = Seq::empty();
    let mut i: usize = 0;
    while i < p.children.len()
        invariant
            i <= p.children@.len(),
            defs_are(defs@, acc),
            defs_list(src@, *p, 0) == acc + defs_list(src@, *p, i as int),
        decreases p.children.len() - i,
    {
        let c = &p.children[i];
        let mut here: Vec<Def> = Vec::new();
        let ghost mut h: Seq<DefSpec> = Seq::empty();
        if kind_is(c, "element") {
            if let Some(d) = element_to_def(src, c) {
                here.push(d);
            }
            let mut nested = collect_defs(src, c);
            proof {
                lemma_defs_are_append(here@, opt_seq(element_def(src@, *c)), nested@, defs_list(src@, *c, 0));
                h = opt_seq(element_def(src@, *c)) + defs_list(src@, *c, 0);
            }
            here.append(&mut nested);
        } else if kind_is(c, "self_closing_element") {
            if let Some(d) = self_closing_to_def(src, c) {
                here.push(d);
            }
            proof {
                h = opt_seq(self_closing_def(src@, *c));
            }
        } else if kind_is(c, "start_tag") || kind_is(c, "end_tag") || kind_is(c, "self_closing_tag") {
        } else {
            here = collect_defs(src, c);
            proof {
                h = defs_list(src@, *c, 0);
            }
        }
        proof {
            assert(defs_list(src@, *p, i as int) == h + defs_list(src@, *p, i + 1));
            lemma_defs_are_append(defs@, acc, here@, h);
            acc = acc + h;
        }
        defs.append(&mut here);
        i += 1;
    }
    proof {
        assert(acc + Seq::<DefSpec>::empty() =~= acc);
    }
    defs
}

/// The semantic elements of an already parsed document, as definitions, in
/// document order: exactly [`defs_list`] of the root.
pub fn inspect_parsed(source: &[u8], root: &Cst) -> (r: Vec<Def>)
    ensures
        defs_are(r@, defs_list(source@, *root, 0)),
{
    collect_defs(source, root)
}

/// The semantic elements of an HTML document as [`Def`]s: one per ARIA
/// landmark, heading or interactive control, in document order.
///
/// [`Error::Parsing`] when the parser gives no tree; otherwise the
/// definitions ([`defs_list`]) of the tree that Tree-sitter gives for the
/// source ([`parse_spec`]).
pub fn inspect(source: &[u8]) -> (r: Result<Vec<Def>, Error>)
    ensures
        match parse_spec(Grammar::Html, source@) {
            Some((t, _)) => exists|root: Cst| #[trigger] cst_is(root, t) && (r matches Ok(defs) && defs_are(
                defs@,
                defs_list(source@, root, 0),
            )),
            None => r matches Err(e) && e is Parsing,
        },
{
    let parsed = match parse_with(source, Grammar::Html) {
        Ok(p) => p,
        Err(e) => return Err(e),
    };
    let r = Ok(inspect_parsed(source, &parsed.root));
    proof {
        let t = parse_spec(Grammar::Html, source@)->Some_0.0;
        assert(cst_is(parsed.root, t));
    }
    r
}

} // verus!
