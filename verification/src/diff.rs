//! Structural diff for JSON.
//!
//! Where the merge reconciles two JSON values against a base, [`diff`]
//! describes the change between two values by structure: object-key paths
//! that were added, removed or changed, in key order and independent of the
//! order keys were written in. Arrays and differing scalars are reported as a
//! change of the whole value.

use vstd::prelude::*;
use crate::json::{
    sorted_keys, copy_json, entries_of, entries_size, items_of, json_eq, json_equal, json_of, json_size,
    lemma_entries_of, lemma_entries_size, lemma_items_of, Json, JsonValue,
};
use crate::merge::{
    ev, frontier, head, least, lemma_least_heads, lemma_list_absent, lemma_list_step, lemma_name_lt_asym,
    lemma_name_lt_trans, lemma_value_at_absent, lemma_value_at_eq, value_at,
};
use crate::html::chars_vec;
use crate::text::{lemma_name_lt_total, name_lt, decimal, lemma_seq_assoc, push_char, push_decimal, push_str, str_eq, str_lt};
use vstd::string::StringExecFns;

verus! {

broadcast use lemma_seq_assoc;

/// A single structural change at an object-key path (dotted, e.g. `a.b.c`;
/// the empty path is the document root).
#[derive(Debug, Clone, PartialEq, Eq)]
pub enum Change {
    Added { path: String, value: JsonValue },
    Removed { path: String, value: JsonValue },
    Changed { path: String, old: JsonValue, new: JsonValue },
}

/// A change as plain values.
pub enum ChangeSpec {
    Added(Seq<char>, Json),
    Removed(Seq<char>, Json),
    Changed(Seq<char>, Json, Json),
}

impl View for Change {
    type V = ChangeSpec;

    open spec fn view(&self) -> ChangeSpec {
        match self {
            Change::Added { path, value } => ChangeSpec::Added(path@, value@),
            Change::Removed { path, value } => ChangeSpec::Removed(path@, value@),
            Change::Changed { path, old, new } => ChangeSpec::Changed(path@, old@, new@),
        }
    }
}

/// The changes as plain values.
pub open spec fn change_views(cs: Seq<Change>) -> Seq<ChangeSpec> {
    cs.map_values(|c: Change| c@)
}

/// The path of key `k` below `path`.
pub open spec fn child_path(path: Seq<char>, k: Seq<char>) -> Seq<char> {
    if path.len() == 0 {
        k
    } else {
        path + "."@ + k
    }
}

/// The changes from `o` to `n` at `path`: none when equal; key by key when
/// both are objects; else one change of the whole value.
pub open spec fn diff_spec(path: Seq<char>, o: Json, n: Json) -> Seq<ChangeSpec>
    decreases json_size(o) + json_size(n),
{
    if json_eq(o, n) {
        Seq::empty()
    } else {
        match o {
            Json::Object(om) => match n {
                Json::Object(nm) => diff_entries(path, om, nm, 0, 0),
                _ => seq![ChangeSpec::Changed(path, o, n)],
            },
            _ => seq![ChangeSpec::Changed(path, o, n)],
        }
    }
}

/// The changes between two objects' entries from the given positions on,
/// keys taken in increasing order across both: a key on both sides is
/// compared below it; a key only in the new object is added; a key only in
/// the old one is removed.
pub open spec fn diff_entries(
    path: Seq<char>,
    om: Seq<(Seq<char>, Json)>,
    nm: Seq<(Seq<char>, Json)>,
    io: int,
    inn: int,
) -> Seq<ChangeSpec>
    decreases entries_size(om, io) + entries_size(nm, inn),
{
    match least(head(om, io), head(nm, inn)) {
        None => Seq::empty(),
        Some(k) => {
            let ho = 0 <= io < om.len() && om[io].0 == k;
            let hn = 0 <= inn < nm.len() && nm[inn].0 == k;
            let c = child_path(path, k);
            let here = if ho && hn {
                diff_spec(c, om[io].1, nm[inn].1)
            } else if hn {
                seq![ChangeSpec::Added(c, nm[inn].1)]
            } else {
                seq![ChangeSpec::Removed(c, om[io].1)]
            };
            here + diff_entries(
                path,
                om,
                nm,
                if ho {
                    io + 1
                } else {
                    io
                },
                if hn {
                    inn + 1
                } else {
                    inn
                },
            )
        },
    }
}

/// Two values show no difference exactly when they are equal: a change is
/// reported whenever anything differs, and nothing when nothing does.
pub proof fn lemma_diff_empty_iff_equal(path: Seq<char>, o: Json, n: Json)
    ensures
        diff_spec(path, o, n).len() == 0 <==> json_eq(o, n),
    decreases json_size(o) + json_size(n),
{
    if !json_eq(o, n) {
        if let Json::Object(om) = o {
            if let Json::Object(nm) = n {
                lemma_diff_entries_empty(path, om, nm, 0, 0);
                if diff_spec(path, o, n).len() == 0 {
                    assert forall|i: int| 0 <= i < om.len() implies (#[trigger] om[i]).0 == nm[i].0 && json_eq(
                        om[i].1,
                        nm[i].1,
                    ) by {
                        assert(om[0 + i] == om[i]);
                        assert(nm[0 + i] == nm[i]);
                    }
                    assert(json_eq(o, n));
                }
            }
        }
    }
}

/// Key-by-key, no change is reported only when the remaining entries pair up
/// with equal keys and equal values.
proof fn lemma_diff_entries_empty(
    path: Seq<char>,
    om: Seq<(Seq<char>, Json)>,
    nm: Seq<(Seq<char>, Json)>,
    io: int,
    inn: int,
)
    requires
        0 <= io <= om.len(),
        0 <= inn <= nm.len(),
    ensures
        diff_entries(path, om, nm, io, inn).len() == 0 ==> {
            &&& om.len() - io == nm.len() - inn
            &&& forall|t: int|
                0 <= t < om.len() - io ==> (#[trigger] om[io + t]).0 == nm[inn + t].0 && json_eq(
                    om[io + t].1,
                    nm[inn + t].1,
                )
        },
    decreases entries_size(om, io) + entries_size(nm, inn),
{
    match least(head(om, io), head(nm, inn)) {
        None => {},
        Some(k) => {
            let ho = 0 <= io < om.len() && om[io].0 == k;
            let hn = 0 <= inn < nm.len() && nm[inn].0 == k;
            let c = child_path(path, k);
            if ho && hn {
                lemma_entries_size(om, io, io);
                lemma_entries_size(nm, inn, inn);
                lemma_diff_empty_iff_equal(c, om[io].1, nm[inn].1);
                lemma_diff_entries_empty(path, om, nm, io + 1, inn + 1);
                let here = diff_spec(c, om[io].1, nm[inn].1);
                let rest = diff_entries(path, om, nm, io + 1, inn + 1);
                assert(diff_entries(path, om, nm, io, inn) == here + rest);
                if diff_entries(path, om, nm, io, inn).len() == 0 {
                    assert(here.len() == 0);
                    assert(rest.len() == 0);
                    assert forall|t: int| 0 <= t < om.len() - io implies (#[trigger] om[io + t]).0 == nm[inn + t].0
                        && json_eq(om[io + t].1, nm[inn + t].1) by {
                        if t > 0 {
                            assert(om[(io + 1) + (t - 1)] == om[io + t]);
                            assert(nm[(inn + 1) + (t - 1)] == nm[inn + t]);
                        }
                    }
                }
            }
        },
    }
}

/// Whether following the dotted path `path` down from `v`, which sits at
/// path `base`, reaches the value `x`: `v` itself at its own path, else a
/// value under one of its keys.
pub open spec fn reaches(v: Json, base: Seq<char>, path: Seq<char>, x: Json) -> bool
    decreases v, 1nat, 0nat,
{
    (path == base && x == v) || match v {
        Json::Object(es) => reaches_under(es, base, path, x, 0),
        _ => false,
    }
}

/// Whether the path reaches `x` under one of the entries from index `i` on of
/// an object at path `base`.
pub open spec fn reaches_under(es: Seq<(Seq<char>, Json)>, base: Seq<char>, path: Seq<char>, x: Json, i: int) -> bool
    decreases es, 0nat, es.len() - i,
{
    if i < 0 || i >= es.len() {
        false
    } else {
        proof {
            assert(decreases_to!(es => es[i]));
            assert(decreases_to!(es[i] => es[i].1));
        }
        reaches(es[i].1, child_path(base, es[i].0), path, x) || reaches_under(es, base, path, x, i + 1)
    }
}

proof fn lemma_reaches_under(es: Seq<(Seq<char>, Json)>, base: Seq<char>, path: Seq<char>, x: Json, i: int, j: int)
    requires
        0 <= i <= j < es.len(),
        reaches(es[j].1, child_path(base, es[j].0), path, x),
    ensures
        reaches_under(es, base, path, x, i),
    decreases j - i,
{
    if i < j {
        lemma_reaches_under(es, base, path, x, i + 1, j);
    }
}

/// What a reported change claims of the two values at path `base`: an added
/// value is found at its path in the new value, a removed one in the old
/// value, and a changed one in both, as its old and its new value.
pub open spec fn change_found(o: Json, n: Json, base: Seq<char>, c: ChangeSpec) -> bool {
    match c {
        ChangeSpec::Added(p, v) => reaches(n, base, p, v),
        ChangeSpec::Removed(p, v) => reaches(o, base, p, v),
        ChangeSpec::Changed(p, a, b) => reaches(o, base, p, a) && reaches(n, base, p, b),
    }
}

/// Every change is reported at its full dotted path from the root: following
/// that path in the new value gives the value added (or a changed value's
/// new value), and in the old value the value removed (or its old value).
pub proof fn lemma_diff_paths(base: Seq<char>, o: Json, n: Json)
    ensures
        forall|x: int|
            0 <= x < diff_spec(base, o, n).len() ==> change_found(o, n, base, #[trigger] diff_spec(base, o, n)[x]),
    decreases json_size(o) + json_size(n), 1nat,
{
    if !json_eq(o, n) {
        match o {
            Json::Object(om) => match n {
                Json::Object(nm) => {
                    assert(diff_spec(base, o, n) == diff_entries(base, om, nm, 0, 0));
                    lemma_diff_entries_paths(base, om, nm, 0, 0);
                },
                _ => {
                    assert(diff_spec(base, o, n) == seq![ChangeSpec::Changed(base, o, n)]);
                    assert(reaches(o, base, base, o) && reaches(n, base, base, n));
                },
            },
            _ => {
                assert(diff_spec(base, o, n) == seq![ChangeSpec::Changed(base, o, n)]);
                assert(reaches(o, base, base, o) && reaches(n, base, base, n));
            },
        }
    }
}

proof fn lemma_diff_entries_paths(
    path: Seq<char>,
    om: Seq<(Seq<char>, Json)>,
    nm: Seq<(Seq<char>, Json)>,
    io: int,
    inn: int,
)
    requires
        0 <= io <= om.len(),
        0 <= inn <= nm.len(),
    ensures
        forall|x: int|
            0 <= x < diff_entries(path, om, nm, io, inn).len() ==> change_found(
                Json::Object(om),
                Json::Object(nm),
                path,
                #[trigger] diff_entries(path, om, nm, io, inn)[x],
            ),
    decreases entries_size(om, io) + entries_size(nm, inn), 0nat,
{
    let o = Json::Object(om);
    let n = Json::Object(nm);
    match least(head(om, io), head(nm, inn)) {
        None => {},
        Some(k) => {
            let ho = 0 <= io < om.len() && om[io].0 == k;
            let hn = 0 <= inn < nm.len() && nm[inn].0 == k;
            let c = child_path(path, k);
            let here = if ho && hn {
                diff_spec(c, om[io].1, nm[inn].1)
            } else if !hn {
                seq![ChangeSpec::Removed(c, om[io].1)]
            } else {
                seq![ChangeSpec::Added(c, nm[inn].1)]
            };
            let nio = if ho {
                io + 1
            } else {
                io
            };
            let ninn = if hn {
                inn + 1
            } else {
                inn
            };
            if ho {
                lemma_entries_size(om, io, io);
            }
            if hn {
                lemma_entries_size(nm, inn, inn);
            }
            if !ho {
                assert(hn) by {
                    if !(0 <= inn < nm.len()) {
                        assert(0 <= io < om.len());
                    }
                }
            }
            lemma_diff_entries_paths(path, om, nm, nio, ninn);
            let rest = diff_entries(path, om, nm, nio, ninn);
            assert(diff_entries(path, om, nm, io, inn) == here + rest);
            assert forall|x: int| 0 <= x < here.len() implies change_found(o, n, path, #[trigger] here[x]) by {
                if ho && hn {
                    lemma_diff_paths(c, om[io].1, nm[inn].1);
                    match here[x] {
                        ChangeSpec::Added(p, v) => {
                            lemma_reaches_under(nm, path, p, v, 0, inn);
                        },
                        ChangeSpec::Removed(p, v) => {
                            lemma_reaches_under(om, path, p, v, 0, io);
                        },
                        ChangeSpec::Changed(p, a, b) => {
                            lemma_reaches_under(om, path, p, a, 0, io);
                            lemma_reaches_under(nm, path, p, b, 0, inn);
                        },
                    }
                } else if hn {
                    assert(reaches(nm[inn].1, c, c, nm[inn].1));
                    lemma_reaches_under(nm, path, c, nm[inn].1, 0, inn);
                } else {
                    assert(reaches(om[io].1, c, c, om[io].1));
                    lemma_reaches_under(om, path, c, om[io].1, 0, io);
                }
            }
            assert forall|x: int| 0 <= x < (here + rest).len() implies change_found(
                o,
                n,
                path,
                #[trigger] (here + rest)[x],
            ) by {
                if x < here.len() {
                    assert((here + rest)[x] == here[x]);
                } else {
                    assert((here + rest)[x] == rest[x - here.len()]);
                }
            }
        },
    }
}

/// Whether `c` is among the changes `s`.
pub open spec fn reports(s: Seq<ChangeSpec>, c: ChangeSpec) -> bool {
    exists|i: int| 0 <= i < s.len() && s[i] == c
}

/// Whether the changes `d` stand, in one piece, among the changes `s`.
pub open spec fn reports_all(s: Seq<ChangeSpec>, d: Seq<ChangeSpec>) -> bool {
    exists|i: int| 0 <= i && i + d.len() <= s.len() && #[trigger] s.subrange(i, i + d.len()) == d
}

/// What the changes `s` between two objects at `path` owe under key `k`: a
/// key only in the new object is reported added with its value, one only in
/// the old object removed with its value, and for a key in both, the changes
/// between its two values are reported, in one piece.
pub open spec fn complete_at(
    path: Seq<char>,
    om: Seq<(Seq<char>, Json)>,
    nm: Seq<(Seq<char>, Json)>,
    k: Seq<char>,
    s: Seq<ChangeSpec>,
) -> bool {
    match (value_at(om, k, 0), value_at(nm, k, 0)) {
        (None, Some(v)) => reports(s, ChangeSpec::Added(child_path(path, k), v)),
        (Some(v), None) => reports(s, ChangeSpec::Removed(child_path(path, k), v)),
        (Some(a), Some(b)) => reports_all(s, diff_spec(child_path(path, k), a, b)),
        (None, None) => true,
    }
}

proof fn lemma_reports_after(h: Seq<ChangeSpec>, s: Seq<ChangeSpec>, path: Seq<char>, om: Seq<(Seq<char>, Json)>, nm: Seq<(Seq<char>, Json)>, k: Seq<char>)
    requires
        complete_at(path, om, nm, k, s),
    ensures
        complete_at(path, om, nm, k, h + s),
{
    match (value_at(om, k, 0), value_at(nm, k, 0)) {
        (None, Some(v)) => {
            let i = choose|i: int| 0 <= i < s.len() && s[i] == ChangeSpec::Added(child_path(path, k), v);
            assert((h + s)[h.len() + i] == s[i]);
        },
        (Some(v), None) => {
            let i = choose|i: int| 0 <= i < s.len() && s[i] == ChangeSpec::Removed(child_path(path, k), v);
            assert((h + s)[h.len() + i] == s[i]);
        },
        (Some(a), Some(b)) => {
            let d = diff_spec(child_path(path, k), a, b);
            let i = choose|i: int| 0 <= i && i + d.len() <= s.len() && #[trigger] s.subrange(i, i + d.len()) == d;
            assert((h + s).subrange(h.len() + i, h.len() + i + d.len()) =~= s.subrange(i, i + d.len()));
        },
        (None, None) => {},
    }
}

/// From any point of the walk that keeps the frontier, every key after the
/// frontier is accounted for.
proof fn lemma_diff_walk_complete(
    path: Seq<char>,
    om: Seq<(Seq<char>, Json)>,
    nm: Seq<(Seq<char>, Json)>,
    io: int,
    inn: int,
    last: Option<Seq<char>>,
)
    requires
        sorted_keys(om),
        sorted_keys(nm),
        0 <= io <= om.len(),
        0 <= inn <= nm.len(),
        frontier(om, io, last),
        frontier(nm, inn, last),
    ensures
        forall|k: Seq<char>|
            (last matches Some(x) ==> name_lt(x, k)) ==> #[trigger] complete_at(
                path,
                om,
                nm,
                k,
                diff_entries(path, om, nm, io, inn),
            ),
    decreases entries_size(om, io) + entries_size(nm, inn),
{
    let s = diff_entries(path, om, nm, io, inn);
    match least(head(om, io), head(nm, inn)) {
        None => {
            assert forall|k: Seq<char>| (last matches Some(x) ==> name_lt(x, k)) implies #[trigger] complete_at(
                path,
                om,
                nm,
                k,
                s,
            ) by {
                assert forall|q: int| 0 <= q < io && q < om.len() implies om[q].0 != k by {
                    let x = last->0;
                    lemma_name_lt_asym(x, k);
                    if name_lt(om[q].0, x) {
                        lemma_name_lt_trans(om[q].0, x, k);
                        lemma_name_lt_asym(om[q].0, k);
                    }
                }
                assert forall|q: int| 0 <= q < inn && q < nm.len() implies nm[q].0 != k by {
                    let x = last->0;
                    lemma_name_lt_asym(x, k);
                    if name_lt(nm[q].0, x) {
                        lemma_name_lt_trans(nm[q].0, x, k);
                        lemma_name_lt_asym(nm[q].0, k);
                    }
                }
                lemma_value_at_absent(om, k, 0, io);
                lemma_value_at_absent(nm, k, 0, inn);
            }
        },
        Some(k0) => {
            assert(least(least(head(om, io), head(nm, inn)), None) == Some(k0));
            lemma_least_heads(head(om, io), head(nm, inn), None, k0);
            if let Some(x) = last {
                if head(om, io) == Some(k0) {
                    assert(name_lt(x, om[io].0));
                } else {
                    assert(name_lt(x, nm[inn].0));
                }
            }
            lemma_list_step(om, io, last, k0);
            lemma_list_step(nm, inn, last, k0);
            let ho = 0 <= io < om.len() && om[io].0 == k0;
            let hn = 0 <= inn < nm.len() && nm[inn].0 == k0;
            let c = child_path(path, k0);
            let here = if ho && hn {
                diff_spec(c, om[io].1, nm[inn].1)
            } else if !hn {
                seq![ChangeSpec::Removed(c, om[io].1)]
            } else {
                seq![ChangeSpec::Added(c, nm[inn].1)]
            };
            let nio = if ho { io + 1 } else { io };
            let ninn = if hn { inn + 1 } else { inn };
            lemma_diff_walk_complete(path, om, nm, nio, ninn, Some(k0));
            let rest = diff_entries(path, om, nm, nio, ninn);
            assert(s == here + rest);
            assert forall|k: Seq<char>| (last matches Some(x) ==> name_lt(x, k)) implies #[trigger] complete_at(
                path,
                om,
                nm,
                k,
                s,
            ) by {
                if k == k0 {
                    if ho && hn {
                        assert(value_at(om, k, 0) == Some(om[io].1));
                        assert(value_at(nm, k, 0) == Some(nm[inn].1));
                        assert(s.subrange(0, 0 + here.len() as int) =~= here);
                        assert(reports_all(s, diff_spec(child_path(path, k), om[io].1, nm[inn].1)));
                    } else if !hn {
                        assert(value_at(om, k, 0) == Some(om[io].1));
                        assert(value_at(nm, k, 0) is None);
                        assert(s[0] == here[0]);
                        assert(reports(s, ChangeSpec::Removed(child_path(path, k), om[io].1)));
                    } else {
                        assert(value_at(nm, k, 0) == Some(nm[inn].1));
                        assert(value_at(om, k, 0) is None);
                        assert(s[0] == here[0]);
                        assert(reports(s, ChangeSpec::Added(child_path(path, k), nm[inn].1)));
                    }
                } else if name_lt(k0, k) {
                    lemma_reports_after(here, rest, path, om, nm, k);
                } else {
                    lemma_name_lt_total(k0, k);
                    lemma_list_absent(om, io, last, k0, k);
                    lemma_list_absent(nm, inn, last, k0, k);
                }
            }
        },
    }
}

/// Every difference between two objects is reported: under each key, a key
/// only in the new object is reported added with its value, one only in the
/// old object removed with its value, and for a key in both, the changes
/// between its two values are reported, in one piece, among the objects'
/// changes (so, level by level, every differing key path is reached).
pub proof fn lemma_diff_complete(base: Seq<char>, om: Seq<(Seq<char>, Json)>, nm: Seq<(Seq<char>, Json)>, k: Seq<char>)
    requires
        sorted_keys(om),
        sorted_keys(nm),
    ensures
        complete_at(base, om, nm, k, diff_spec(base, Json::Object(om), Json::Object(nm))),
{
    let o = Json::Object(om);
    let n = Json::Object(nm);
    if json_eq(o, n) {
        lemma_value_at_eq(om, nm, k, 0);
        if let (Some(a), Some(b)) = (value_at(om, k, 0), value_at(nm, k, 0)) {
            lemma_diff_empty_iff_equal(child_path(base, k), a, b);
            let s = diff_spec(base, o, n);
            let d = diff_spec(child_path(base, k), a, b);
            assert(json_eq(a, b));
            assert(d.len() == 0);
            assert(s.subrange(0, 0 + d.len() as int) =~= d);
        }
    } else {
        assert(diff_spec(base, o, n) == diff_entries(base, om, nm, 0, 0));
        assert(frontier(om, 0, None) && frontier(nm, 0, None));
        lemma_diff_walk_complete(base, om, nm, 0, 0, None);
        assert(complete_at(base, om, nm, k, diff_entries(base, om, nm, 0, 0)));
    }
}

/// Computes the structural diff from `old` to `new`: exactly [`diff_spec`] at
/// the root.
pub fn diff(old: &JsonValue, new: &JsonValue) -> (r: Vec<Change>)
    ensures
        change_views(r@) == diff_spec(Seq::empty(), old@, new@),
{
    let mut out: Vec<Change> = Vec::new();
    let root = String::new();
    diff_into(&root, old, new, &mut out);
    proof {
        assert(change_views(out@) =~= Seq::<ChangeSpec>::empty() + diff_spec(Seq::empty(), old@, new@));
    }
    out
}

/// Appends the changes at `path` ([`diff_spec`]).
fn diff_into(path: &String, before: &JsonValue, after: &JsonValue, out: &mut Vec<Change>)
    ensures
        change_views(final(out)@) == change_views(old(out)@) + diff_spec(path@, before@, after@),
    decreases json_size(before@) + json_size(after@), 1nat,
{
    if json_equal(before, after) {
        proof {
            assert(change_views(out@) =~= change_views(out@) + Seq::<ChangeSpec>::empty());
        }
        return;
    }
    match (before, after) {
        (JsonValue::Object(o), JsonValue::Object(n)) => diff_objects(path, o, n, out),
        _ => {
            let ghost start = change_views(out@);
            let c = Change::Changed { path: path.clone(), old: copy_json(before), new: copy_json(after) };
            out.push(c);
            proof {
                assert(change_views(out@) =~= start.push(c@));
                assert(start.push(c@) =~= start + seq![c@]);
            }
        },
    }
}

/// The path of key `k` below `path` ([`child_path`]).
fn child_path_exec(path: &String, k: &String) -> (r: String)
    ensures
        r@ == child_path(path@, k@),
{
    if path.as_str().is_empty() {
        k.clone()
    } else {
        let mut c = path.clone();
        push_str(&mut c, ".");
        push_str(&mut c, k.as_str());
        c
    }
}

/// Appends the changes between two objects' entries ([`diff_entries`]).
fn diff_objects(path: &String, om: &Vec<(String, JsonValue)>, nm: &Vec<(String, JsonValue)>, out: &mut Vec<Change>)
    ensures
        change_views(final(out)@) == change_views(old(out)@) + diff_entries(path@, ev(*om), ev(*nm), 0, 0),
    decreases entries_size(ev(*om), 0) + entries_size(ev(*nm), 0) + 1, 0nat,
{
    let ghost o = ev(*om);
    let ghost n = ev(*nm);
    let ghost start = change_views(out@);
    proof {
        lemma_entries_of(*om, om@.len());
        lemma_entries_of(*nm, nm@.len());
        assert(start =~= start + Seq::<ChangeSpec>::empty());
    }
    let mut io: usize = 0;
    let mut inn: usize = 0;
    while io < om.len() || inn < nm.len()
        invariant
            o == ev(*om),
            n == ev(*nm),
            o.len() == om@.len(),
            n.len() == nm@.len(),
            forall|k: int| 0 <= k < om@.len() ==> #[trigger] o[k] == (om@[k].0@, json_of(om@[k].1)),
            forall|k: int| 0 <= k < nm@.len() ==> #[trigger] n[k] == (nm@[k].0@, json_of(nm@[k].1)),
            io <= om@.len(),
            inn <= nm@.len(),
            start + diff_entries(path@, o, n, 0, 0) == change_views(out@) + diff_entries(
                path@,
                o,
                n,
                io as int,
                inn as int,
            ),
        decreases om.len() - io + nm.len() - inn,
    {
        let k = if io < om.len() {
            if inn < nm.len() && str_lt(nm[inn].0.as_str(), om[io].0.as_str()) {
                &nm[inn].0
            } else {
                &om[io].0
            }
        } else {
            &nm[inn].0
        };
        let ho = io < om.len() && str_eq(om[io].0.as_str(), k.as_str());
        let hn = inn < nm.len() && str_eq(nm[inn].0.as_str(), k.as_str());
        let c = child_path_exec(path, k);
        let ghost mid = change_views(out@);
        if ho && hn {
            proof {
                lemma_entries_size(o, 0, io as int);
                lemma_entries_size(n, 0, inn as int);
            }
            diff_into(&c, &om[io].1, &nm[inn].1, out);
        } else if hn {
            let ch = Change::Added { path: c, value: copy_json(&nm[inn].1) };
            out.push(ch);
            proof {
                assert(change_views(out@) =~= mid + seq![ch@]);
            }
        } else {
            let ch = Change::Removed { path: c, value: copy_json(&om[io].1) };
            out.push(ch);
            proof {
                assert(change_views(out@) =~= mid + seq![ch@]);
            }
        }
        if ho {
            io += 1;
        }
        if hn {
            inn += 1;
        }
    }
    proof {
        assert(diff_entries(path@, o, n, io as int, inn as int) =~= Seq::<ChangeSpec>::empty());
        assert(change_views(out@) + Seq::<ChangeSpec>::empty() =~= change_views(out@));
    }
}

// ─── Rendering ───────────────────────────────────────────────────────────────

/// How a path is shown: `(root)` for the root.
pub open spec fn path_label(path: Seq<char>) -> Seq<char> {
    if path.len() == 0 {
        "(root)"@
    } else {
        path
    }
}

/// The lowercase hex digit of `d < 16`.
pub open spec fn hex_char(d: nat) -> char {
    if d < 10 {
        (48 + d) as char
    } else {
        (87 + d) as char
    }
}

/// One character inside a JSON string: quote, backslash and control
/// characters escaped (the short forms where JSON has them, else `\u00XX`).
pub open spec fn escape_char(c: char) -> Seq<char> {
    if c == '"' {
        seq!['\\', '"']
    } else if c == '\\' {
        seq!['\\', '\\']
    } else if c == '\n' {
        seq!['\\', 'n']
    } else if c == '\r' {
        seq!['\\', 'r']
    } else if c == '\t' {
        seq!['\\', 't']
    } else if c == '\u{8}' {
        seq!['\\', 'b']
    } else if c == '\u{c}' {
        seq!['\\', 'f']
    } else if (c as u32) < 0x20 {
        seq!['\\', 'u', '0', '0', hex_char((c as u32 / 16) as nat), hex_char((c as u32 % 16) as nat)]
    } else {
        seq![c]
    }
}

/// The characters of a JSON string, escaped.
pub open spec fn escape(s: Seq<char>) -> Seq<char>
    decreases s.len(),
{
    if s.len() == 0 {
        Seq::empty()
    } else {
        escape(s.drop_last()) + escape_char(s.last())
    }
}

/// A JSON string literal.
pub open spec fn quoted(s: Seq<char>) -> Seq<char> {
    seq!['"'] + escape(s) + seq!['"']
}

/// The compact one-line JSON text of a value: no white space, `,` between
/// items and entries, `:` after keys; floats as their rendering.
pub open spec fn compact(j: Json) -> Seq<char>
    decreases j, 1nat, 0nat,
{
    match j {
        Json::Null => "null"@,
        Json::Bool(b) => if b {
            "true"@
        } else {
            "false"@
        },
        Json::PosInt(n) => decimal(n as nat),
        Json::NegInt(n) => if n < 0 {
            seq!['-'] + decimal((-n) as nat)
        } else {
            decimal(n as nat)
        },
        Json::Float(_, text) => text,
        Json::Str(s) => quoted(s),
        Json::Array(xs) => seq!['['] + compact_items(xs, xs.len()) + seq![']'],
        Json::Object(es) => seq!['{'] + compact_entries(es, es.len()) + seq!['}'],
    }
}

/// The first `k` items, comma-separated.
pub open spec fn compact_items(xs: Seq<Json>, k: nat) -> Seq<char>
    decreases xs, 0nat, k,
{
    if k == 0 || k > xs.len() {
        Seq::empty()
    } else if k == 1 {
        compact(xs[0])
    } else {
        compact_items(xs, (k - 1) as nat) + seq![','] + compact(xs[k - 1])
    }
}

/// The first `k` entries as `"key":value`, comma-separated.
pub open spec fn compact_entries(es: Seq<(Seq<char>, Json)>, k: nat) -> Seq<char>
    decreases es, 0nat, k,
{
    if k == 0 || k > es.len() {
        Seq::empty()
    } else {
        proof {
            assert(decreases_to!(es => es[k - 1]));
            assert(decreases_to!(es[k - 1] => es[k - 1].1));
        }
        let e = if k == 1 {
            Seq::empty()
        } else {
            compact_entries(es, (k - 1) as nat) + seq![',']
        };
        e + quoted(es[k - 1].0) + seq![':'] + compact(es[k - 1].1)
    }
}

/// One change as a line: `+ path: value`, `- path: value`, or
/// `~ path: old -> new`.
#[verifier::opaque]
pub open spec fn render_change(c: ChangeSpec) -> Seq<char> {
    match c {
        ChangeSpec::Added(p, v) => "+ "@ + path_label(p) + ": "@ + compact(v) + "\n"@,
        ChangeSpec::Removed(p, v) => "- "@ + path_label(p) + ": "@ + compact(v) + "\n"@,
        ChangeSpec::Changed(p, o, n) => "~ "@ + path_label(p) + ": "@ + compact(o) + " -> "@ + compact(n)
            + "\n"@,
    }
}

/// The changes as lines, in order.
pub open spec fn render_changes(cs: Seq<ChangeSpec>) -> Seq<char>
    decreases cs.len(),
{
    if cs.len() == 0 {
        Seq::empty()
    } else {
        render_changes(cs.drop_last()) + render_change(cs.last())
    }
}

/// How a path is shown ([`path_label`]).
fn label(path: &str) -> (r: &str)
    ensures
        r@ == path_label(path@),
{
    if path.is_empty() {
        "(root)"
    } else {
        path
    }
}

/// The lowercase hex digit of `d < 16` ([`hex_char`]).
fn hex_char_exec(d: u32) -> (c: char)
    requires
        d < 16,
    ensures
        c == hex_char(d as nat),
{
    if d < 10 {
        ((48 + d) as u8) as char
    } else {
        ((87 + d) as u8) as char
    }
}

/// Appends a JSON string literal ([`quoted`]).
fn push_quoted(out: &mut String, s: &str)
    ensures
        final(out)@ == old(out)@ + quoted(s@),
{
    let cs = chars_vec(s);
    let ghost start = out@;
    push_char(out, '"');
    let mut i: usize = 0;
    proof {
        assert(cs@.take(0) =~= Seq::<char>::empty());
    }
    while i < cs.len()
        invariant
            i <= cs@.len(),
            cs@ == s@,
            out@ == start + seq!['"'] + escape(cs@.take(i as int)),
        decreases cs.len() - i,
    {
        let c = cs[i];
        let ghost before = out@;
        if c == '"' {
            push_char(out, '\\');
            push_char(out, '"');
        } else if c == '\\' {
            push_char(out, '\\');
            push_char(out, '\\');
        } else if c == '\n' {
            push_char(out, '\\');
            push_char(out, 'n');
        } else if c == '\r' {
            push_char(out, '\\');
            push_char(out, 'r');
        } else if c == '\t' {
            push_char(out, '\\');
            push_char(out, 't');
        } else if c == '\u{8}' {
            push_char(out, '\\');
            push_char(out, 'b');
        } else if c == '\u{c}' {
            push_char(out, '\\');
            push_char(out, 'f');
        } else if (c as u32) < 0x20 {
            push_char(out, '\\');
            push_char(out, 'u');
            push_char(out, '0');
            push_char(out, '0');
            push_char(out, hex_char_exec(c as u32 / 16));
            push_char(out, hex_char_exec(c as u32 % 16));
        } else {
            push_char(out, c);
        }
        proof {
            assert(out@ =~= before + escape_char(c));
            assert(cs@.take(i + 1).drop_last() =~= cs@.take(i as int));
        }
        i += 1;
    }
    proof {
        assert(cs@.take(cs@.len() as int) =~= cs@);
    }
    push_char(out, '"');
}

/// Appends the compact text of a value ([`compact`]).
#[verifier::rlimit(40)]
fn push_compact(out: &mut String, v: &JsonValue)
    ensures
        final(out)@ == old(out)@ + compact(v@),
    decreases v,
{
    match v {
        JsonValue::Null => push_str(out, "null"),
        JsonValue::Bool(b) => if *b {
            push_str(out, "true")
        } else {
            push_str(out, "false")
        },
        JsonValue::PosInt(n) => push_decimal(out, *n),
        JsonValue::NegInt(n) => {
            if *n < 0 {
                push_char(out, '-');
                let m: u64 = if *n == i64::MIN {
                    0x8000_0000_0000_0000
                } else {
                    (-*n) as u64
                };
                push_decimal(out, m);
            } else {
                push_decimal(out, *n as u64);
            }
        },
        JsonValue::Float(_, text) => push_str(out, text.as_str()),
        JsonValue::Str(s) => push_quoted(out, s.as_str()),
        JsonValue::Array(xs) => {
            let ghost start = out@;
            push_char(out, '[');
            proof {
                lemma_items_of(*xs, xs@.len());
            }
            let ghost items = items_of(*xs, xs@.len());
            let mut i: usize = 0;
            while i < xs.len()
                invariant
                    *v == JsonValue::Array(*xs),
                    i <= xs@.len(),
                    items == items_of(*xs, xs@.len()),
                    items.len() == xs@.len(),
                    forall|k: int| 0 <= k < xs@.len() ==> #[trigger] items[k] == json_of(xs@[k]),
                    out@ == start + seq!['['] + compact_items(items, i as nat),
                decreases xs.len() - i,
            {
                if i > 0 {
                    push_char(out, ',');
                }
                proof {
                    assert(decreases_to!(*v => v->Array_0));
                    assert(decreases_to!(*xs => xs@));
                    assert(decreases_to!(xs@ => xs@[i as int]));
                }
                push_compact(out, &xs[i]);
                i += 1;
            }
            push_char(out, ']');
        },
        JsonValue::Object(es) => {
            let ghost start = out@;
            push_char(out, '{');
            proof {
                lemma_entries_of(*es, es@.len());
            }
            let ghost ents = entries_of(*es, es@.len());
            let mut i: usize = 0;
            while i < es.len()
                invariant
                    *v == JsonValue::Object(*es),
                    i <= es@.len(),
                    ents == entries_of(*es, es@.len()),
                    ents.len() == es@.len(),
                    forall|k: int| 0 <= k < es@.len() ==> #[trigger] ents[k] == (es@[k].0@, json_of(es@[k].1)),
                    out@ == start + seq!['{'] + compact_entries(ents, i as nat),
                decreases es.len() - i,
            {
                if i > 0 {
                    push_char(out, ',');
                }
                push_quoted(out, es[i].0.as_str());
                push_char(out, ':');
                proof {
                    assert(decreases_to!(*v => v->Object_0));
                    assert(decreases_to!(*es => es@));
                    assert(decreases_to!(es@ => es@[i as int]));
                    assert(decreases_to!(es@[i as int] => es@[i as int].1));
                }
                push_compact(out, &es[i].1);
                i += 1;
            }
            push_char(out, '}');
        },
    }
}

/// Appends one change as a line ([`render_change`]).
fn push_change(s: &mut String, c: &Change)
    ensures
        final(s)@ == old(s)@ + render_change(c@),
{
    reveal(render_change);
        match c {
            Change::Added { path, value } => {
                push_str(s, "+ ");
                push_str(s, label(path.as_str()));
                push_str(s, ": ");
                push_compact(s, value);
                push_str(s, "\n");
            },
            Change::Removed { path, value } => {
                push_str(s, "- ");
                push_str(s, label(path.as_str()));
                push_str(s, ": ");
                push_compact(s, value);
                push_str(s, "\n");
            },
            Change::Changed { path, old, new } => {
                push_str(s, "~ ");
                push_str(s, label(path.as_str()));
                push_str(s, ": ");
                push_compact(s, old);
                push_str(s, " -> ");
                push_compact(s, new);
                push_str(s, "\n");
            },
        }
}

/// Renders a structural diff as deterministic, human-readable text
/// ([`render_changes`]).
pub fn render(changes: &[Change]) -> (r: String)
    ensures
        r@ == render_changes(change_views(changes@)),
{
    let mut s = String::new();
    let mut i: usize = 0;
    while i < changes.len()
        invariant
            i <= changes@.len(),
            s@ == render_changes(change_views(changes@.take(i as int))),
        decreases changes.len() - i,
    {
        let ghost before = s@;
        push_change(&mut s, &changes[i]);
        proof {
            let v = change_views(changes@.take(i + 1));
            assert(v.drop_last() =~= change_views(changes@.take(i as int)));
            assert(v.last() == changes@[i as int]@);
            assert(s@ =~= before + render_change(changes@[i as int]@));
        }
        i += 1;
    }
    proof {
        assert(changes@.take(changes@.len() as int) =~= changes@);
    }
    s
}

} // verus!
