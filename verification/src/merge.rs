//! Structural 3-way merge for JSON.
//!
//! [`merge3`] merges two JSON values against their common base by structure,
//! not by text lines: edits or additions to different object keys never
//! conflict, even when they land on adjacent lines; only a genuine same-key
//! divergence does. The rule, with object keys taken as present or absent so
//! that adding, deleting and editing are one case:
//!
//! ```text
//! merge3(base, ours, theirs):
//!   ours == theirs              -> Clean(ours)      (same change, or no change)
//!   base == ours                -> Clean(theirs)    (only theirs changed)
//!   base == theirs              -> Clean(ours)      (only ours changed)
//!   all three are objects       -> merge key by key; any key conflict -> Conflict
//!   otherwise                   -> Conflict
//! ```
//!
//! Arrays are compared whole: an array changed on both sides conflicts.

use vstd::prelude::*;
use crate::json::{
    copy_json, entries_of, entries_size, json_eq, json_equal, json_of, json_size, lemma_entries_of,
    lemma_entries_size, lemma_json_eq_refl, lemma_json_eq_sym, lemma_json_eq_trans, sorted_keys, Json, JsonValue,
};
use crate::text::{lemma_bytes_lt_irrefl, lemma_bytes_lt_trans, lemma_name_lt_total, name_lt, str_eq, str_lt};
use vstd::utf8::encode_utf8;

verus! {

/// Outcome of a structural 3-way merge.
#[derive(Debug, Clone, PartialEq, Eq)]
pub enum Merge3 {
    /// A clean merge producing this value.
    Clean(JsonValue),
    /// The sides diverged irreconcilably.
    Conflict,
}

/// Outcome of a merge, as a mathematical value.
pub enum Merged {
    Clean(Json),
    Conflict,
}

impl View for Merge3 {
    type V = Merged;

    open spec fn view(&self) -> Merged {
        match self {
            Merge3::Clean(v) => Merged::Clean(v@),
            Merge3::Conflict => Merged::Conflict,
        }
    }
}

/// Equality of possibly absent values: both absent, or both present and equal.
pub open spec fn opt_eq(a: Option<Json>, b: Option<Json>) -> bool {
    match a {
        None => b is None,
        Some(x) => b matches Some(y) && json_eq(x, y),
    }
}

/// The present value, as a clean outcome.
pub open spec fn clean_of(a: Option<Json>) -> Option<Merged> {
    match a {
        Some(v) => Some(Merged::Clean(v)),
        None => None,
    }
}

/// The key of the entry at `i`, if there is one.
pub open spec fn head(es: Seq<(Seq<char>, Json)>, i: int) -> Option<Seq<char>> {
    if 0 <= i < es.len() {
        Some(es[i].0)
    } else {
        None
    }
}

/// The lesser of two possibly absent keys.
pub open spec fn least(a: Option<Seq<char>>, b: Option<Seq<char>>) -> Option<Seq<char>> {
    match a {
        None => b,
        Some(x) => match b {
            None => a,
            Some(y) => if name_lt(y, x) {
                b
            } else {
                a
            },
        },
    }
}

/// The 3-way merge of three values.
pub open spec fn merge3_spec(b: Json, o: Json, t: Json) -> Merged
    decreases json_size(b) + json_size(o) + json_size(t),
{
    if json_eq(o, t) {
        Merged::Clean(o)
    } else if json_eq(b, o) {
        Merged::Clean(t)
    } else if json_eq(b, t) {
        Merged::Clean(o)
    } else {
        match b {
            Json::Object(bm) => match o {
                Json::Object(om) => match t {
                    Json::Object(tm) => merge_entries(bm, om, tm, 0, 0, 0),
                    _ => Merged::Conflict,
                },
                _ => Merged::Conflict,
            },
            _ => Merged::Conflict,
        }
    }
}

/// The key-by-key merge of three objects' entries from the given positions
/// on: keys are taken in increasing order across the three; for each, the
/// same rule as [`merge3_spec`] decides with absent values, recursing when the
/// key is present in all three; the result is an object of the keys that stay
/// present, or a conflict when any key conflicts.
pub open spec fn merge_entries(
    bm: Seq<(Seq<char>, Json)>,
    om: Seq<(Seq<char>, Json)>,
    tm: Seq<(Seq<char>, Json)>,
    ib: int,
    io: int,
    it: int,
) -> Merged
    decreases entries_size(bm, ib) + entries_size(om, io) + entries_size(tm, it),
{
    match least(least(head(bm, ib), head(om, io)), head(tm, it)) {
        None => Merged::Clean(Json::Object(Seq::empty())),
        Some(k) => {
            let hb = 0 <= ib < bm.len() && bm[ib].0 == k;
            let ho = 0 <= io < om.len() && om[io].0 == k;
            let ht = 0 <= it < tm.len() && tm[it].0 == k;
            let bv = if hb {
                Some(bm[ib].1)
            } else {
                None
            };
            let ov = if ho {
                Some(om[io].1)
            } else {
                None
            };
            let tv = if ht {
                Some(tm[it].1)
            } else {
                None
            };
            let here = if opt_eq(ov, tv) {
                clean_of(ov)
            } else if opt_eq(bv, ov) {
                clean_of(tv)
            } else if opt_eq(bv, tv) {
                clean_of(ov)
            } else if hb && ho && ht {
                Some(merge3_spec(bm[ib].1, om[io].1, tm[it].1))
            } else {
                Some(Merged::Conflict)
            };
            let rest = merge_entries(
                bm,
                om,
                tm,
                if hb {
                    ib + 1
                } else {
                    ib
                },
                if ho {
                    io + 1
                } else {
                    io
                },
                if ht {
                    it + 1
                } else {
                    it
                },
            );
            match here {
                Some(Merged::Conflict) => Merged::Conflict,
                Some(Merged::Clean(v)) => match rest {
                    Merged::Clean(Json::Object(es)) => Merged::Clean(Json::Object(seq![(k, v)] + es)),
                    _ => Merged::Conflict,
                },
                None => rest,
            }
        },
    }
}

/// The entries of an object value as plain values.
pub open spec fn ev(es: Vec<(String, JsonValue)>) -> Seq<(Seq<char>, Json)> {
    entries_of(es, es@.len())
}

/// Prepends entries to the object of a clean outcome.
pub open spec fn prepend(acc: Seq<(Seq<char>, Json)>, m: Merged) -> Merged {
    match m {
        Merged::Clean(Json::Object(es)) => Merged::Clean(Json::Object(acc + es)),
        _ => Merged::Conflict,
    }
}

/// A key-by-key merge is a conflict or an object.
pub proof fn lemma_merge_entries_shape(
    bm: Seq<(Seq<char>, Json)>,
    om: Seq<(Seq<char>, Json)>,
    tm: Seq<(Seq<char>, Json)>,
    ib: int,
    io: int,
    it: int,
)
    ensures
        merge_entries(bm, om, tm, ib, io, it) is Conflict || merge_entries(bm, om, tm, ib, io, it) matches Merged::Clean(
            Json::Object(_),
        ),
    decreases entries_size(bm, ib) + entries_size(om, io) + entries_size(tm, it),
{
    match least(least(head(bm, ib), head(om, io)), head(tm, it)) {
        None => {},
        Some(k) => {
            let hb = 0 <= ib < bm.len() && bm[ib].0 == k;
            let ho = 0 <= io < om.len() && om[io].0 == k;
            let ht = 0 <= it < tm.len() && tm[it].0 == k;
            lemma_merge_entries_shape(
                bm,
                om,
                tm,
                if hb {
                    ib + 1
                } else {
                    ib
                },
                if ho {
                    io + 1
                } else {
                    io
                },
                if ht {
                    it + 1
                } else {
                    it
                },
            );
        },
    }
}

/// The key of the entry at `i`, if there is one.
fn head_exec<'a>(es: &'a Vec<(String, JsonValue)>, i: usize) -> (r: Option<&'a String>)
    ensures
        match head(ev(*es), i as int) {
            Some(k) => r matches Some(s) && s@ == k,
            None => r is None,
        },
{
    proof {
        lemma_entries_of(*es, es@.len());
    }
    if i < es.len() {
        Some(&es[i].0)
    } else {
        None
    }
}

/// The lesser of two possibly absent keys ([`least`]).
fn least_exec<'a>(a: Option<&'a String>, b: Option<&'a String>) -> (r: Option<&'a String>)
    ensures
        match least(
            match a {
                Some(x) => Some(x@),
                None => None,
            },
            match b {
                Some(x) => Some(x@),
                None => None,
            },
        ) {
            Some(k) => r matches Some(s) && s@ == k,
            None => r is None,
        },
{
    match a {
        None => b,
        Some(x) => match b {
            None => a,
            Some(y) => if str_lt(y.as_str(), x.as_str()) {
                b
            } else {
                a
            },
        },
    }
}

/// The present value, copied, as a clean outcome ([`clean_of`]).
fn clean_exec(v: Option<&JsonValue>) -> (r: Option<Merge3>)
    ensures
        match v {
            Some(x) => r matches Some(m) && m@ == Merged::Clean(x@),
            None => r is None,
        },
{
    match v {
        Some(x) => Some(Merge3::Clean(copy_json(x))),
        None => None,
    }
}

/// Equality of possibly absent values ([`opt_eq`]).
fn opt_equal(a: Option<&JsonValue>, b: Option<&JsonValue>) -> (r: bool)
    ensures
        r == opt_eq(
            match a {
                Some(x) => Some(x@),
                None => None,
            },
            match b {
                Some(x) => Some(x@),
                None => None,
            },
        ),
{
    match a {
        None => b.is_none(),
        Some(x) => match b {
            Some(y) => json_equal(x, y),
            None => false,
        },
    }
}

/// 3-way merge of `ours` and `theirs` against their common `base`: exactly
/// [`merge3_spec`].
pub fn merge3(base: &JsonValue, ours: &JsonValue, theirs: &JsonValue) -> (r: Merge3)
    ensures
        r@ == merge3_spec(base@, ours@, theirs@),
    decreases json_size(base@) + json_size(ours@) + json_size(theirs@), 1nat,
{
    if json_equal(ours, theirs) {
        return Merge3::Clean(copy_json(ours));
    }
    if json_equal(base, ours) {
        return Merge3::Clean(copy_json(theirs));
    }
    if json_equal(base, theirs) {
        return Merge3::Clean(copy_json(ours));
    }
    match (base, ours, theirs) {
        (JsonValue::Object(b), JsonValue::Object(o), JsonValue::Object(t)) => merge_objects(b, o, t),
        _ => Merge3::Conflict,
    }
}

/// Key-by-key merge of three objects ([`merge_entries`]).
fn merge_objects(bm: &Vec<(String, JsonValue)>, om: &Vec<(String, JsonValue)>, tm: &Vec<(String, JsonValue)>) -> (r:
    Merge3)
    ensures
        r@ == merge_entries(ev(*bm), ev(*om), ev(*tm), 0, 0, 0),
    decreases entries_size(ev(*bm), 0) + entries_size(ev(*om), 0) + entries_size(ev(*tm), 0) + 1, 0nat,
{
    let ghost b = ev(*bm);
    let ghost o = ev(*om);
    let ghost t = ev(*tm);
    proof {
        lemma_entries_of(*bm, bm@.len());
        lemma_entries_of(*om, om@.len());
        lemma_entries_of(*tm, tm@.len());
    }
    let mut acc: Vec<(String, JsonValue)> = Vec::new();
    let mut ib: usize = 0;
    let mut io: usize = 0;
    let mut it: usize = 0;
    proof {
        assert(ev(acc) =~= Seq::<(Seq<char>, Json)>::empty());
        lemma_merge_entries_shape(b, o, t, 0, 0, 0);
        match merge_entries(b, o, t, 0, 0, 0) {
            Merged::Clean(Json::Object(es)) => {
                assert(Seq::<(Seq<char>, Json)>::empty() + es =~= es);
            },
            _ => {},
        }
    }
    loop
        invariant
            b == ev(*bm),
            o == ev(*om),
            t == ev(*tm),
            b.len() == bm@.len(),
            o.len() == om@.len(),
            t.len() == tm@.len(),
            forall|k: int| 0 <= k < bm@.len() ==> #[trigger] b[k] == (bm@[k].0@, json_of(bm@[k].1)),
            forall|k: int| 0 <= k < om@.len() ==> #[trigger] o[k] == (om@[k].0@, json_of(om@[k].1)),
            forall|k: int| 0 <= k < tm@.len() ==> #[trigger] t[k] == (tm@[k].0@, json_of(tm@[k].1)),
            ib <= bm@.len(),
            io <= om@.len(),
            it <= tm@.len(),
            merge_entries(b, o, t, 0, 0, 0) == prepend(
                ev(acc),
                merge_entries(b, o, t, ib as int, io as int, it as int),
            ),
        decreases bm.len() - ib + om.len() - io + tm.len() - it,
    {
        let k = match least_exec(least_exec(head_exec(bm, ib), head_exec(om, io)), head_exec(tm, it)) {
            Some(k) => k,
            None => {
                proof {
                    lemma_entries_of(acc, acc@.len());
                    assert(ev(acc) + Seq::<(Seq<char>, Json)>::empty() =~= ev(acc));
                }
                return Merge3::Clean(JsonValue::Object(acc));
            },
        };
        let hb = ib < bm.len() && str_eq(bm[ib].0.as_str(), k.as_str());
        let ho = io < om.len() && str_eq(om[io].0.as_str(), k.as_str());
        let ht = it < tm.len() && str_eq(tm[it].0.as_str(), k.as_str());
        let bv = if hb {
            Some(&bm[ib].1)
        } else {
            None
        };
        let ov = if ho {
            Some(&om[io].1)
        } else {
            None
        };
        let tv = if ht {
            Some(&tm[it].1)
        } else {
            None
        };
        let here = if opt_equal(ov, tv) {
            clean_exec(ov)
        } else if opt_equal(bv, ov) {
            clean_exec(tv)
        } else if opt_equal(bv, tv) {
            clean_exec(ov)
        } else if hb && ho && ht {
            proof {
                lemma_entries_size(b, 0, ib as int);
                lemma_entries_size(o, 0, io as int);
                lemma_entries_size(t, 0, it as int);
            }
            Some(merge3(&bm[ib].1, &om[io].1, &tm[it].1))
        } else {
            Some(Merge3::Conflict)
        };
        let ghost key = k@;
        match here {
            Some(Merge3::Conflict) => {
                return Merge3::Conflict;
            },
            Some(Merge3::Clean(v)) => {
                proof {
                    lemma_entries_of(acc, acc@.len());
                }
                let ghost before = ev(acc);
                let ghost old_acc = acc@;
                acc.push((k.clone(), v));
                proof {
                    lemma_entries_of(acc, acc@.len());
                    assert(ev(acc) =~= before.push((key, v@)));
                    let nb: int = if hb { ib + 1 } else { ib as int };
                    let no: int = if ho { io + 1 } else { io as int };
                    let nt: int = if ht { it + 1 } else { it as int };
                    match merge_entries(b, o, t, nb, no, nt) {
                        Merged::Clean(Json::Object(es)) => {
                            assert(before + (seq![(key, v@)] + es) =~= before.push((key, v@)) + es);
                        },
                        _ => {},
                    }
                }
            },
            None => {},
        }
        if hb {
            ib += 1;
        }
        if ho {
            io += 1;
        }
        if ht {
            it += 1;
        }
    }
}

// ─── Laws ────────────────────────────────────────────────────────────────────

/// Whether two outcomes agree: both conflicts, or both clean with equal
/// values.
pub open spec fn same_outcome(a: Merged, b: Merged) -> bool {
    match a {
        Merged::Conflict => b is Conflict,
        Merged::Clean(x) => b matches Merged::Clean(y) && json_eq(x, y),
    }
}

/// Merging a value with itself on both sides gives it back, cleanly.
pub proof fn lemma_merge_idempotent(v: Json)
    ensures
        merge3_spec(v, v, v) == Merged::Clean(v),
{
    lemma_json_eq_refl(v);
}

/// When theirs is the base, the merge is ours.
pub proof fn lemma_merge_only_ours(b: Json, o: Json)
    ensures
        merge3_spec(b, o, b) == Merged::Clean(o),
{
    lemma_json_eq_refl(b);
    if json_eq(b, o) {
        lemma_json_eq_sym(b, o);
    }
}

/// When ours is the base, the merge is theirs (up to equality).
pub proof fn lemma_merge_only_theirs(b: Json, t: Json)
    ensures
        same_outcome(merge3_spec(b, b, t), Merged::Clean(t)),
{
    lemma_json_eq_refl(b);
    lemma_json_eq_refl(t);
}

/// When both sides made the same change, the merge is that change, cleanly.
pub proof fn lemma_merge_same_change(b: Json, v: Json)
    ensures
        merge3_spec(b, v, v) == Merged::Clean(v),
{
    lemma_json_eq_refl(v);
}

pub(crate) proof fn lemma_name_lt_asym(a: Seq<char>, b: Seq<char>)
    requires
        name_lt(a, b),
    ensures
        !name_lt(b, a),
        a != b,
{
    if name_lt(b, a) {
        lemma_bytes_lt_trans(encode_utf8(a), encode_utf8(b), encode_utf8(a));
        lemma_bytes_lt_irrefl(encode_utf8(a));
    }
    if a == b {
        lemma_bytes_lt_irrefl(encode_utf8(a));
    }
}

/// The least of three keys does not depend on the order of the last two.
proof fn lemma_least_swap(a: Option<Seq<char>>, b: Option<Seq<char>>, c: Option<Seq<char>>)
    ensures
        least(least(a, b), c) == least(least(a, c), b),
{
    match (a, b, c) {
        (Some(x), Some(y), Some(z)) => {
            if y != z {
                lemma_name_lt_total(y, z);
            }
            if x != y {
                lemma_name_lt_total(x, y);
            }
            if x != z {
                lemma_name_lt_total(x, z);
            }
            if name_lt(y, x) {
                lemma_name_lt_asym(y, x);
            }
            if name_lt(z, x) {
                lemma_name_lt_asym(z, x);
            }
            if name_lt(z, y) {
                lemma_name_lt_asym(z, y);
            }
            if name_lt(y, z) {
                lemma_name_lt_asym(y, z);
            }
            if name_lt(y, x) && name_lt(z, y) {
                lemma_bytes_lt_trans(encode_utf8(z), encode_utf8(y), encode_utf8(x));
            }
            if name_lt(z, x) && name_lt(y, z) {
                lemma_bytes_lt_trans(encode_utf8(y), encode_utf8(z), encode_utf8(x));
            }
            if name_lt(x, y) && name_lt(y, z) {
                lemma_bytes_lt_trans(encode_utf8(x), encode_utf8(y), encode_utf8(z));
            }
            if name_lt(x, z) && name_lt(z, y) {
                lemma_bytes_lt_trans(encode_utf8(x), encode_utf8(z), encode_utf8(y));
            }
        },
        (None, Some(y), Some(z)) => {
            if y != z {
                lemma_name_lt_total(y, z);
            }
            if name_lt(z, y) {
                lemma_name_lt_asym(z, y);
            }
        },
        _ => {},
    }
}

proof fn lemma_opt_eq_sym(a: Option<Json>, b: Option<Json>)
    requires
        opt_eq(a, b),
    ensures
        opt_eq(b, a),
{
    if a is Some {
        lemma_json_eq_sym(a->0, b->0);
    }
}

proof fn lemma_opt_eq_trans(a: Option<Json>, b: Option<Json>, c: Option<Json>)
    requires
        opt_eq(a, b),
        opt_eq(b, c),
    ensures
        opt_eq(a, c),
{
    if a is Some {
        lemma_json_eq_trans(a->0, b->0, c->0);
    }
}

/// Two objects that differ only in equal values are equal, also with one more
/// equal entry in front.
proof fn lemma_cons_eq(k: Seq<char>, v: Json, w: Json, es: Seq<(Seq<char>, Json)>, fs: Seq<(Seq<char>, Json)>)
    requires
        json_eq(v, w),
        json_eq(Json::Object(es), Json::Object(fs)),
    ensures
        json_eq(Json::Object(seq![(k, v)] + es), Json::Object(seq![(k, w)] + fs)),
{
    let a = seq![(k, v)] + es;
    let b = seq![(k, w)] + fs;
    assert forall|i: int| 0 <= i < a.len() implies (#[trigger] a[i]).0 == b[i].0 && json_eq(a[i].1, b[i].1) by {
        if i > 0 {
            assert(a[i] == es[i - 1]);
            assert(b[i] == fs[i - 1]);
        }
    }
}

/// Swapping ours and theirs in a key-by-key merge gives the same outcome.
pub proof fn lemma_merge_entries_symmetric(
    bm: Seq<(Seq<char>, Json)>,
    om: Seq<(Seq<char>, Json)>,
    tm: Seq<(Seq<char>, Json)>,
    ib: int,
    io: int,
    it: int,
)
    ensures
        same_outcome(merge_entries(bm, om, tm, ib, io, it), merge_entries(bm, tm, om, ib, it, io)),
    decreases entries_size(bm, ib) + entries_size(om, io) + entries_size(tm, it),
{
    lemma_least_swap(head(bm, ib), head(om, io), head(tm, it));
    match least(least(head(bm, ib), head(om, io)), head(tm, it)) {
        None => {
            lemma_json_eq_refl(Json::Object(Seq::empty()));
        },
        Some(k) => {
            let hb = 0 <= ib < bm.len() && bm[ib].0 == k;
            let ho = 0 <= io < om.len() && om[io].0 == k;
            let ht = 0 <= it < tm.len() && tm[it].0 == k;
            let bv = if hb {
                Some(bm[ib].1)
            } else {
                None
            };
            let ov = if ho {
                Some(om[io].1)
            } else {
                None
            };
            let tv = if ht {
                Some(tm[it].1)
            } else {
                None
            };
            let nb = if hb {
                ib + 1
            } else {
                ib
            };
            let no = if ho {
                io + 1
            } else {
                io
            };
            let nt = if ht {
                it + 1
            } else {
                it
            };
            lemma_merge_entries_symmetric(bm, om, tm, nb, no, nt);
            let here = if opt_eq(ov, tv) {
                clean_of(ov)
            } else if opt_eq(bv, ov) {
                clean_of(tv)
            } else if opt_eq(bv, tv) {
                clean_of(ov)
            } else if hb && ho && ht {
                Some(merge3_spec(bm[ib].1, om[io].1, tm[it].1))
            } else {
                Some(Merged::Conflict)
            };
            let there = if opt_eq(tv, ov) {
                clean_of(tv)
            } else if opt_eq(bv, tv) {
                clean_of(ov)
            } else if opt_eq(bv, ov) {
                clean_of(tv)
            } else if hb && ht && ho {
                Some(merge3_spec(bm[ib].1, tm[it].1, om[io].1))
            } else {
                Some(Merged::Conflict)
            };
            if opt_eq(ov, tv) {
                lemma_opt_eq_sym(ov, tv);
            } else {
                if opt_eq(tv, ov) {
                    lemma_opt_eq_sym(tv, ov);
                }
                if opt_eq(bv, ov) && opt_eq(bv, tv) {
                    lemma_opt_eq_sym(bv, ov);
                    lemma_opt_eq_trans(ov, bv, tv);
                }
                if hb && ho && ht && !opt_eq(bv, ov) && !opt_eq(bv, tv) {
                    lemma_entries_size(bm, ib, ib);
                    lemma_entries_size(om, io, io);
                    lemma_entries_size(tm, it, it);
                    lemma_merge_symmetric(bm[ib].1, om[io].1, tm[it].1);
                }
            }
            if ov is Some {
                lemma_json_eq_refl(ov->0);
            }
            if tv is Some {
                lemma_json_eq_refl(tv->0);
            }
            let rest = merge_entries(bm, om, tm, nb, no, nt);
            let rest2 = merge_entries(bm, tm, om, nb, nt, no);
            match here {
                Some(Merged::Clean(v)) => {
                    match there {
                        Some(Merged::Clean(w)) => {
                            match rest {
                                Merged::Clean(Json::Object(es)) => {
                                    match rest2 {
                                        Merged::Clean(Json::Object(fs)) => {
                                            lemma_cons_eq(k, v, w, es, fs);
                                        },
                                        _ => {},
                                    }
                                },
                                _ => {},
                            }
                        },
                        _ => {},
                    }
                },
                _ => {},
            }
            assert(merge_entries(bm, tm, om, ib, it, io) == match there {
                Some(Merged::Conflict) => Merged::Conflict,
                Some(Merged::Clean(v)) => match rest2 {
                    Merged::Clean(Json::Object(es)) => Merged::Clean(Json::Object(seq![(k, v)] + es)),
                    _ => Merged::Conflict,
                },
                None => rest2,
            });
        },
    }
}

/// Swapping ours and theirs gives the same outcome: both conflicts, or both
/// clean with equal values.
pub proof fn lemma_merge_symmetric(b: Json, o: Json, t: Json)
    ensures
        same_outcome(merge3_spec(b, o, t), merge3_spec(b, t, o)),
    decreases json_size(b) + json_size(o) + json_size(t),
{
    if json_eq(o, t) {
        lemma_json_eq_sym(o, t);
    } else {
        if json_eq(t, o) {
            lemma_json_eq_sym(t, o);
        }
        if json_eq(b, o) && json_eq(b, t) {
            lemma_json_eq_sym(b, o);
            lemma_json_eq_trans(o, b, t);
        }
        lemma_json_eq_refl(o);
        lemma_json_eq_refl(t);
        if !json_eq(b, o) && !json_eq(b, t) {
            match b {
                Json::Object(bm) => match o {
                    Json::Object(om) => match t {
                        Json::Object(tm) => {
                            lemma_merge_entries_symmetric(bm, om, tm, 0, 0, 0);
                        },
                        _ => {},
                    },
                    _ => {},
                },
                _ => {},
            }
        }
    }
}

// ─── Edits to different keys ─────────────────────────────────────────────────

/// The value under key `k` among the entries from index `i` on, if any.
pub open spec fn value_at(es: Seq<(Seq<char>, Json)>, k: Seq<char>, i: int) -> Option<Json>
    decreases es.len() - i,
{
    if i < 0 || i >= es.len() {
        None
    } else if es[i].0 == k {
        Some(es[i].1)
    } else {
        value_at(es, k, i + 1)
    }
}

/// Whether no key's value is changed differently on the two sides: ours keeps
/// the base's value under it, or theirs does, or both hold the same value
/// (absent counting as a value).
pub open spec fn compatible_edits(
    bm: Seq<(Seq<char>, Json)>,
    om: Seq<(Seq<char>, Json)>,
    tm: Seq<(Seq<char>, Json)>,
) -> bool {
    forall|k: Seq<char>|
        #![trigger value_at(bm, k, 0)]
        opt_eq(value_at(om, k, 0), value_at(bm, k, 0)) || opt_eq(value_at(tm, k, 0), value_at(bm, k, 0))
            || opt_eq(value_at(om, k, 0), value_at(tm, k, 0))
}

/// The keys before `p` sort at or before `last`, and those from `p` on after it.
pub(crate) open spec fn frontier(l: Seq<(Seq<char>, Json)>, p: int, last: Option<Seq<char>>) -> bool {
    &&& forall|i: int| 0 <= i < p ==> (last matches Some(x) && (#[trigger] l[i].0 == x || name_lt(l[i].0, x)))
    &&& forall|q: int| p <= q < l.len() ==> (last matches Some(x) ==> name_lt(x, #[trigger] l[q].0))
}

pub(crate) proof fn lemma_name_lt_trans(a: Seq<char>, b: Seq<char>, c: Seq<char>)
    requires
        name_lt(a, b),
        name_lt(b, c),
    ensures
        name_lt(a, c),
{
    lemma_bytes_lt_trans(encode_utf8(a), encode_utf8(b), encode_utf8(c));
}

/// An entry list without key `k` from `i` on has no value under it there.
pub(crate) proof fn lemma_value_at_absent(es: Seq<(Seq<char>, Json)>, k: Seq<char>, i: int, j: int)
    requires
        0 <= i <= j,
        forall|q: int| i <= q < j && q < es.len() ==> es[q].0 != k,
    ensures
        value_at(es, k, i) == value_at(es, k, j),
    decreases j - i,
{
    if i < j && i < es.len() {
        lemma_value_at_absent(es, k, i + 1, j);
    }
}

/// The least of the heads is one of them, and sorts at or before each.
pub(crate) proof fn lemma_least_heads(a: Option<Seq<char>>, b: Option<Seq<char>>, c: Option<Seq<char>>, k: Seq<char>)
    requires
        least(least(a, b), c) == Some(k),
    ensures
        a == Some(k) || b == Some(k) || c == Some(k),
        a matches Some(x) ==> x == k || name_lt(k, x),
        b matches Some(x) ==> x == k || name_lt(k, x),
        c matches Some(x) ==> x == k || name_lt(k, x),
{
    if let Some(x) = a {
        if x != k {
            lemma_name_lt_total(x, k);
        }
    }
    if let Some(x) = b {
        if x != k {
            lemma_name_lt_total(x, k);
        }
    }
    if let Some(x) = c {
        if x != k {
            lemma_name_lt_total(x, k);
        }
    }
    match (a, b) {
        (Some(x), Some(y)) => {
            if name_lt(y, x) {
                lemma_name_lt_asym(y, x);
            }
            if let Some(z) = c {
                if name_lt(z, least(a, b)->0) {
                    lemma_name_lt_asym(z, least(a, b)->0);
                    if name_lt(y, x) {
                        if name_lt(x, k) {
                            lemma_name_lt_trans(y, x, k);
                        }
                    } else if x != y {
                        lemma_name_lt_total(x, y);
                        if name_lt(y, k) {
                            lemma_name_lt_trans(x, y, k);
                        }
                    }
                }
            }
        },
        _ => {},
    }
    if let Some(x) = a {
        if name_lt(x, k) {
            lemma_name_lt_asym(x, k);
        }
    }
}

/// At the least key `k` of the heads, one list's value under `k` is its head's
/// when the head has that key, else none; and `k` becomes the new frontier.
pub(crate) proof fn lemma_list_step(l: Seq<(Seq<char>, Json)>, p: int, last: Option<Seq<char>>, k: Seq<char>)
    requires
        sorted_keys(l),
        0 <= p <= l.len(),
        frontier(l, p, last),
        last matches Some(x) ==> name_lt(x, k),
        p < l.len() ==> l[p].0 == k || name_lt(k, l[p].0),
    ensures
        value_at(l, k, 0) == (if p < l.len() && l[p].0 == k {
            Some(l[p].1)
        } else {
            None
        }),
        frontier(
            l,
            if p < l.len() && l[p].0 == k {
                p + 1
            } else {
                p
            },
            Some(k),
        ),
{
    assert forall|q: int| 0 <= q < p && q < l.len() implies l[q].0 != k by {
        let x = last->0;
        lemma_name_lt_asym(x, k);
        if name_lt(l[q].0, x) {
            lemma_name_lt_trans(l[q].0, x, k);
            lemma_name_lt_asym(l[q].0, k);
        }
    }
    lemma_value_at_absent(l, k, 0, p);
    let hit = p < l.len() && l[p].0 == k;
    if !hit {
        assert forall|q: int| p <= q < l.len() implies name_lt(k, #[trigger] l[q].0) by {
            if q > p {
                lemma_name_lt_trans(k, l[p].0, l[q].0);
            }
        }
        assert forall|q: int| p <= q < l.len() && q < l.len() implies l[q].0 != k by {
            assert(name_lt(k, l[q].0));
            lemma_name_lt_asym(k, l[q].0);
        }
        lemma_value_at_absent(l, k, p, l.len() as int);
    }
    assert forall|i: int| 0 <= i < (if hit { p + 1 } else { p }) implies (Some(k) matches Some(x) && (
        #[trigger] l[i].0 == x || name_lt(l[i].0, x))) by {
        if i < p {
            let x = last->0;
            if name_lt(l[i].0, x) {
                lemma_name_lt_trans(l[i].0, x, k);
            }
        }
    }
    if hit {
        assert forall|q: int| p + 1 <= q < l.len() implies (Some(k) matches Some(x) ==> name_lt(
            x,
            #[trigger] l[q].0,
        )) by {
            assert(name_lt(l[p].0, l[q].0));
        }
    }
}

/// The value a merge keeps under key `k` when the sides did not change it
/// differently: theirs when ours kept the base's, else ours.
pub open spec fn kept_value(
    bm: Seq<(Seq<char>, Json)>,
    om: Seq<(Seq<char>, Json)>,
    tm: Seq<(Seq<char>, Json)>,
    k: Seq<char>,
) -> Option<Json> {
    if opt_eq(value_at(om, k, 0), value_at(bm, k, 0)) {
        value_at(tm, k, 0)
    } else {
        value_at(om, k, 0)
    }
}

proof fn lemma_opt_eq_refl(a: Option<Json>)
    ensures
        opt_eq(a, a),
{
    if let Some(x) = a {
        lemma_json_eq_refl(x);
    }
}

/// Equal objects hold equal values under every key.
pub(crate) proof fn lemma_value_at_eq(a: Seq<(Seq<char>, Json)>, b: Seq<(Seq<char>, Json)>, k: Seq<char>, i: int)
    requires
        0 <= i,
        json_eq(Json::Object(a), Json::Object(b)),
    ensures
        opt_eq(value_at(a, k, i), value_at(b, k, i)),
    decreases a.len() - i,
{
    if i < a.len() {
        assert(a[i].0 == b[i].0 && json_eq(a[i].1, b[i].1));
        if a[i].0 != k {
            lemma_value_at_eq(a, b, k, i + 1);
        }
    }
}

/// Looking past a first entry.
proof fn lemma_value_at_cons(e: (Seq<char>, Json), es: Seq<(Seq<char>, Json)>, k: Seq<char>, i: int)
    requires
        0 <= i,
    ensures
        value_at(seq![e] + es, k, i + 1) == value_at(es, k, i),
    decreases es.len() - i,
{
    if i < es.len() {
        assert((seq![e] + es)[i + 1] == es[i]);
        lemma_value_at_cons(e, es, k, i + 1);
    }
}

/// Entries whose keys all sort after `k` hold nothing under it.
pub(crate) proof fn lemma_value_at_after(es: Seq<(Seq<char>, Json)>, k: Seq<char>)
    requires
        forall|i: int| 0 <= i < es.len() ==> name_lt(k, #[trigger] es[i].0),
    ensures
        value_at(es, k, 0) is None,
{
    assert forall|q: int| 0 <= q < es.len() && q < es.len() implies es[q].0 != k by {
        lemma_name_lt_asym(k, es[q].0);
    }
    lemma_value_at_absent(es, k, 0, es.len() as int);
}

/// A key strictly between the frontier and the least head is in no list.
pub(crate) proof fn lemma_list_absent(l: Seq<(Seq<char>, Json)>, p: int, last: Option<Seq<char>>, k: Seq<char>, k2: Seq<char>)
    requires
        sorted_keys(l),
        0 <= p <= l.len(),
        frontier(l, p, last),
        last matches Some(x) ==> name_lt(x, k2),
        name_lt(k2, k),
        p < l.len() ==> l[p].0 == k || name_lt(k, l[p].0),
    ensures
        value_at(l, k2, 0) is None,
{
    assert forall|q: int| 0 <= q < l.len() && q < l.len() implies l[q].0 != k2 by {
        if q < p {
            let x = last->0;
            lemma_name_lt_asym(x, k2);
            if name_lt(l[q].0, x) {
                lemma_name_lt_trans(l[q].0, x, k2);
                lemma_name_lt_asym(l[q].0, k2);
            }
        } else {
            if l[p].0 == k {
                if q > p {
                    lemma_name_lt_trans(k2, k, l[q].0);
                    lemma_name_lt_asym(k2, l[q].0);
                } else {
                    lemma_name_lt_asym(k2, k);
                }
            } else {
                lemma_name_lt_trans(k2, k, l[p].0);
                if q > p {
                    lemma_name_lt_trans(k2, l[p].0, l[q].0);
                    lemma_name_lt_asym(k2, l[q].0);
                } else {
                    lemma_name_lt_asym(k2, l[p].0);
                }
            }
        }
    }
    lemma_value_at_absent(l, k2, 0, l.len() as int);
}

/// What the walk from a frontier builds: an object whose keys all sort after
/// the frontier, holding the kept value under each such key.
spec fn walk_result(
    bm: Seq<(Seq<char>, Json)>,
    om: Seq<(Seq<char>, Json)>,
    tm: Seq<(Seq<char>, Json)>,
    last: Option<Seq<char>>,
    r: Merged,
) -> bool {
    &&& r matches Merged::Clean(Json::Object(es))
    &&& forall|i: int| 0 <= i < r->Clean_0->Object_0.len() ==> (last matches Some(x) ==> name_lt(x, #[trigger] r->Clean_0->Object_0[i].0))
    &&& forall|k: Seq<char>|
        (last matches Some(x) ==> name_lt(x, k)) ==> opt_eq(
            #[trigger] value_at(r->Clean_0->Object_0, k, 0),
            kept_value(bm, om, tm, k),
        )
}

/// From any point of the walk that keeps the frontier, a key-by-key merge
/// under [`compatible_edits`] is clean and keeps each side's change.
proof fn lemma_merge_walk(
    bm: Seq<(Seq<char>, Json)>,
    om: Seq<(Seq<char>, Json)>,
    tm: Seq<(Seq<char>, Json)>,
    ib: int,
    io: int,
    it: int,
    last: Option<Seq<char>>,
)
    requires
        sorted_keys(bm),
        sorted_keys(om),
        sorted_keys(tm),
        compatible_edits(bm, om, tm),
        0 <= ib <= bm.len(),
        0 <= io <= om.len(),
        0 <= it <= tm.len(),
        frontier(bm, ib, last),
        frontier(om, io, last),
        frontier(tm, it, last),
    ensures
        walk_result(bm, om, tm, last, merge_entries(bm, om, tm, ib, io, it)),
    decreases entries_size(bm, ib) + entries_size(om, io) + entries_size(tm, it),
{
    match least(least(head(bm, ib), head(om, io)), head(tm, it)) {
        None => {
            assert forall|k: Seq<char>| (last matches Some(x) ==> name_lt(x, k)) implies opt_eq(
                #[trigger] value_at(Seq::<(Seq<char>, Json)>::empty(), k, 0),
                kept_value(bm, om, tm, k),
            ) by {
                assert forall|q: int| 0 <= q < ib && q < bm.len() implies bm[q].0 != k by {
                    let x = last->0;
                    lemma_name_lt_asym(x, k);
                    if name_lt(bm[q].0, x) {
                        lemma_name_lt_trans(bm[q].0, x, k);
                        lemma_name_lt_asym(bm[q].0, k);
                    }
                }
                assert forall|q: int| 0 <= q < io && q < om.len() implies om[q].0 != k by {
                    let x = last->0;
                    lemma_name_lt_asym(x, k);
                    if name_lt(om[q].0, x) {
                        lemma_name_lt_trans(om[q].0, x, k);
                        lemma_name_lt_asym(om[q].0, k);
                    }
                }
                assert forall|q: int| 0 <= q < it && q < tm.len() implies tm[q].0 != k by {
                    let x = last->0;
                    lemma_name_lt_asym(x, k);
                    if name_lt(tm[q].0, x) {
                        lemma_name_lt_trans(tm[q].0, x, k);
                        lemma_name_lt_asym(tm[q].0, k);
                    }
                }
                lemma_value_at_absent(bm, k, 0, ib);
                lemma_value_at_absent(om, k, 0, io);
                lemma_value_at_absent(tm, k, 0, it);
            }
        },
        Some(k) => {
            lemma_least_heads(head(bm, ib), head(om, io), head(tm, it), k);
            if let Some(x) = last {
                if head(bm, ib) == Some(k) {
                    assert(name_lt(x, bm[ib].0));
                } else if head(om, io) == Some(k) {
                    assert(name_lt(x, om[io].0));
                } else {
                    assert(name_lt(x, tm[it].0));
                }
            }
            lemma_list_step(bm, ib, last, k);
            lemma_list_step(om, io, last, k);
            lemma_list_step(tm, it, last, k);
            let hb = 0 <= ib < bm.len() && bm[ib].0 == k;
            let ho = 0 <= io < om.len() && om[io].0 == k;
            let ht = 0 <= it < tm.len() && tm[it].0 == k;
            let bv = value_at(bm, k, 0);
            let ov = value_at(om, k, 0);
            let tv = value_at(tm, k, 0);
            assert(opt_eq(ov, bv) || opt_eq(tv, bv) || opt_eq(ov, tv));
            if opt_eq(ov, bv) {
                lemma_opt_eq_sym(ov, bv);
            }
            if opt_eq(tv, bv) {
                lemma_opt_eq_sym(tv, bv);
            }
            let nb = if hb { ib + 1 } else { ib };
            let no = if ho { io + 1 } else { io };
            let nt = if ht { it + 1 } else { it };
            lemma_merge_walk(bm, om, tm, nb, no, nt, Some(k));
            let rest = merge_entries(bm, om, tm, nb, no, nt);
            let es2 = rest->Clean_0->Object_0;
            let here = if opt_eq(ov, tv) {
                clean_of(ov)
            } else if opt_eq(bv, ov) {
                clean_of(tv)
            } else if opt_eq(bv, tv) {
                clean_of(ov)
            } else if hb && ho && ht {
                Some(merge3_spec(bm[ib].1, om[io].1, tm[it].1))
            } else {
                Some(Merged::Conflict)
            };
            assert(here is None || here matches Some(Merged::Clean(_)));
            // What the merge keeps under `k` is what `here` holds.
            lemma_opt_eq_refl(ov);
            lemma_opt_eq_refl(tv);
            if opt_eq(ov, tv) {
                if opt_eq(ov, bv) {
                    lemma_opt_eq_sym(ov, tv);
                }
            } else if opt_eq(bv, ov) {
                lemma_opt_eq_sym(bv, ov);
            } else {
                if opt_eq(ov, bv) {
                    lemma_opt_eq_trans(ov, bv, tv);
                }
            }
            assert(match here {
                Some(Merged::Clean(v)) => opt_eq(Some(v), kept_value(bm, om, tm, k)),
                _ => kept_value(bm, om, tm, k) is None,
            });
            let r = merge_entries(bm, om, tm, ib, io, it);
            let es = r->Clean_0->Object_0;
            lemma_value_at_after(es2, k);
            assert forall|i: int| 0 <= i < es.len() implies (last matches Some(x) ==> name_lt(x, #[trigger] es[i].0)) by {
                if let Some(x) = last {
                    if here is Some && i == 0 {
                    } else {
                        let i2 = if here is Some { i - 1 } else { i };
                        assert(es[i] == es2[i2]);
                        lemma_name_lt_trans(x, k, es2[i2].0);
                    }
                }
            }
            assert forall|k2: Seq<char>| (last matches Some(x) ==> name_lt(x, k2)) implies opt_eq(
                #[trigger] value_at(es, k2, 0),
                kept_value(bm, om, tm, k2),
            ) by {
                if let Some(Merged::Clean(v)) = here {
                    assert(es == seq![(k, v)] + es2);
                    lemma_value_at_cons((k, v), es2, k2, 0);
                }
                if k2 == k {
                } else if name_lt(k, k2) {
                } else {
                    lemma_name_lt_total(k, k2);
                    lemma_list_absent(bm, ib, last, k, k2);
                    lemma_list_absent(om, io, last, k, k2);
                    lemma_list_absent(tm, it, last, k, k2);
                    assert forall|i: int| 0 <= i < es2.len() implies name_lt(k2, #[trigger] es2[i].0) by {
                        lemma_name_lt_trans(k2, k, es2[i].0);
                    }
                    lemma_value_at_after(es2, k2);
                }
            }
        },
    }
}

/// Edits to different keys never conflict, nor does the same edit made on
/// both sides, and every edit is kept: when no key's value is changed
/// differently on the two sides, the merge of three objects is a clean object
/// holding, under each key, the side that changed it (theirs when ours kept
/// the base's value, so the shared value when both changed it alike).
pub proof fn lemma_merge_compatible_keys(
    bm: Seq<(Seq<char>, Json)>,
    om: Seq<(Seq<char>, Json)>,
    tm: Seq<(Seq<char>, Json)>,
)
    requires
        sorted_keys(bm),
        sorted_keys(om),
        sorted_keys(tm),
        compatible_edits(bm, om, tm),
    ensures
        merge3_spec(Json::Object(bm), Json::Object(om), Json::Object(tm)) matches Merged::Clean(Json::Object(es))
            && forall|k: Seq<char>| opt_eq(#[trigger] value_at(es, k, 0), kept_value(bm, om, tm, k)),
{
    let b = Json::Object(bm);
    let o = Json::Object(om);
    let t = Json::Object(tm);
    if json_eq(o, t) {
        assert forall|k: Seq<char>| opt_eq(#[trigger] value_at(om, k, 0), kept_value(bm, om, tm, k)) by {
            lemma_value_at_eq(om, tm, k, 0);
            lemma_opt_eq_refl(value_at(om, k, 0));
        }
    } else if json_eq(b, o) {
        assert forall|k: Seq<char>| opt_eq(#[trigger] value_at(tm, k, 0), kept_value(bm, om, tm, k)) by {
            lemma_value_at_eq(bm, om, k, 0);
            lemma_opt_eq_sym(value_at(bm, k, 0), value_at(om, k, 0));
            lemma_opt_eq_refl(value_at(tm, k, 0));
        }
    } else if json_eq(b, t) {
        assert forall|k: Seq<char>| opt_eq(#[trigger] value_at(om, k, 0), kept_value(bm, om, tm, k)) by {
            lemma_value_at_eq(bm, tm, k, 0);
            lemma_opt_eq_refl(value_at(om, k, 0));
            if opt_eq(value_at(om, k, 0), value_at(bm, k, 0)) {
                lemma_opt_eq_trans(value_at(om, k, 0), value_at(bm, k, 0), value_at(tm, k, 0));
            }
        }
    } else {
        lemma_merge_walk(bm, om, tm, 0, 0, 0, None);
    }
}

// ─── No edit lost ────────────────────────────────────────────────────────────

/// Whether every object within `v`, at any depth, has its keys in strictly
/// increasing order (as the values read from `serde_json`'s maps have).
pub open spec fn sorted_deep(v: Json) -> bool
    decreases v, 1nat, 0nat,
{
    match v {
        Json::Object(es) => sorted_keys(es) && entries_sorted_deep(es, 0),
        _ => true,
    }
}

/// Whether the values of the entries from `i` on are [`sorted_deep`].
pub open spec fn entries_sorted_deep(es: Seq<(Seq<char>, Json)>, i: int) -> bool
    decreases es, 0nat, es.len() - i,
{
    if i < 0 || i >= es.len() {
        true
    } else {
        proof {
            assert(decreases_to!(es => es[i]));
            assert(decreases_to!(es[i] => es[i].1));
        }
        sorted_deep(es[i].1) && entries_sorted_deep(es, i + 1)
    }
}

proof fn lemma_value_at_sorted_deep(es: Seq<(Seq<char>, Json)>, k: Seq<char>, i: int)
    requires
        0 <= i,
        entries_sorted_deep(es, i),
    ensures
        value_at(es, k, i) matches Some(w) ==> sorted_deep(w),
    decreases es.len() - i,
{
    if i < es.len() && es[i].0 != k {
        lemma_value_at_sorted_deep(es, k, i + 1);
    }
}

/// The value under the key path `ks` in `v`: each key followed down through
/// objects; none where a key is missing or a value on the way is no object.
pub open spec fn at_keys(v: Json, ks: Seq<Seq<char>>) -> Option<Json>
    decreases ks.len(),
{
    if ks.len() == 0 {
        Some(v)
    } else {
        match v {
            Json::Object(es) => match value_at(es, ks[0], 0) {
                Some(w) => at_keys(w, ks.drop_first()),
                None => None,
            },
            _ => None,
        }
    }
}

/// [`at_keys`] of a possibly absent value.
pub open spec fn at_opt(v: Option<Json>, ks: Seq<Seq<char>>) -> Option<Json> {
    match v {
        Some(x) => at_keys(x, ks),
        None => None,
    }
}

proof fn lemma_at_keys_eq(x: Json, y: Json, ks: Seq<Seq<char>>)
    requires
        json_eq(x, y),
    ensures
        opt_eq(at_keys(x, ks), at_keys(y, ks)),
    decreases ks.len(),
{
    if ks.len() > 0 {
        if let Json::Object(a) = x {
            if let Json::Object(b) = y {
                lemma_value_at_eq(a, b, ks[0], 0);
                if let Some(w1) = value_at(a, ks[0], 0) {
                    lemma_at_keys_eq(w1, value_at(b, ks[0], 0)->0, ks.drop_first());
                }
            }
        }
    }
}

proof fn lemma_at_opt_eq(x: Option<Json>, y: Option<Json>, ks: Seq<Seq<char>>)
    requires
        opt_eq(x, y),
    ensures
        opt_eq(at_opt(x, ks), at_opt(y, ks)),
{
    if let Some(a) = x {
        lemma_at_keys_eq(a, y->0, ks);
    }
}

/// What a clean merge owes at one key path, given the base's, ours, theirs
/// and the merge's values there.
pub open spec fn keeps_edits(bk: Option<Json>, ok: Option<Json>, tk: Option<Json>, mk: Option<Json>) -> bool {
    &&& opt_eq(tk, bk) ==> opt_eq(mk, ok)
    &&& opt_eq(ok, bk) ==> opt_eq(mk, tk)
    &&& opt_eq(ok, tk) ==> opt_eq(mk, ok)
    &&& (!opt_eq(ok, bk) && !opt_eq(tk, bk) && !opt_eq(ok, tk)) ==> (bk matches Some(Json::Object(_))
        && ok matches Some(Json::Object(_)) && tk matches Some(Json::Object(_)))
}

/// When the merge took one side because the other kept the base (or both
/// agree), it owes nothing more.
proof fn lemma_keeps_when_one_side(bk: Option<Json>, ok: Option<Json>, tk: Option<Json>, mk: Option<Json>)
    requires
        (opt_eq(mk, ok) && opt_eq(ok, tk)) || (opt_eq(mk, tk) && opt_eq(bk, ok)) || (opt_eq(mk, ok) && opt_eq(
            bk,
            tk,
        )),
    ensures
        keeps_edits(bk, ok, tk, mk),
{
    lemma_opt_eq_refl(ok);
    lemma_opt_eq_refl(tk);
    if opt_eq(mk, ok) && opt_eq(ok, tk) {
        lemma_opt_eq_trans(mk, ok, tk);
        lemma_opt_eq_sym(ok, tk);
    } else if opt_eq(mk, tk) && opt_eq(bk, ok) {
        lemma_opt_eq_sym(bk, ok);
        if opt_eq(tk, bk) {
            lemma_opt_eq_trans(tk, bk, ok);
            lemma_opt_eq_trans(mk, tk, ok);
        }
        if opt_eq(ok, tk) {
            lemma_opt_eq_sym(ok, tk);
            lemma_opt_eq_trans(mk, tk, ok);
        }
        if opt_eq(ok, bk) {
        }
    } else {
        lemma_opt_eq_sym(bk, tk);
        if opt_eq(ok, bk) {
            lemma_opt_eq_trans(ok, bk, tk);
            lemma_opt_eq_trans(mk, ok, tk);
        }
    }
    if !opt_eq(ok, bk) && !opt_eq(tk, bk) && !opt_eq(ok, tk) {
        if opt_eq(bk, ok) {
            lemma_opt_eq_sym(bk, ok);
        }
        if opt_eq(bk, tk) {
            lemma_opt_eq_sym(bk, tk);
        }
    }
}

/// What merging the values under key `k` gives: the rule of [`merge3_spec`]
/// on possibly absent values (`None`: the key is left out).
pub open spec fn key_outcome(
    bm: Seq<(Seq<char>, Json)>,
    om: Seq<(Seq<char>, Json)>,
    tm: Seq<(Seq<char>, Json)>,
    k: Seq<char>,
) -> Option<Merged> {
    let bv = value_at(bm, k, 0);
    let ov = value_at(om, k, 0);
    let tv = value_at(tm, k, 0);
    if opt_eq(ov, tv) {
        clean_of(ov)
    } else if opt_eq(bv, ov) {
        clean_of(tv)
    } else if opt_eq(bv, tv) {
        clean_of(ov)
    } else if bv is Some && ov is Some && tv is Some {
        Some(merge3_spec(bv->0, ov->0, tv->0))
    } else {
        Some(Merged::Conflict)
    }
}

/// What a clean walk from a frontier builds: an object whose keys all sort
/// after the frontier, holding under each such key what [`key_outcome`] gives.
spec fn walk_clean(
    bm: Seq<(Seq<char>, Json)>,
    om: Seq<(Seq<char>, Json)>,
    tm: Seq<(Seq<char>, Json)>,
    last: Option<Seq<char>>,
    r: Merged,
) -> bool {
    r matches Merged::Clean(Json::Object(es)) ==> {
        &&& forall|i: int| 0 <= i < es.len() ==> (last matches Some(x) ==> name_lt(x, #[trigger] es[i].0))
        &&& forall|k: Seq<char>|
            (last matches Some(x) ==> name_lt(x, k)) ==> match #[trigger] key_outcome(bm, om, tm, k) {
                Some(Merged::Clean(v)) => value_at(es, k, 0) == Some(v),
                Some(Merged::Conflict) => false,
                None => value_at(es, k, 0) is None,
            }
    }
}

/// A clean key-by-key merge holds, under each key, what merging the three
/// values under it gives.
proof fn lemma_merge_walk_clean(
    bm: Seq<(Seq<char>, Json)>,
    om: Seq<(Seq<char>, Json)>,
    tm: Seq<(Seq<char>, Json)>,
    ib: int,
    io: int,
    it: int,
    last: Option<Seq<char>>,
)
    requires
        sorted_keys(bm),
        sorted_keys(om),
        sorted_keys(tm),
        0 <= ib <= bm.len(),
        0 <= io <= om.len(),
        0 <= it <= tm.len(),
        frontier(bm, ib, last),
        frontier(om, io, last),
        frontier(tm, it, last),
    ensures
        walk_clean(bm, om, tm, last, merge_entries(bm, om, tm, ib, io, it)),
    decreases entries_size(bm, ib) + entries_size(om, io) + entries_size(tm, it),
{
    match least(least(head(bm, ib), head(om, io)), head(tm, it)) {
        None => {
            assert forall|k: Seq<char>| (last matches Some(x) ==> name_lt(x, k)) implies match #[trigger] key_outcome(
                bm,
                om,
                tm,
                k,
            ) {
                Some(Merged::Clean(v)) => value_at(Seq::<(Seq<char>, Json)>::empty(), k, 0) == Some(v),
                Some(Merged::Conflict) => false,
                None => value_at(Seq::<(Seq<char>, Json)>::empty(), k, 0) is None,
            } by {
                assert forall|q: int| 0 <= q < ib && q < bm.len() implies bm[q].0 != k by {
                    let x = last->0;
                    lemma_name_lt_asym(x, k);
                    if name_lt(bm[q].0, x) {
                        lemma_name_lt_trans(bm[q].0, x, k);
                        lemma_name_lt_asym(bm[q].0, k);
                    }
                }
                assert forall|q: int| 0 <= q < io && q < om.len() implies om[q].0 != k by {
                    let x = last->0;
                    lemma_name_lt_asym(x, k);
                    if name_lt(om[q].0, x) {
                        lemma_name_lt_trans(om[q].0, x, k);
                        lemma_name_lt_asym(om[q].0, k);
                    }
                }
                assert forall|q: int| 0 <= q < it && q < tm.len() implies tm[q].0 != k by {
                    let x = last->0;
                    lemma_name_lt_asym(x, k);
                    if name_lt(tm[q].0, x) {
                        lemma_name_lt_trans(tm[q].0, x, k);
                        lemma_name_lt_asym(tm[q].0, k);
                    }
                }
                lemma_value_at_absent(bm, k, 0, ib);
                lemma_value_at_absent(om, k, 0, io);
                lemma_value_at_absent(tm, k, 0, it);
            }
        },
        Some(k) => {
            lemma_least_heads(head(bm, ib), head(om, io), head(tm, it), k);
            if let Some(x) = last {
                if head(bm, ib) == Some(k) {
                    assert(name_lt(x, bm[ib].0));
                } else if head(om, io) == Some(k) {
                    assert(name_lt(x, om[io].0));
                } else {
                    assert(name_lt(x, tm[it].0));
                }
            }
            lemma_list_step(bm, ib, last, k);
            lemma_list_step(om, io, last, k);
            lemma_list_step(tm, it, last, k);
            let hb = 0 <= ib < bm.len() && bm[ib].0 == k;
            let ho = 0 <= io < om.len() && om[io].0 == k;
            let ht = 0 <= it < tm.len() && tm[it].0 == k;
            let nb = if hb { ib + 1 } else { ib };
            let no = if ho { io + 1 } else { io };
            let nt = if ht { it + 1 } else { it };
            lemma_merge_walk_clean(bm, om, tm, nb, no, nt, Some(k));
            let rest = merge_entries(bm, om, tm, nb, no, nt);
            let here = key_outcome(bm, om, tm, k);
            let r = merge_entries(bm, om, tm, ib, io, it);
            assert(r == match here {
                Some(Merged::Conflict) => Merged::Conflict,
                Some(Merged::Clean(v)) => match rest {
                    Merged::Clean(Json::Object(es)) => Merged::Clean(Json::Object(seq![(k, v)] + es)),
                    _ => Merged::Conflict,
                },
                None => rest,
            });
            if let Merged::Clean(Json::Object(es)) = r {
                let es2 = rest->Clean_0->Object_0;
                assert(rest matches Merged::Clean(Json::Object(_)));
                lemma_value_at_after(es2, k);
                assert forall|i: int| 0 <= i < es.len() implies (last matches Some(x) ==> name_lt(x, #[trigger] es[i].0)) by {
                    if let Some(x) = last {
                        if here is Some && i == 0 {
                        } else {
                            let i2 = if here is Some { i - 1 } else { i };
                            assert(es[i] == es2[i2]);
                            lemma_name_lt_trans(x, k, es2[i2].0);
                        }
                    }
                }
                assert forall|k2: Seq<char>| (last matches Some(x) ==> name_lt(x, k2)) implies match #[trigger] key_outcome(
                    bm,
                    om,
                    tm,
                    k2,
                ) {
                    Some(Merged::Clean(v)) => value_at(es, k2, 0) == Some(v),
                    Some(Merged::Conflict) => false,
                    None => value_at(es, k2, 0) is None,
                } by {
                    if let Some(Merged::Clean(v)) = here {
                        assert(es == seq![(k, v)] + es2);
                        lemma_value_at_cons((k, v), es2, k2, 0);
                    }
                    if k2 == k {
                    } else if name_lt(k, k2) {
                        assert(key_outcome(bm, om, tm, k2) == key_outcome(bm, om, tm, k2));
                    } else {
                        lemma_name_lt_total(k, k2);
                        lemma_list_absent(bm, ib, last, k, k2);
                        lemma_list_absent(om, io, last, k, k2);
                        lemma_list_absent(tm, it, last, k, k2);
                        assert forall|i: int| 0 <= i < es2.len() implies name_lt(k2, #[trigger] es2[i].0) by {
                            lemma_name_lt_trans(k2, k, es2[i].0);
                        }
                        lemma_value_at_after(es2, k2);
                        if here is Some {
                            assert forall|i: int| 0 <= i < es.len() implies name_lt(k2, #[trigger] es[i].0) by {
                                if i > 0 {
                                    assert(es[i] == es2[i - 1]);
                                }
                            }
                            lemma_value_at_after(es, k2);
                        }
                    }
                }
            }
        },
    }
}

/// A clean merge loses no edit and hides no conflict, at every key path `ks`
/// at any depth: where theirs holds the base's value the merge holds ours,
/// where ours holds the base's value it holds theirs, and where both sides
/// hold the same value it holds that value; and where both sides changed the
/// value to different results, a merge is clean only when all three values
/// there are objects (whose keys then decide, one by one).
pub proof fn lemma_merge_keeps_edits(b: Json, o: Json, t: Json, ks: Seq<Seq<char>>)
    requires
        sorted_deep(b),
        sorted_deep(o),
        sorted_deep(t),
        merge3_spec(b, o, t) is Clean,
    ensures
        keeps_edits(at_keys(b, ks), at_keys(o, ks), at_keys(t, ks), at_keys(merge3_spec(b, o, t)->Clean_0, ks)),
    decreases ks.len(),
{
    let m = merge3_spec(b, o, t)->Clean_0;
    let bk = at_keys(b, ks);
    let ok = at_keys(o, ks);
    let tk = at_keys(t, ks);
    let mk = at_keys(m, ks);
    lemma_opt_eq_refl(ok);
    lemma_opt_eq_refl(tk);
    if json_eq(o, t) {
        lemma_at_keys_eq(o, t, ks);
        lemma_keeps_when_one_side(bk, ok, tk, mk);
    } else if json_eq(b, o) {
        lemma_at_keys_eq(b, o, ks);
        lemma_keeps_when_one_side(bk, ok, tk, mk);
    } else if json_eq(b, t) {
        lemma_at_keys_eq(b, t, ks);
        lemma_keeps_when_one_side(bk, ok, tk, mk);
    } else {
        let bm = b->Object_0;
        let om = o->Object_0;
        let tm = t->Object_0;
        assert(b is Object && o is Object && t is Object);
        lemma_merge_walk_clean(bm, om, tm, 0, 0, 0, None);
        lemma_merge_entries_shape(bm, om, tm, 0, 0, 0);
        let es = m->Object_0;
        if ks.len() == 0 {
            if opt_eq(tk, bk) {
                lemma_json_eq_sym(t, b);
            }
            if opt_eq(ok, bk) {
                lemma_json_eq_sym(o, b);
            }
        } else {
            let k = ks[0];
            let rest = ks.drop_first();
            let bv = value_at(bm, k, 0);
            let ov = value_at(om, k, 0);
            let tv = value_at(tm, k, 0);
            let mv = value_at(es, k, 0);
            assert(key_outcome(bm, om, tm, k) == key_outcome(bm, om, tm, k));
            assert(bk == at_opt(bv, rest));
            assert(ok == at_opt(ov, rest));
            assert(tk == at_opt(tv, rest));
            assert(mk == at_opt(mv, rest));
            lemma_opt_eq_refl(ov);
            lemma_opt_eq_refl(tv);
            if opt_eq(ov, tv) {
                lemma_at_opt_eq(ov, tv, rest);
                lemma_keeps_when_one_side(bk, ok, tk, mk);
            } else if opt_eq(bv, ov) {
                lemma_at_opt_eq(bv, ov, rest);
                lemma_keeps_when_one_side(bk, ok, tk, mk);
            } else if opt_eq(bv, tv) {
                lemma_at_opt_eq(bv, tv, rest);
                lemma_keeps_when_one_side(bk, ok, tk, mk);
            } else {
                assert(bv is Some && ov is Some && tv is Some);
                lemma_value_at_sorted_deep(bm, k, 0);
                lemma_value_at_sorted_deep(om, k, 0);
                lemma_value_at_sorted_deep(tm, k, 0);
                lemma_merge_keeps_edits(bv->0, ov->0, tv->0, rest);
            }
        }
    }
}

/// A key-by-key merge that conflicts has a key, after the frontier, whose
/// values conflict.
proof fn lemma_merge_walk_conflict(
    bm: Seq<(Seq<char>, Json)>,
    om: Seq<(Seq<char>, Json)>,
    tm: Seq<(Seq<char>, Json)>,
    ib: int,
    io: int,
    it: int,
    last: Option<Seq<char>>,
) -> (k: Seq<char>)
    requires
        sorted_keys(bm),
        sorted_keys(om),
        sorted_keys(tm),
        0 <= ib <= bm.len(),
        0 <= io <= om.len(),
        0 <= it <= tm.len(),
        frontier(bm, ib, last),
        frontier(om, io, last),
        frontier(tm, it, last),
        merge_entries(bm, om, tm, ib, io, it) is Conflict,
    ensures
        key_outcome(bm, om, tm, k) == Some(Merged::Conflict),
    decreases entries_size(bm, ib) + entries_size(om, io) + entries_size(tm, it),
{
    match least(least(head(bm, ib), head(om, io)), head(tm, it)) {
        None => {
            assert(false);
            Seq::empty()
        },
        Some(k) => {
            lemma_least_heads(head(bm, ib), head(om, io), head(tm, it), k);
            if let Some(x) = last {
                if head(bm, ib) == Some(k) {
                    assert(name_lt(x, bm[ib].0));
                } else if head(om, io) == Some(k) {
                    assert(name_lt(x, om[io].0));
                } else {
                    assert(name_lt(x, tm[it].0));
                }
            }
            lemma_list_step(bm, ib, last, k);
            lemma_list_step(om, io, last, k);
            lemma_list_step(tm, it, last, k);
            let hb = 0 <= ib < bm.len() && bm[ib].0 == k;
            let ho = 0 <= io < om.len() && om[io].0 == k;
            let ht = 0 <= it < tm.len() && tm[it].0 == k;
            let nb = if hb { ib + 1 } else { ib };
            let no = if ho { io + 1 } else { io };
            let nt = if ht { it + 1 } else { it };
            let rest = merge_entries(bm, om, tm, nb, no, nt);
            let here = key_outcome(bm, om, tm, k);
            assert(merge_entries(bm, om, tm, ib, io, it) == match here {
                Some(Merged::Conflict) => Merged::Conflict,
                Some(Merged::Clean(v)) => match rest {
                    Merged::Clean(Json::Object(es)) => Merged::Clean(Json::Object(seq![(k, v)] + es)),
                    _ => Merged::Conflict,
                },
                None => rest,
            });
            if here == Some(Merged::Conflict) {
                k
            } else {
                lemma_merge_entries_shape(bm, om, tm, nb, no, nt);
                lemma_merge_walk_conflict(bm, om, tm, nb, no, nt, Some(k))
            }
        },
    }
}

/// A merge conflicts only for a reason: some key path (at any depth) where
/// both sides changed the value to different results and the three values
/// there are not all objects.
pub proof fn lemma_conflict_has_cause(b: Json, o: Json, t: Json) -> (ks: Seq<Seq<char>>)
    requires
        sorted_deep(b),
        sorted_deep(o),
        sorted_deep(t),
        merge3_spec(b, o, t) is Conflict,
    ensures
        !opt_eq(at_keys(o, ks), at_keys(b, ks)),
        !opt_eq(at_keys(t, ks), at_keys(b, ks)),
        !opt_eq(at_keys(o, ks), at_keys(t, ks)),
        !(at_keys(b, ks) matches Some(Json::Object(_)) && at_keys(o, ks) matches Some(Json::Object(_)) && at_keys(
            t,
            ks,
        ) matches Some(Json::Object(_))),
    decreases json_size(b) + json_size(o) + json_size(t),
{
    let e = Seq::<Seq<char>>::empty();
    if !(b is Object && o is Object && t is Object) {
        if json_eq(o, b) {
            lemma_json_eq_sym(o, b);
        }
        if json_eq(t, b) {
            lemma_json_eq_sym(t, b);
        }
        e
    } else {
        let bm = b->Object_0;
        let om = o->Object_0;
        let tm = t->Object_0;
        if json_eq(o, b) {
            lemma_json_eq_sym(o, b);
        }
        if json_eq(t, b) {
            lemma_json_eq_sym(t, b);
        }
        let k = lemma_merge_walk_conflict(bm, om, tm, 0, 0, 0, None);
        let bv = value_at(bm, k, 0);
        let ov = value_at(om, k, 0);
        let tv = value_at(tm, k, 0);
        let one = seq![k];
        assert(one.drop_first() =~= e);
        assert(at_keys(b, one) == at_opt(bv, e));
        assert(at_keys(o, one) == at_opt(ov, e));
        assert(at_keys(t, one) == at_opt(tv, e));
        if bv is Some && ov is Some && tv is Some && merge3_spec(bv->0, ov->0, tv->0) is Conflict {
            lemma_value_at_sorted_deep(bm, k, 0);
            lemma_value_at_sorted_deep(om, k, 0);
            lemma_value_at_sorted_deep(tm, k, 0);
            lemma_value_at_size(bm, k, 0);
            lemma_value_at_size(om, k, 0);
            lemma_value_at_size(tm, k, 0);
            let rest = lemma_conflict_has_cause(bv->0, ov->0, tv->0);
            let ks = seq![k] + rest;
            assert(ks[0] == k);
            assert(ks.drop_first() =~= rest);
            ks
        } else {
            if opt_eq(ov, bv) {
                lemma_opt_eq_sym(ov, bv);
            }
            if opt_eq(tv, bv) {
                lemma_opt_eq_sym(tv, bv);
            }
            one
        }
    }
}

/// A value found under a key weighs less than the entries holding it.
proof fn lemma_value_at_size(es: Seq<(Seq<char>, Json)>, k: Seq<char>, i: int)
    requires
        0 <= i,
    ensures
        value_at(es, k, i) matches Some(w) ==> json_size(w) < entries_size(es, i),
    decreases es.len() - i,
{
    if i < es.len() {
        if es[i].0 != k {
            lemma_value_at_size(es, k, i + 1);
        }
    }
}

} // verus!
