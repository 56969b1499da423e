//! JSON values as plain data, and the JSON canonicalizer.
//!
//! [`JsonValue`] holds what the structural merge and diff read of a JSON value:
//! objects as key-sorted entry lists (the order `serde_json`'s map keeps),
//! numbers as integers or as float bits with their rendering. [`canonicalize`]
//! parses JSON and re-emits it with sorted keys, pretty-printed, with a
//! trailing newline, so that differently formatted but equal documents are
//! stored identically.

use vstd::prelude::*;
use vstd::string::StringExecFns;
use crate::text::{name_lt, push_str, str_eq};

verus! {

/// A JSON value.
#[derive(Debug, PartialEq, Eq)]
pub enum JsonValue {
    Null,
    Bool(bool),
    /// A non-negative integer.
    PosInt(u64),
    /// A negative integer.
    NegInt(i64),
    /// A float: its IEEE-754 bits, and its rendering.
    Float(u64, String),
    Str(String),
    Array(Vec<JsonValue>),
    /// The entries of an object, in strictly increasing key order.
    Object(Vec<(String, JsonValue)>),
}

/// A JSON value as a mathematical value.
pub enum Json {
    Null,
    Bool(bool),
    PosInt(u64),
    NegInt(i64),
    Float(u64, Seq<char>),
    Str(Seq<char>),
    Array(Seq<Json>),
    Object(Seq<(Seq<char>, Json)>),
}

/// The mathematical value of a [`JsonValue`].
pub open spec fn json_of(v: JsonValue) -> Json
    decreases v, 1nat, 0nat,
{
    match v {
        JsonValue::Null => Json::Null,
        JsonValue::Bool(b) => Json::Bool(b),
        JsonValue::PosInt(n) => Json::PosInt(n),
        JsonValue::NegInt(n) => Json::NegInt(n),
        JsonValue::Float(bits, text) => Json::Float(bits, text@),
        JsonValue::Str(s) => Json::Str(s@),
        JsonValue::Array(xs) => Json::Array(items_of(xs, xs@.len())),
        JsonValue::Object(es) => Json::Object(entries_of(es, es@.len())),
    }
}

/// The values of the first `k` items.
pub open spec fn items_of(xs: Vec<JsonValue>, k: nat) -> Seq<Json>
    decreases xs, 0nat, k,
{
    if k == 0 || k > xs@.len() {
        Seq::empty()
    } else {
        items_of(xs, (k - 1) as nat).push(json_of(xs@[k - 1]))
    }
}

/// The keys and values of the first `k` entries.
pub open spec fn entries_of(es: Vec<(String, JsonValue)>, k: nat) -> Seq<(Seq<char>, Json)>
    decreases es, 0nat, k,
{
    if k == 0 || k > es@.len() {
        Seq::empty()
    } else {
        entries_of(es, (k - 1) as nat).push((es@[k - 1].0@, json_of(es@[k - 1].1)))
    }
}

impl View for JsonValue {
    type V = Json;

    open spec fn view(&self) -> Json {
        json_of(*self)
    }
}

/// The item values line up with the items.
pub proof fn lemma_items_of(xs: Vec<JsonValue>, k: nat)
    requires
        k <= xs@.len(),
    ensures
        items_of(xs, k).len() == k,
        forall|i: int| 0 <= i < k ==> #[trigger] items_of(xs, k)[i] == json_of(xs@[i]),
    decreases k,
{
    if k > 0 {
        lemma_items_of(xs, (k - 1) as nat);
    }
}

/// The entry keys and values line up with the entries.
pub proof fn lemma_entries_of(es: Vec<(String, JsonValue)>, k: nat)
    requires
        k <= es@.len(),
    ensures
        entries_of(es, k).len() == k,
        forall|i: int|
            0 <= i < k ==> #[trigger] entries_of(es, k)[i] == (es@[i].0@, json_of(es@[i].1)),
    decreases k,
{
    if k > 0 {
        lemma_entries_of(es, (k - 1) as nat);
    }
}

/// Equality of two floats given by their bits: the same bits, or both zero
/// (of either sign).
pub open spec fn float_eq(x: u64, y: u64) -> bool {
    x == y || ((x == 0 || x == 0x8000_0000_0000_0000) && (y == 0 || y == 0x8000_0000_0000_0000))
}

/// Equality of JSON values (`serde_json::Value`'s `==`): the same kind and the
/// same contents, floats compared as numbers, objects entry by entry.
pub open spec fn json_eq(a: Json, b: Json) -> bool
    decreases a,
{
    match a {
        Json::Null => b is Null,
        Json::Bool(x) => b matches Json::Bool(y) && x == y,
        Json::PosInt(x) => b matches Json::PosInt(y) && x == y,
        Json::NegInt(x) => b matches Json::NegInt(y) && x == y,
        Json::Float(x, _) => b matches Json::Float(y, _) && float_eq(x, y),
        Json::Str(x) => b matches Json::Str(y) && x == y,
        Json::Array(xs) => b matches Json::Array(ys) && xs.len() == ys.len() && forall|i: int|
            0 <= i < xs.len() ==> json_eq(#[trigger] xs[i], ys[i]),
        Json::Object(xs) => b matches Json::Object(ys) && xs.len() == ys.len() && forall|i: int|
            0 <= i < xs.len() ==> (#[trigger] xs[i]).0 == ys[i].0 && json_eq(xs[i].1, ys[i].1),
    }
}

/// Whether the keys of the entries are in strictly increasing order.
pub open spec fn sorted_keys(es: Seq<(Seq<char>, Json)>) -> bool {
    forall|i: int, j: int| 0 <= i < j < es.len() ==> name_lt(#[trigger] es[i].0, #[trigger] es[j].0)
}

/// Whether every object in the value has its keys in strictly increasing
/// order, as a JSON map keeps them.
pub open spec fn wf(j: Json) -> bool
    decreases j,
{
    match j {
        Json::Array(xs) => forall|i: int| 0 <= i < xs.len() ==> wf(#[trigger] xs[i]),
        Json::Object(es) => sorted_keys(es) && forall|i: int| 0 <= i < es.len() ==> wf(#[trigger] es[i].1),
        _ => true,
    }
}

/// Every value equals itself.
pub proof fn lemma_json_eq_refl(a: Json)
    ensures
        json_eq(a, a),
    decreases a,
{
    match a {
        Json::Array(xs) => {
            assert forall|i: int| 0 <= i < xs.len() implies json_eq(#[trigger] xs[i], xs[i]) by {
                lemma_json_eq_refl(xs[i]);
            }
        },
        Json::Object(xs) => {
            assert forall|i: int| 0 <= i < xs.len() implies (#[trigger] xs[i]).0 == xs[i].0 && json_eq(
                xs[i].1,
                xs[i].1,
            ) by {
                lemma_json_eq_refl(xs[i].1);
            }
        },
        _ => {},
    }
}

/// Equality is symmetric.
pub proof fn lemma_json_eq_sym(a: Json, b: Json)
    requires
        json_eq(a, b),
    ensures
        json_eq(b, a),
    decreases a,
{
    match a {
        Json::Array(xs) => {
            let ys = b->Array_0;
            assert forall|i: int| 0 <= i < ys.len() implies json_eq(#[trigger] ys[i], xs[i]) by {
                lemma_json_eq_sym(xs[i], ys[i]);
            }
        },
        Json::Object(xs) => {
            let ys = b->Object_0;
            assert forall|i: int| 0 <= i < ys.len() implies (#[trigger] ys[i]).0 == xs[i].0 && json_eq(
                ys[i].1,
                xs[i].1,
            ) by {
                assert(xs[i].0 == ys[i].0 && json_eq(xs[i].1, ys[i].1));
                lemma_json_eq_sym(xs[i].1, ys[i].1);
            }
        },
        _ => {},
    }
}

/// Equality is transitive.
pub proof fn lemma_json_eq_trans(a: Json, b: Json, c: Json)
    requires
        json_eq(a, b),
        json_eq(b, c),
    ensures
        json_eq(a, c),
    decreases a,
{
    match a {
        Json::Array(xs) => {
            let ys = b->Array_0;
            let zs = c->Array_0;
            assert forall|i: int| 0 <= i < xs.len() implies json_eq(#[trigger] xs[i], zs[i]) by {
                assert(json_eq(ys[i], zs[i]));
                lemma_json_eq_trans(xs[i], ys[i], zs[i]);
            }
        },
        Json::Object(xs) => {
            let ys = b->Object_0;
            let zs = c->Object_0;
            assert forall|i: int| 0 <= i < xs.len() implies (#[trigger] xs[i]).0 == zs[i].0 && json_eq(
                xs[i].1,
                zs[i].1,
            ) by {
                assert(ys[i].0 == zs[i].0 && json_eq(ys[i].1, zs[i].1));
                lemma_json_eq_trans(xs[i].1, ys[i].1, zs[i].1);
            }
        },
        _ => {},
    }
}

/// Whether two values are equal ([`json_eq`]).
pub fn json_equal(a: &JsonValue, b: &JsonValue) -> (r: bool)
    ensures
        r == json_eq(a@, b@),
    decreases a,
{
    match (a, b) {
        (JsonValue::Null, JsonValue::Null) => true,
        (JsonValue::Bool(x), JsonValue::Bool(y)) => *x == *y,
        (JsonValue::PosInt(x), JsonValue::PosInt(y)) => *x == *y,
        (JsonValue::NegInt(x), JsonValue::NegInt(y)) => *x == *y,
        (JsonValue::Float(x, _), JsonValue::Float(y, _)) => *x == *y || ((*x == 0 || *x
            == 0x8000_0000_0000_0000) && (*y == 0 || *y == 0x8000_0000_0000_0000)),
        (JsonValue::Str(x), JsonValue::Str(y)) => str_eq(x.as_str(), y.as_str()),
        (JsonValue::Array(xs), JsonValue::Array(ys)) => {
            proof {
                lemma_items_of(*xs, xs@.len());
                lemma_items_of(*ys, ys@.len());
            }
            if xs.len() != ys.len() {
                return false;
            }
            let mut i: usize = 0;
            while i < xs.len()
                invariant
                    *a == JsonValue::Array(*xs),
                    *b == JsonValue::Array(*ys),
                    i <= xs@.len(),
                    xs@.len() == ys@.len(),
                    items_of(*xs, xs@.len()).len() == xs@.len(),
                    items_of(*ys, ys@.len()).len() == ys@.len(),
                    forall|k: int| 0 <= k < xs@.len() ==> #[trigger] items_of(*xs, xs@.len())[k] == json_of(xs@[k]),
                    forall|k: int| 0 <= k < ys@.len() ==> #[trigger] items_of(*ys, ys@.len())[k] == json_of(ys@[k]),
                    forall|k: int| 0 <= k < i ==> json_eq(json_of(#[trigger] xs@[k]), json_of(ys@[k])),
                decreases xs.len() - i,
            {
                proof {
                    assert(decreases_to!(*a => a->Array_0));
                    assert(decreases_to!(*xs => xs@));
                    assert(decreases_to!(xs@ => xs@[i as int]));
                    assert(decreases_to!(*a => xs@[i as int]));
                }
                if !json_equal(&xs[i], &ys[i]) {
                    proof {
                        assert(items_of(*xs, xs@.len())[i as int] == json_of(xs@[i as int]));
                        assert(items_of(*ys, ys@.len())[i as int] == json_of(ys@[i as int]));
                    }
                    return false;
                }
                i += 1;
            }
            proof {
                let a2 = items_of(*xs, xs@.len());
                let b2 = items_of(*ys, ys@.len());
                assert forall|k: int| 0 <= k < a2.len() implies json_eq(#[trigger] a2[k], b2[k]) by {
                    assert(json_eq(json_of(xs@[k]), json_of(ys@[k])));
                }
            }
            true
        },
        (JsonValue::Object(xs), JsonValue::Object(ys)) => {
            proof {
                lemma_entries_of(*xs, xs@.len());
                lemma_entries_of(*ys, ys@.len());
            }
            if xs.len() != ys.len() {
                return false;
            }
            let mut i: usize = 0;
            while i < xs.len()
                invariant
                    *a == JsonValue::Object(*xs),
                    *b == JsonValue::Object(*ys),
                    i <= xs@.len(),
                    xs@.len() == ys@.len(),
                    entries_of(*xs, xs@.len()).len() == xs@.len(),
                    entries_of(*ys, ys@.len()).len() == ys@.len(),
                    forall|k: int|
                        0 <= k < xs@.len() ==> #[trigger] entries_of(*xs, xs@.len())[k] == (
                            xs@[k].0@,
                            json_of(xs@[k].1),
                        ),
                    forall|k: int|
                        0 <= k < ys@.len() ==> #[trigger] entries_of(*ys, ys@.len())[k] == (
                            ys@[k].0@,
                            json_of(ys@[k].1),
                        ),
                    forall|k: int|
                        0 <= k < i ==> (#[trigger] xs@[k]).0@ == ys@[k].0@ && json_eq(
                            json_of(xs@[k].1),
                            json_of(ys@[k].1),
                        ),
                decreases xs.len() - i,
            {
                proof {
                    assert(decreases_to!(*a => a->Object_0));
                    assert(decreases_to!(*xs => xs@));
                    assert(decreases_to!(xs@ => xs@[i as int]));
                    assert(decreases_to!(xs@[i as int] => xs@[i as int].1));
                    assert(decreases_to!(*a => xs@[i as int].1));
                }
                if !str_eq(xs[i].0.as_str(), ys[i].0.as_str()) || !json_equal(&xs[i].1, &ys[i].1) {
                    proof {
                        assert(entries_of(*xs, xs@.len())[i as int] == (xs@[i as int].0@, json_of(xs@[i as int].1)));
                        assert(entries_of(*ys, ys@.len())[i as int] == (ys@[i as int].0@, json_of(ys@[i as int].1)));
                    }
                    return false;
                }
                i += 1;
            }
            proof {
                let a2 = entries_of(*xs, xs@.len());
                let b2 = entries_of(*ys, ys@.len());
                assert forall|k: int| 0 <= k < a2.len() implies (#[trigger] a2[k]).0 == b2[k].0 && json_eq(
                    a2[k].1,
                    b2[k].1,
                ) by {
                    assert(xs@[k].0@ == ys@[k].0@);
                }
            }
            true
        },
        _ => false,
    }
}

/// A copy of a value ([`JsonValue`]'s `Clone`, with its contract).
pub fn copy_json(v: &JsonValue) -> (r: JsonValue)
    ensures
        r@ == v@,
    decreases v,
{
    match v {
        JsonValue::Null => JsonValue::Null,
        JsonValue::Bool(b) => JsonValue::Bool(*b),
        JsonValue::PosInt(n) => JsonValue::PosInt(*n),
        JsonValue::NegInt(n) => JsonValue::NegInt(*n),
        JsonValue::Float(bits, text) => JsonValue::Float(*bits, text.clone()),
        JsonValue::Str(s) => JsonValue::Str(s.clone()),
        JsonValue::Array(xs) => {
            let mut out: Vec<JsonValue> = Vec::new();
            let mut i: usize = 0;
            while i < xs.len()
                invariant
                    *v == JsonValue::Array(*xs),
                    i <= xs@.len(),
                    out@.len() == i,
                    forall|k: int| 0 <= k < i ==> json_of(#[trigger] out@[k]) == json_of(xs@[k]),
                decreases xs.len() - i,
            {
                proof {
                    assert(decreases_to!(*v => v->Array_0));
                    assert(decreases_to!(*xs => xs@));
                    assert(decreases_to!(xs@ => xs@[i as int]));
                    assert(decreases_to!(*v => xs@[i as int]));
                }
                out.push(copy_json(&xs[i]));
                i += 1;
            }
            proof {
                lemma_items_of(*xs, xs@.len());
                lemma_items_of(out, out@.len());
                assert(items_of(out, out@.len()) =~= items_of(*xs, xs@.len()));
            }
            JsonValue::Array(out)
        },
        JsonValue::Object(es) => {
            let mut out: Vec<(String, JsonValue)> = Vec::new();
            let mut i: usize = 0;
            while i < es.len()
                invariant
                    *v == JsonValue::Object(*es),
                    i <= es@.len(),
                    out@.len() == i,
                    forall|k: int|
                        0 <= k < i ==> (#[trigger] out@[k]).0@ == es@[k].0@ && json_of(out@[k].1) == json_of(
                            es@[k].1,
                        ),
                decreases es.len() - i,
            {
                proof {
                    assert(decreases_to!(*v => v->Object_0));
                    assert(decreases_to!(*es => es@));
                    assert(decreases_to!(es@ => es@[i as int]));
                    assert(decreases_to!(es@[i as int] => es@[i as int].1));
                    assert(decreases_to!(*v => es@[i as int].1));
                }
                out.push((es[i].0.clone(), copy_json(&es[i].1)));
                i += 1;
            }
            proof {
                lemma_entries_of(*es, es@.len());
                lemma_entries_of(out, out@.len());
                assert(entries_of(out, out@.len()) =~= entries_of(*es, es@.len()));
            }
            JsonValue::Object(out)
        },
    }
}

impl Clone for JsonValue {
    fn clone(&self) -> (r: Self)
        ensures
            r@ == self@,
    {
        copy_json(self)
    }
}

/// The size of a value: one for each value in it, nested ones included.
pub open spec fn json_size(j: Json) -> nat
    decreases j, 1nat, 0nat,
{
    match j {
        Json::Array(xs) => 1 + items_size(xs, 0),
        Json::Object(es) => 1 + entries_size(es, 0),
        _ => 1,
    }
}

/// The total size of the items from index `i` on.
pub open spec fn items_size(xs: Seq<Json>, i: int) -> nat
    decreases xs, 0nat, xs.len() - i,
{
    if i < 0 || i >= xs.len() {
        0
    } else {
        json_size(xs[i]) + items_size(xs, i + 1)
    }
}

/// The total size of the entries from index `i` on, counting one for each
/// entry besides the size of its value.
pub open spec fn entries_size(es: Seq<(Seq<char>, Json)>, i: int) -> nat
    decreases es, 0nat, es.len() - i,
{
    if i < 0 || i >= es.len() {
        0
    } else {
        proof {
            assert(decreases_to!(es => es[i]));
            assert(decreases_to!(es[i] => es[i].1));
        }
        1 + json_size(es[i].1) + entries_size(es, i + 1)
    }
}

/// The entries from `i` on weigh at least as much as those from any later
/// index, and more than the value of any entry among them.
pub proof fn lemma_entries_size(es: Seq<(Seq<char>, Json)>, i: int, j: int)
    requires
        0 <= i <= j <= es.len(),
    ensures
        entries_size(es, i) >= entries_size(es, j),
        j < es.len() ==> entries_size(es, i) > json_size(es[j].1),
    decreases j - i,
{
    if i < j {
        lemma_entries_size(es, i + 1, j);
    }
}

// ─── Canonical JSON ──────────────────────────────────────────────────────────

/// How parsing and pretty-printing JSON with `serde_json` failed.
pub enum JsonFailure {
    /// The bytes are not one JSON document; the parser's message.
    Parse(String),
    /// The parsed value could not be printed; the printer's message.
    Print(String),
}

/// Whether `serde_json` accepts the bytes as one JSON document.
pub uninterp spec fn json_valid(source: Seq<u8>) -> bool;

/// What `serde_json::to_vec_pretty` prints for the `serde_json::Value` that
/// `serde_json::from_slice` parses from the bytes.
pub uninterp spec fn json_pretty(source: Seq<u8>) -> Seq<u8>;

/// `serde_json::from_slice` into a `serde_json::Value`, then
/// `serde_json::to_vec_pretty` of it. The parse succeeds exactly when the
/// bytes hold one JSON document, and both steps depend on the bytes alone, so
/// the printed bytes are named ([`json_pretty`]). Printing a `Value` into a
/// `Vec` does not fail: the value's serializer fails only on a map key that
/// is not a string or on a failed write, and a `Value`'s keys are strings and
/// writes to a `Vec` succeed. Nothing is stated of the messages.
#[verifier::external_body]
fn pretty_json(source: &[u8]) -> (r: Result<Vec<u8>, JsonFailure>)
    ensures
        (r matches Err(f) && f is Parse) <==> !json_valid(source@),
        r is Ok <==> json_valid(source@),
        r matches Ok(b) ==> b@ == json_pretty(source@),
{
    let v: serde_json::Value = match serde_json::from_slice(source) {
        Ok(v) => v,
        Err(e) => return Err(JsonFailure::Parse(e.to_string())),
    };
    serde_json::to_vec_pretty(&v).map_err(|e| JsonFailure::Print(e.to_string()))
}

/// Parses `source` as JSON and returns its canonical form: sorted-key pretty
/// JSON ([`json_pretty`]) with a trailing newline.
///
/// [`crate::Error::Parsing`] exactly when `source` is not valid JSON;
/// otherwise always the canonical bytes.
pub fn canonicalize(source: &[u8]) -> (r: Result<Vec<u8>, crate::Error>)
    ensures
        !json_valid(source@) ==> (r matches Err(e) && e is Parsing),
        json_valid(source@) ==> (r matches Ok(out) && out@ == json_pretty(source@).push(10u8)),
{
    let mut out = match pretty_json(source) {
        Ok(b) => b,
        Err(JsonFailure::Parse(e)) => {
            let mut m = String::from_str("invalid JSON: ");
            push_str(&mut m, e.as_str());
            return Err(crate::Error::Parsing(m));
        },
        Err(JsonFailure::Print(e)) => return Err(crate::Error::Serialization(e)),
    };
    out.push(10u8);
    Ok(out)
}

} // verus!
