//! Node identity: matching top-level definitions across two versions.
//!
//! A definition's formatting-invariant hashes recognise the same node across
//! an edit: equal content hash (name and body) means unchanged, wherever it
//! moved; an equal name with a different body is a modification; an equal
//! shape hash (body with the name blanked) is a rename. [`match_defs`] layers
//! these strongest-first, then pairs what is left (a different name and a
//! different body) by the Sørensen–Dice similarity of their Merkle subtree-hash
//! multisets, greedily and above a threshold: a node renamed and edited at
//! once.

use vstd::prelude::*;
use vstd::multiset::Multiset;
use crate::printer::Def;
use crate::text::{decimal, lemma_seq_assoc, push_decimal, push_str, str_eq};

verus! {

broadcast use {vstd::seq_lib::group_to_multiset_ensures, lemma_seq_assoc};

/// How a definition corresponds across two versions.
#[derive(Debug, Clone, PartialEq, Eq)]
pub enum Correspondence {
    /// Same name and body (content-identical; position ignored).
    Unchanged { name: String },
    /// Same body, different name.
    Renamed { from: String, to: String },
    /// Renamed and edited: a different name and a different body, but bodies
    /// similar enough to be the same node. `similarity` is a Dice percentage
    /// (0–100) over the subtree hashes.
    RenamedEdited { from: String, to: String, similarity: u8 },
    /// Same name, different body.
    Modified { name: String },
    /// Present only in the new version.
    Added { name: String },
    /// Present only in the old version.
    Removed { name: String },
}

/// A correspondence as plain values.
pub enum Corr {
    Unchanged(Seq<char>),
    Renamed(Seq<char>, Seq<char>),
    RenamedEdited(Seq<char>, Seq<char>, u8),
    Modified(Seq<char>),
    Added(Seq<char>),
    Removed(Seq<char>),
}

impl View for Correspondence {
    type V = Corr;

    open spec fn view(&self) -> Corr {
        match self {
            Correspondence::Unchanged { name } => Corr::Unchanged(name@),
            Correspondence::Renamed { from, to } => Corr::Renamed(from@, to@),
            Correspondence::RenamedEdited { from, to, similarity } => Corr::RenamedEdited(
                from@,
                to@,
                *similarity,
            ),
            Correspondence::Modified { name } => Corr::Modified(name@),
            Correspondence::Added { name } => Corr::Added(name@),
            Correspondence::Removed { name } => Corr::Removed(name@),
        }
    }
}

/// The correspondences as plain values.
pub open spec fn corr_views(cs: Seq<Correspondence>) -> Seq<Corr> {
    cs.map_values(|c: Correspondence| c@)
}

// ─── Similarity ──────────────────────────────────────────────────────────────

/// The size of the multiset intersection of `a` and `b`.
pub open spec fn common(a: Seq<u64>, b: Seq<u64>) -> nat {
    a.to_multiset().intersection_with(b.to_multiset()).len()
}

/// The Sørensen–Dice coefficient `2·|A∩B| / (|A|+|B|)` of two subtree-hash
/// multisets, as a pair `(n, d)` standing for `2n/d`: two empty multisets are
/// identical (`1`), an empty and a non-empty one share nothing (`0`).
pub open spec fn dice(a: Seq<u64>, b: Seq<u64>) -> (nat, nat) {
    if a.len() == 0 || b.len() == 0 {
        if a.len() == b.len() {
            (1, 2)
        } else {
            (0, 1)
        }
    } else {
        (common(a, b), a.len() + b.len())
    }
}

/// Whether a similarity `2n/d` reaches the fuzzy-match threshold of one half.
pub open spec fn reaches_threshold(s: (nat, nat)) -> bool {
    4 * s.0 >= s.1
}

/// A similarity `2n/d` as a percentage, rounded half up.
pub open spec fn percent(s: (nat, nat)) -> u8 {
    ((400 * s.0 + s.1) / (2 * s.1)) as u8
}

/// Whether similarity `p` is strictly greater than similarity `q`.
pub open spec fn more_similar(p: (nat, nat), q: (nat, nat)) -> bool {
    p.0 * q.1 > q.0 * p.1
}

/// How often `x` occurs in `s`.
fn count_of(s: &Vec<u64>, end: usize, x: u64) -> (r: usize)
    requires
        end <= s@.len(),
    ensures
        r == s@.take(end as int).to_multiset().count(x),
{
    let mut c: usize = 0;
    let mut i: usize = 0;
    while i < end
        invariant
            i <= end <= s@.len(),
            c == s@.take(i as int).to_multiset().count(x),
            c <= i,
        decreases end - i,
    {
        proof {
            assert(s@.take(i + 1) =~= s@.take(i as int).push(s@[i as int]));
        }
        if s[i] == x {
            c += 1;
        }
        i += 1;
    }
    c
}

/// The size of the multiset intersection of `a` and `b` ([`common`]).
fn common_exec(a: &Vec<u64>, b: &Vec<u64>) -> (r: usize)
    ensures
        r == common(a@, b@),
        r <= b@.len(),
{
    let ghost ma = a@.to_multiset();
    let mut inter: usize = 0;
    let mut k: usize = 0;
    proof {
        assert(b@.take(0) =~= Seq::<u64>::empty());
        assert(ma.intersection_with(b@.take(0).to_multiset()) =~= Multiset::empty()) by {
            broadcast use vstd::multiset::lemma_intersection_count;
        }
    }
    while k < b.len()
        invariant
            k <= b@.len(),
            inter <= k,
            ma == a@.to_multiset(),
            inter == ma.intersection_with(b@.take(k as int).to_multiset()).len(),
        decreases b.len() - k,
    {
        let h = b[k];
        let ca = count_of(a, a.len(), h);
        let cb = count_of(b, k, h);
        proof {
            assert(a@.take(a@.len() as int) =~= a@);
            let mb = b@.take(k as int).to_multiset();
            assert(b@.take(k + 1) =~= b@.take(k as int).push(h));
            let mb2 = b@.take(k + 1).to_multiset();
            assert(mb2 =~= mb.insert(h));
            let i1 = ma.intersection_with(mb);
            let i2 = ma.intersection_with(mb2);
            broadcast use vstd::multiset::lemma_intersection_count;
            if ca > cb {
                assert(i2 =~= i1.insert(h));
            } else {
                assert(i2 =~= i1);
            }
        }
        if ca > cb {
            inter += 1;
        }
        k += 1;
    }
    proof {
        assert(b@.take(b@.len() as int) =~= b@);
    }
    inter
}

/// The similarity of two subtree-hash multisets ([`dice`]).
fn structural_dice(a: &Vec<u64>, b: &Vec<u64>) -> (r: (u128, u128))
    ensures
        r.0 == dice(a@, b@).0,
        r.1 == dice(a@, b@).1,
        r.0 < 0x1_0000_0000_0000_0000,
        0 < r.1 < 0x2_0000_0000_0000_0000,
{
    if a.len() == 0 || b.len() == 0 {
        if a.len() == b.len() {
            (1, 2)
        } else {
            (0, 1)
        }
    } else {
        let n = common_exec(a, b);
        (n as u128, a.len() as u128 + b.len() as u128)
    }
}

/// Whether `2·x1 + y1 > 2·x2 + y2`, for `x < 2^128` and `y < 2^64`.
fn twice_plus_gt(x1: u128, y1: u128, x2: u128, y2: u128) -> (r: bool)
    requires
        y1 < 0x1_0000_0000_0000_0000,
        y2 < 0x1_0000_0000_0000_0000,
    ensures
        r == (2 * x1 + y1 > 2 * x2 + y2),
{
    if x1 > x2 {
        let d = x1 - x2;
        if d >= 0x8000_0000_0000_0000 {
            true
        } else {
            2 * d + y1 > y2
        }
    } else {
        let d = x2 - x1;
        if d >= 0x8000_0000_0000_0000 {
            false
        } else {
            y1 > 2 * d + y2
        }
    }
}

/// `x·y` as `2·X + Y` with `X < 2^128` and `Y < 2^64`, for `x < 2^64` and
/// `y < 2^65`.
fn split_product(x: u128, y: u128) -> (r: (u128, u128))
    requires
        x < 0x1_0000_0000_0000_0000,
        y < 0x2_0000_0000_0000_0000,
    ensures
        2 * r.0 + r.1 == x * y,
        r.1 < 0x1_0000_0000_0000_0000,
{
    let h = y / 2;
    let m = y % 2;
    assert(x * h < 0x1_0000_0000_0000_0000_0000_0000_0000_0000) by (nonlinear_arith)
        requires
            x < 0x1_0000_0000_0000_0000,
            h < 0x1_0000_0000_0000_0000,
    ;
    assert(x * y == 2 * (x * h) + x * m) by (nonlinear_arith)
        requires
            y == 2 * h + m,
    ;
    assert(x * m <= x) by (nonlinear_arith)
        requires
            m <= 1,
    ;
    (x * h, x * m)
}

/// Whether similarity `p` is strictly greater than `q` ([`more_similar`]).
fn more_similar_exec(p: (u128, u128), q: (u128, u128)) -> (r: bool)
    requires
        p.0 < 0x1_0000_0000_0000_0000,
        q.0 < 0x1_0000_0000_0000_0000,
        p.1 < 0x2_0000_0000_0000_0000,
        q.1 < 0x2_0000_0000_0000_0000,
    ensures
        r == more_similar((p.0 as nat, p.1 as nat), (q.0 as nat, q.1 as nat)),
{
    let a = split_product(p.0, q.1);
    let b = split_product(q.0, p.1);
    twice_plus_gt(a.0, a.1, b.0, b.1)
}

// ─── Matching ────────────────────────────────────────────────────────────────

/// What the matcher has decided so far: which definitions of each side are
/// used, and the correspondences found, in order.
pub struct Marks {
    pub old_used: Seq<bool>,
    pub new_used: Seq<bool>,
    pub out: Seq<Corr>,
}

/// The exact signal of pass `kind`: 1 an equal content hash, 2 an equal name,
/// 3 an equal shape hash.
pub open spec fn pass_matches(kind: int, o: Def, n: Def) -> bool {
    if kind == 1 {
        n.content_hash@ == o.content_hash@
    } else if kind == 2 {
        n.name@ == o.name@
    } else {
        n.shape_hash@ == o.shape_hash@
    }
}

/// The correspondence that pass `kind` records for a matched pair.
pub open spec fn pass_corr(kind: int, o: Def, n: Def) -> Corr {
    if kind == 1 {
        Corr::Unchanged(n.name@)
    } else if kind == 2 {
        Corr::Modified(o.name@)
    } else {
        Corr::Renamed(o.name@, n.name@)
    }
}

/// The first unused new definition at or after `j` that pass `kind` matches
/// with `o`, or -1.
pub open spec fn first_unused(new: Seq<Def>, used: Seq<bool>, o: Def, kind: int, j: int) -> int
    decreases new.len() - j,
{
    if j < 0 || j >= new.len() {
        -1
    } else if used[j] == false && pass_matches(kind, o, new[j]) {
        j
    } else {
        first_unused(new, used, o, kind, j + 1)
    }
}

/// Pass `kind` over the old definitions from index `i` on: each unused one
/// is paired with the first unused new definition that the pass matches, and
/// both are used.
pub open spec fn exact_pass(old: Seq<Def>, new: Seq<Def>, kind: int, i: int, m: Marks) -> Marks
    decreases old.len() - i,
{
    if i < 0 || i >= old.len() {
        m
    } else if m.old_used[i] {
        exact_pass(old, new, kind, i + 1, m)
    } else {
        let j = first_unused(new, m.new_used, old[i], kind, 0);
        if j < 0 {
            exact_pass(old, new, kind, i + 1, m)
        } else {
            exact_pass(
                old,
                new,
                kind,
                i + 1,
                Marks {
                    old_used: m.old_used.update(i, true),
                    new_used: m.new_used.update(j, true),
                    out: m.out.push(pass_corr(kind, old[i], new[j])),
                },
            )
        }
    }
}

/// The three exact passes, strongest signal first, from nothing used.
pub open spec fn exact_passes(old: Seq<Def>, new: Seq<Def>) -> Marks {
    let m0 = Marks {
        old_used: Seq::new(old.len(), |i: int| false),
        new_used: Seq::new(new.len(), |j: int| false),
        out: Seq::empty(),
    };
    exact_pass(old, new, 3, 0, exact_pass(old, new, 2, 0, exact_pass(old, new, 1, 0, m0)))
}

/// The similarity of old definition `i` and new definition `j`.
pub open spec fn sim(old: Seq<Def>, new: Seq<Def>, i: int, j: int) -> (nat, nat) {
    dice(old[i].subtree_hashes@, new[j].subtree_hashes@)
}

/// Whether old `i` and new `j` are both unused and similar enough to pair.
pub open spec fn is_candidate(
    old: Seq<Def>,
    new: Seq<Def>,
    ou: Seq<bool>,
    nu: Seq<bool>,
    i: int,
    j: int,
) -> bool {
    &&& 0 <= i < old.len()
    &&& i < ou.len()
    &&& 0 <= j < new.len()
    &&& j < nu.len()
    &&& ou[i] == false
    &&& nu[j] == false
    &&& reaches_threshold(sim(old, new, i, j))
}

/// The ranking of pairs: higher similarity first, then lower old index, then
/// lower new index.
pub open spec fn ranks_before(old: Seq<Def>, new: Seq<Def>, i1: int, j1: int, i2: int, j2: int) -> bool {
    let p = sim(old, new, i1, j1);
    let q = sim(old, new, i2, j2);
    more_similar(p, q) || (!more_similar(q, p) && (i1 < i2 || (i1 == i2 && j1 < j2)))
}

/// Whether `(i, j)` is the candidate pair that ranks first.
pub open spec fn is_best(old: Seq<Def>, new: Seq<Def>, ou: Seq<bool>, nu: Seq<bool>, i: int, j: int) -> bool {
    &&& is_candidate(old, new, ou, nu, i, j)
    &&& forall|a: int, b: int|
        #[trigger] is_candidate(old, new, ou, nu, a, b) && (a != i || b != j) ==> ranks_before(
            old,
            new,
            i,
            j,
            a,
            b,
        )
}

/// The number of unused entries.
pub open spec fn unused_count(s: Seq<bool>) -> nat
    decreases s.len(),
{
    if s.len() == 0 {
        0
    } else {
        unused_count(s.drop_last()) + if s.last() {
            0nat
        } else {
            1nat
        }
    }
}

/// Using an unused entry leaves one fewer unused.
pub proof fn lemma_unused_count_update(s: Seq<bool>, i: int)
    requires
        0 <= i < s.len(),
        s[i] == false,
    ensures
        unused_count(s.update(i, true)) + 1 == unused_count(s),
    decreases s.len(),
{
    let t = s.update(i, true);
    if i < s.len() - 1 {
        assert(t.drop_last() =~= s.drop_last().update(i, true));
        lemma_unused_count_update(s.drop_last(), i);
    } else {
        assert(t.drop_last() =~= s.drop_last());
    }
}

/// The fuzzy pass: while a candidate pair is left, the best-ranked one is
/// paired (`partner` records the new index of each paired old definition)
/// and both are used.
pub open spec fn fuzzy_rounds(
    old: Seq<Def>,
    new: Seq<Def>,
    ou: Seq<bool>,
    nu: Seq<bool>,
    partner: Seq<Option<usize>>,
) -> (Seq<bool>, Seq<bool>, Seq<Option<usize>>)
    decreases unused_count(ou),
{
    if exists|i: int, j: int| is_best(old, new, ou, nu, i, j) {
        let (i, j) = choose|i: int, j: int| is_best(old, new, ou, nu, i, j);
        proof {
            lemma_unused_count_update(ou, i);
        }
        fuzzy_rounds(old, new, ou.update(i, true), nu.update(j, true), partner.update(i, Some(j as usize)))
    } else {
        (ou, nu, partner)
    }
}

/// The renamed-and-edited correspondences of the old definitions before `k`,
/// in old order.
pub open spec fn fuzzy_out(old: Seq<Def>, new: Seq<Def>, partner: Seq<Option<usize>>, k: int) -> Seq<Corr>
    decreases k,
{
    if k <= 0 {
        Seq::empty()
    } else {
        fuzzy_out(old, new, partner, k - 1) + match partner[k - 1] {
            Some(j) => seq![
                Corr::RenamedEdited(old[k - 1].name@, new[j as int].name@, percent(sim(old, new, k - 1, j as int))),
            ],
            None => Seq::empty(),
        }
    }
}

/// `Removed` for each unused old definition before `k`, in order.
pub open spec fn removed_out(old: Seq<Def>, ou: Seq<bool>, k: int) -> Seq<Corr>
    decreases k,
{
    if k <= 0 {
        Seq::empty()
    } else {
        removed_out(old, ou, k - 1) + if ou[k - 1] {
            Seq::empty()
        } else {
            seq![Corr::Removed(old[k - 1].name@)]
        }
    }
}

/// `Added` for each unused new definition before `k`, in order.
pub open spec fn added_out(new: Seq<Def>, nu: Seq<bool>, k: int) -> Seq<Corr>
    decreases k,
{
    if k <= 0 {
        Seq::empty()
    } else {
        added_out(new, nu, k - 1) + if nu[k - 1] {
            Seq::empty()
        } else {
            seq![Corr::Added(new[k - 1].name@)]
        }
    }
}

/// The correspondences between two versions: the exact passes' matches in
/// the order found, then the fuzzy matches in old order, then the removed old
/// definitions, then the added new ones.
pub open spec fn matching(old: Seq<Def>, new: Seq<Def>) -> Seq<Corr> {
    let m = exact_passes(old, new);
    let f = fuzzy_rounds(old, new, m.old_used, m.new_used, Seq::new(old.len(), |i: int| None));
    m.out + fuzzy_out(old, new, f.2, old.len() as int) + removed_out(old, f.0, old.len() as int)
        + added_out(new, f.1, new.len() as int)
}

// ─── Matching, executable ────────────────────────────────────────────────────

/// Whether pass `kind` matches `o` with `n` ([`pass_matches`]).
fn pass_matches_exec(kind: u8, o: &Def, n: &Def) -> (r: bool)
    ensures
        r == pass_matches(kind as int, *o, *n),
{
    if kind == 1 {
        str_eq(n.content_hash.as_str(), o.content_hash.as_str())
    } else if kind == 2 {
        str_eq(n.name.as_str(), o.name.as_str())
    } else {
        str_eq(n.shape_hash.as_str(), o.shape_hash.as_str())
    }
}

/// The correspondence that pass `kind` records ([`pass_corr`]).
fn pass_corr_exec(kind: u8, o: &Def, n: &Def) -> (r: Correspondence)
    ensures
        r@ == pass_corr(kind as int, *o, *n),
{
    if kind == 1 {
        Correspondence::Unchanged { name: n.name.clone() }
    } else if kind == 2 {
        Correspondence::Modified { name: o.name.clone() }
    } else {
        Correspondence::Renamed { from: o.name.clone(), to: n.name.clone() }
    }
}

/// One exact pass ([`exact_pass`]).
fn exact_pass_exec(
    olds: &[Def],
    news: &[Def],
    kind: u8,
    old_used: &mut Vec<bool>,
    new_used: &mut Vec<bool>,
    out: &mut Vec<Correspondence>,
)
    requires
        old(old_used)@.len() == olds@.len(),
        old(new_used)@.len() == news@.len(),
    ensures
        ({
            let m = exact_pass(
                olds@,
                news@,
                kind as int,
                0,
                Marks { old_used: old(old_used)@, new_used: old(new_used)@, out: corr_views(old(out)@) },
            );
            &&& final(old_used)@ == m.old_used
            &&& final(new_used)@ == m.new_used
            &&& corr_views(final(out)@) == m.out
        }),
        final(old_used)@.len() == olds@.len(),
        final(new_used)@.len() == news@.len(),
{
    let ghost target = exact_pass(
        olds@,
        news@,
        kind as int,
        0,
        Marks { old_used: old_used@, new_used: new_used@, out: corr_views(out@) },
    );
    let mut i: usize = 0;
    while i < olds.len()
        invariant
            i <= olds@.len(),
            old_used@.len() == olds@.len(),
            new_used@.len() == news@.len(),
            target == exact_pass(
                olds@,
                news@,
                kind as int,
                i as int,
                Marks { old_used: old_used@, new_used: new_used@, out: corr_views(out@) },
            ),
        decreases olds.len() - i,
    {
        if !old_used[i] {
            let ghost m = Marks { old_used: old_used@, new_used: new_used@, out: corr_views(out@) };
            let mut j: usize = 0;
            let mut found = false;
            while j < news.len() && !found
                invariant
                    j <= news@.len(),
                    i < olds@.len(),
                    new_used@.len() == news@.len(),
                    new_used@ == m.new_used,
                    found ==> j < news@.len() && first_unused(news@, m.new_used, olds@[i as int], kind as int, 0) == j,
                    !found ==> first_unused(news@, m.new_used, olds@[i as int], kind as int, 0) == first_unused(
                        news@,
                        m.new_used,
                        olds@[i as int],
                        kind as int,
                        j as int,
                    ),
                decreases news.len() - j, if found { 0int } else { 1int },
            {
                if !new_used[j] && pass_matches_exec(kind, &olds[i], &news[j]) {
                    found = true;
                } else {
                    j += 1;
                }
            }
            if found {
                old_used.set(i, true);
                new_used.set(j, true);
                out.push(pass_corr_exec(kind, &olds[i], &news[j]));
                proof {
                    assert(corr_views(out@) =~= m.out.push(pass_corr(kind as int, olds@[i as int], news@[j as int])));
                }
            }
        }
        i += 1;
    }
}

/// A candidate pair as found: old index, new index, and its similarity.
type Entry = (usize, usize, u128, u128);

/// Every entry is a pair unused in `ou`/`nu`, with its similarity, above the
/// threshold.
spec fn table_sound(old: Seq<Def>, new: Seq<Def>, ou: Seq<bool>, nu: Seq<bool>, table: Seq<Entry>) -> bool {
    forall|t: int|
        0 <= t < table.len() ==> {
            let e = #[trigger] table[t];
            &&& is_candidate(old, new, ou, nu, e.0 as int, e.1 as int)
            &&& e.2 as nat == sim(old, new, e.0 as int, e.1 as int).0
            &&& e.3 as nat == sim(old, new, e.0 as int, e.1 as int).1
            &&& e.2 < 0x1_0000_0000_0000_0000
            &&& 0 < e.3 < 0x2_0000_0000_0000_0000
        }
}

/// Every candidate pair of `ou`/`nu` has an entry.
spec fn table_complete(old: Seq<Def>, new: Seq<Def>, ou: Seq<bool>, nu: Seq<bool>, table: Seq<Entry>) -> bool {
    forall|a: int, b: int|
        #[trigger] is_candidate(old, new, ou, nu, a, b) ==> exists|t: int|
            0 <= t < table.len() && (#[trigger] table[t]).0 == a && table[t].1 == b
}

/// The candidate pairs of the state after the exact passes.
fn candidate_table(olds: &[Def], news: &[Def], ou: &Vec<bool>, nu: &Vec<bool>) -> (r: Vec<Entry>)
    requires
        ou@.len() == olds@.len(),
        nu@.len() == news@.len(),
    ensures
        table_sound(olds@, news@, ou@, nu@, r@),
        table_complete(olds@, news@, ou@, nu@, r@),
{
    let mut table: Vec<Entry> = Vec::new();
    let mut i: usize = 0;
    while i < olds.len()
        invariant
            i <= olds@.len(),
            ou@.len() == olds@.len(),
            nu@.len() == news@.len(),
            table_sound(olds@, news@, ou@, nu@, table@),
            forall|a: int, b: int|
                #[trigger] is_candidate(olds@, news@, ou@, nu@, a, b) && a < i ==> exists|t: int|
                    0 <= t < table@.len() && (#[trigger] table@[t]).0 == a && table@[t].1 == b,
        decreases olds.len() - i,
    {
        let mut j: usize = 0;
        while j < news.len()
            invariant
                i < olds@.len(),
                j <= news@.len(),
                ou@.len() == olds@.len(),
                nu@.len() == news@.len(),
                table_sound(olds@, news@, ou@, nu@, table@),
                forall|a: int, b: int|
                    #[trigger] is_candidate(olds@, news@, ou@, nu@, a, b) && (a < i || (a == i && b < j))
                        ==> exists|t: int| 0 <= t < table@.len() && (#[trigger] table@[t]).0 == a && table@[t].1 == b,
            decreases news.len() - j,
        {
            if !ou[i] && !nu[j] {
                let d = structural_dice(&olds[i].subtree_hashes, &news[j].subtree_hashes);
                if 4 * d.0 >= d.1 {
                    let ghost before = table@;
                    table.push((i, j, d.0, d.1));
                    proof {
                        assert forall|a: int, b: int|
                            #[trigger] is_candidate(olds@, news@, ou@, nu@, a, b) && (a < i || (a == i && b < j + 1))
                                implies exists|t: int| 0 <= t < table@.len() && (#[trigger] table@[t]).0 == a && table@[t].1 == b by {
                            if a == i && b == j {
                                assert(table@[before.len() as int].0 == a);
                            } else {
                                let t = choose|t: int| 0 <= t < before.len() && (#[trigger] before[t]).0 == a && before[t].1 == b;
                                assert(table@[t] == before[t]);
                            }
                        }
                    }
                }
            }
            j += 1;
        }
        i += 1;
    }
    table
}

proof fn lemma_more_similar_trans(p: (nat, nat), q: (nat, nat), r: (nat, nat))
    requires
        p.1 > 0,
        q.1 > 0,
        r.1 > 0,
    ensures
        more_similar(p, q) && more_similar(q, r) ==> more_similar(p, r),
        more_similar(p, q) && !more_similar(r, q) ==> more_similar(p, r),
        !more_similar(q, p) && more_similar(q, r) ==> more_similar(p, r),
        !more_similar(q, p) && !more_similar(r, q) ==> !more_similar(r, p),
{
    let (a, x) = p;
    let (b, y) = q;
    let (c, z) = r;
    assert(a * y > b * x && b * z > c * y ==> a * z > c * x) by (nonlinear_arith)
        requires
            x > 0,
            y > 0,
            z > 0,
    ;
    assert(a * y > b * x && b * z >= c * y ==> a * z > c * x) by (nonlinear_arith)
        requires
            x > 0,
            y > 0,
            z > 0,
    ;
    assert(a * y >= b * x && b * z > c * y ==> a * z > c * x) by (nonlinear_arith)
        requires
            x > 0,
            y > 0,
            z > 0,
    ;
    assert(a * y >= b * x && b * z >= c * y ==> a * z >= c * x) by (nonlinear_arith)
        requires
            x > 0,
            y > 0,
            z > 0,
    ;
}

/// The ranking is transitive.
proof fn lemma_ranks_trans(old: Seq<Def>, new: Seq<Def>, i1: int, j1: int, i2: int, j2: int, i3: int, j3: int)
    requires
        ranks_before(old, new, i1, j1, i2, j2),
        ranks_before(old, new, i2, j2, i3, j3),
    ensures
        ranks_before(old, new, i1, j1, i3, j3),
{
    lemma_more_similar_trans(sim(old, new, i1, j1), sim(old, new, i2, j2), sim(old, new, i3, j3));
    lemma_more_similar_trans(sim(old, new, i3, j3), sim(old, new, i2, j2), sim(old, new, i1, j1));
}

/// At most one pair ranks first.
proof fn lemma_best_unique(old: Seq<Def>, new: Seq<Def>, ou: Seq<bool>, nu: Seq<bool>, i: int, j: int, a: int, b: int)
    requires
        is_best(old, new, ou, nu, i, j),
        is_best(old, new, ou, nu, a, b),
    ensures
        i == a && j == b,
{
    if i != a || j != b {
        assert(is_candidate(old, new, ou, nu, a, b));
        assert(is_candidate(old, new, ou, nu, i, j));
        assert(ranks_before(old, new, i, j, a, b));
        assert(ranks_before(old, new, a, b, i, j));
    }
}

/// Whether pair `e` ranks before pair `f` ([`ranks_before`]).
fn ranks_before_exec(e: Entry, f: Entry) -> (r: bool)
    requires
        e.2 < 0x1_0000_0000_0000_0000,
        f.2 < 0x1_0000_0000_0000_0000,
        e.3 < 0x2_0000_0000_0000_0000,
        f.3 < 0x2_0000_0000_0000_0000,
    ensures
        r == ({
            let p = (e.2 as nat, e.3 as nat);
            let q = (f.2 as nat, f.3 as nat);
            more_similar(p, q) || (!more_similar(q, p) && (e.0 < f.0 || (e.0 == f.0 && e.1 < f.1)))
        }),
{
    more_similar_exec((e.2, e.3), (f.2, f.3)) || (!more_similar_exec((f.2, f.3), (e.2, e.3)) && (e.0 < f.0
        || (e.0 == f.0 && e.1 < f.1)))
}

/// A similarity as a percentage ([`percent`]).
fn percent_exec(n: u128, d: u128) -> (r: u8)
    requires
        n < 0x1_0000_0000_0000_0000,
        0 < d < 0x2_0000_0000_0000_0000,
    ensures
        r == percent((n as nat, d as nat)),
{
    ((400 * n + d) / (2 * d)) as u8
}

/// The fuzzy pass ([`fuzzy_rounds`]), from the state after the exact passes;
/// also returns, for each paired old definition, its similarity percentage.
fn fuzzy_pass(olds: &[Def], news: &[Def], ou: &mut Vec<bool>, nu: &mut Vec<bool>) -> (r: (
    Vec<Option<usize>>,
    Vec<u8>,
))
    requires
        old(ou)@.len() == olds@.len(),
        old(nu)@.len() == news@.len(),
    ensures
        ({
            let f = fuzzy_rounds(olds@, news@, old(ou)@, old(nu)@, Seq::new(olds@.len(), |i: int| None));
            &&& final(ou)@ == f.0
            &&& final(nu)@ == f.1
            &&& r.0@ == f.2
        }),
        r.0@.len() == olds@.len(),
        r.1@.len() == olds@.len(),
        final(ou)@.len() == olds@.len(),
        final(nu)@.len() == news@.len(),
        forall|k: int|
            0 <= k < olds@.len() ==> (#[trigger] r.0@[k] matches Some(j) ==> j < news@.len() && r.1@[k]
                == percent(sim(olds@, news@, k, j as int))),
{
    let ghost ou3 = ou@;
    let ghost nu3 = nu@;
    let table = candidate_table(olds, news, ou, nu);
    let mut partner: Vec<Option<usize>> = Vec::new();
    let mut pcts: Vec<u8> = Vec::new();
    let mut k: usize = 0;
    while k < olds.len()
        invariant
            k <= olds@.len(),
            partner@ == Seq::new(k as nat, |i: int| None::<usize>),
            pcts@.len() == k,
        decreases olds.len() - k,
    {
        partner.push(None);
        pcts.push(0);
        proof {
            assert(partner@ =~= Seq::new((k + 1) as nat, |i: int| None::<usize>));
        }
        k += 1;
    }
    let ghost goal = fuzzy_rounds(olds@, news@, ou3, nu3, partner@);
    let mut done = false;
    while !done
        invariant
            ou@.len() == olds@.len(),
            nu@.len() == news@.len(),
            partner@.len() == olds@.len(),
            pcts@.len() == olds@.len(),
            ou3.len() == olds@.len(),
            nu3.len() == news@.len(),
            table_sound(olds@, news@, ou3, nu3, table@),
            table_complete(olds@, news@, ou3, nu3, table@),
            forall|a: int| 0 <= a < ou3.len() && ou3[a] ==> #[trigger] ou@[a],
            forall|b: int| 0 <= b < nu3.len() && nu3[b] ==> #[trigger] nu@[b],
            !done ==> goal == fuzzy_rounds(olds@, news@, ou@, nu@, partner@),
            done ==> goal == (ou@, nu@, partner@),
            forall|a: int|
                0 <= a < olds@.len() ==> (#[trigger] partner@[a] matches Some(j) ==> j < news@.len() && pcts@[a]
                    == percent(sim(olds@, news@, a, j as int))),
        decreases unused_count(ou@) + if done {
            0int
        } else {
            1int
        },
    {
        let mut best: usize = table.len();
        let mut t: usize = 0;
        while t < table.len()
            invariant
                t <= table@.len(),
                best == table@.len() || best < t,
                ou@.len() == olds@.len(),
                nu@.len() == news@.len(),
                table_sound(olds@, news@, ou3, nu3, table@),
                best < table@.len() ==> ({
                    let e = table@[best as int];
                    &&& is_candidate(olds@, news@, ou@, nu@, e.0 as int, e.1 as int)
                    &&& forall|t2: int|
                        0 <= t2 < t && is_candidate(
                            olds@,
                            news@,
                            ou@,
                            nu@,
                            (#[trigger] table@[t2]).0 as int,
                            table@[t2].1 as int,
                        ) && (table@[t2].0 != e.0 || table@[t2].1 != e.1) ==> ranks_before(
                            olds@,
                            news@,
                            e.0 as int,
                            e.1 as int,
                            table@[t2].0 as int,
                            table@[t2].1 as int,
                        )
                }),
                best == table@.len() ==> forall|t2: int|
                    0 <= t2 < t ==> !is_candidate(
                        olds@,
                        news@,
                        ou@,
                        nu@,
                        (#[trigger] table@[t2]).0 as int,
                        table@[t2].1 as int,
                    ),
            decreases table.len() - t,
        {
            let e = table[t];
            proof {
                assert(table_sound(olds@, news@, ou3, nu3, table@));
                let ee = table@[t as int];
                assert(is_candidate(olds@, news@, ou3, nu3, ee.0 as int, ee.1 as int));
            }
            if !ou[e.0] && !nu[e.1] {
                if best == table.len() || ranks_before_exec(e, table[best]) {
                    proof {
                        if best < table@.len() {
                            let f = table@[best as int];
                            assert forall|t2: int|
                                0 <= t2 < t + 1 && is_candidate(
                                    olds@,
                                    news@,
                                    ou@,
                                    nu@,
                                    (#[trigger] table@[t2]).0 as int,
                                    table@[t2].1 as int,
                                ) && (table@[t2].0 != e.0 || table@[t2].1 != e.1) implies ranks_before(
                                olds@,
                                news@,
                                e.0 as int,
                                e.1 as int,
                                table@[t2].0 as int,
                                table@[t2].1 as int,
                            ) by {
                                let g = table@[t2];
                                if g.0 == f.0 && g.1 == f.1 {
                                } else if t2 < t {
                                    lemma_ranks_trans(
                                        olds@,
                                        news@,
                                        e.0 as int,
                                        e.1 as int,
                                        f.0 as int,
                                        f.1 as int,
                                        g.0 as int,
                                        g.1 as int,
                                    );
                                }
                            }
                        }
                    }
                    best = t;
                }
            }
            t += 1;
        }
        if best == table.len() {
            proof {
                assert forall|a: int, b: int| !is_best(olds@, news@, ou@, nu@, a, b) by {
                    if is_best(olds@, news@, ou@, nu@, a, b) {
                        assert(is_candidate(olds@, news@, ou3, nu3, a, b));
                        let t2 = choose|t2: int| 0 <= t2 < table@.len() && (#[trigger] table@[t2]).0 == a && table@[t2].1 == b;
                        assert(!is_candidate(olds@, news@, ou@, nu@, table@[t2].0 as int, table@[t2].1 as int));
                    }
                }
            }
            done = true;
        } else {
            let e = table[best];
            let i = e.0;
            let j = e.1;
            proof {
                assert forall|a: int, b: int|
                    #[trigger] is_candidate(olds@, news@, ou@, nu@, a, b) && (a != i || b != j) implies ranks_before(
                    olds@,
                    news@,
                    i as int,
                    j as int,
                    a,
                    b,
                ) by {
                    assert(is_candidate(olds@, news@, ou3, nu3, a, b));
                    let t2 = choose|t2: int| 0 <= t2 < table@.len() && (#[trigger] table@[t2]).0 == a && table@[t2].1 == b;
                    assert(is_candidate(olds@, news@, ou@, nu@, table@[t2].0 as int, table@[t2].1 as int));
                }
                assert(is_best(olds@, news@, ou@, nu@, i as int, j as int));
                let (ci, cj) = choose|ci: int, cj: int| is_best(olds@, news@, ou@, nu@, ci, cj);
                lemma_best_unique(olds@, news@, ou@, nu@, i as int, j as int, ci, cj);
                lemma_unused_count_update(ou@, i as int);
            }
            ou.set(i, true);
            nu.set(j, true);
            partner.set(i, Some(j));
            pcts.set(i, percent_exec(e.2, e.3));
        }
    }
    (partner, pcts)
}

/// Matches the definitions of two versions, strongest signal first: exactly
/// [`matching`]. Each match consumes one definition of each side; what is
/// left is removed or added.
pub fn match_defs(old: &[Def], new: &[Def]) -> (r: Vec<Correspondence>)
    ensures
        corr_views(r@) == matching(old@, new@),
{
    let mut ou: Vec<bool> = Vec::new();
    let mut nu: Vec<bool> = Vec::new();
    let mut k: usize = 0;
    while k < old.len()
        invariant
            k <= old@.len(),
            ou@ == Seq::new(k as nat, |i: int| false),
        decreases old.len() - k,
    {
        ou.push(false);
        proof {
            assert(ou@ =~= Seq::new((k + 1) as nat, |i: int| false));
        }
        k += 1;
    }
    k = 0;
    while k < new.len()
        invariant
            k <= new@.len(),
            nu@ == Seq::new(k as nat, |i: int| false),
        decreases new.len() - k,
    {
        nu.push(false);
        proof {
            assert(nu@ =~= Seq::new((k + 1) as nat, |i: int| false));
        }
        k += 1;
    }
    let mut out: Vec<Correspondence> = Vec::new();
    proof {
        assert(corr_views(out@) =~= Seq::<Corr>::empty());
    }
    exact_pass_exec(old, new, 1, &mut ou, &mut nu, &mut out);
    exact_pass_exec(old, new, 2, &mut ou, &mut nu, &mut out);
    exact_pass_exec(old, new, 3, &mut ou, &mut nu, &mut out);
    let ghost m = exact_passes(old@, new@);
    assert(corr_views(out@) == m.out);
    let (partner, pcts) = fuzzy_pass(old, new, &mut ou, &mut nu);
    let mut i: usize = 0;
    while i < old.len()
        invariant
            i <= old@.len(),
            partner@.len() == old@.len(),
            pcts@.len() == old@.len(),
            forall|k: int|
                0 <= k < old@.len() ==> (#[trigger] partner@[k] matches Some(j) ==> j < new@.len() && pcts@[k]
                    == percent(sim(old@, new@, k, j as int))),
            corr_views(out@) == m.out + fuzzy_out(old@, new@, partner@, i as int),
        decreases old.len() - i,
    {
        let ghost before = corr_views(out@);
        if let Some(j) = partner[i] {
            let c = Correspondence::RenamedEdited {
                from: old[i].name.clone(),
                to: new[j].name.clone(),
                similarity: pcts[i],
            };
            out.push(c);
            proof {
                assert(corr_views(out@) =~= before.push(c@));
            }
        }
        proof {
            assert(corr_views(out@) =~= m.out + fuzzy_out(old@, new@, partner@, i + 1));
        }
        i += 1;
    }
    let ghost fz = corr_views(out@);
    i = 0;
    while i < old.len()
        invariant
            i <= old@.len(),
            ou@.len() == old@.len(),
            corr_views(out@) == fz + removed_out(old@, ou@, i as int),
        decreases old.len() - i,
    {
        let ghost before = corr_views(out@);
        if !ou[i] {
            let c = Correspondence::Removed { name: old[i].name.clone() };
            out.push(c);
            proof {
                assert(corr_views(out@) =~= before.push(c@));
            }
        }
        proof {
            assert(corr_views(out@) =~= fz + removed_out(old@, ou@, i + 1));
        }
        i += 1;
    }
    let ghost rm = corr_views(out@);
    i = 0;
    while i < new.len()
        invariant
            i <= new@.len(),
            nu@.len() == new@.len(),
            corr_views(out@) == rm + added_out(new@, nu@, i as int),
        decreases new.len() - i,
    {
        let ghost before = corr_views(out@);
        if !nu[i] {
            let c = Correspondence::Added { name: new[i].name.clone() };
            out.push(c);
            proof {
                assert(corr_views(out@) =~= before.push(c@));
            }
        }
        proof {
            assert(corr_views(out@) =~= rm + added_out(new@, nu@, i + 1));
        }
        i += 1;
    }
    out
}

// ─── Laws ────────────────────────────────────────────────────────────────────

/// The state in which the first `i` definitions of each side are matched to
/// each other as unchanged.
spec fn diagonal(d: Seq<Def>, i: int) -> Marks {
    Marks {
        old_used: Seq::new(d.len(), |k: int| k < i),
        new_used: Seq::new(d.len(), |k: int| k < i),
        out: Seq::new(i as nat, |k: int| Corr::Unchanged(d[k].name@)),
    }
}

proof fn lemma_first_unused_skips(new: Seq<Def>, used: Seq<bool>, o: Def, kind: int, j: int, i: int)
    requires
        0 <= j <= i < new.len(),
        i < used.len(),
        forall|k: int| j <= k < i ==> used[k],
        used[i] == false,
        pass_matches(kind, o, new[i]),
    ensures
        first_unused(new, used, o, kind, j) == i,
    decreases i - j,
{
    if j < i {
        lemma_first_unused_skips(new, used, o, kind, j + 1, i);
    }
}

proof fn lemma_diagonal_pass(d: Seq<Def>, i: int)
    requires
        0 <= i <= d.len(),
    ensures
        exact_pass(d, d, 1, i, diagonal(d, i)) == diagonal(d, d.len() as int),
    decreases d.len() - i,
{
    if i < d.len() {
        let m = diagonal(d, i);
        lemma_first_unused_skips(d, m.new_used, d[i], 1, 0, i);
        let next = Marks {
            old_used: m.old_used.update(i, true),
            new_used: m.new_used.update(i, true),
            out: m.out.push(pass_corr(1, d[i], d[i])),
        };
        assert(next.old_used =~= diagonal(d, i + 1).old_used);
        assert(next.new_used =~= diagonal(d, i + 1).new_used);
        assert(next.out =~= diagonal(d, i + 1).out);
        lemma_diagonal_pass(d, i + 1);
    }
}

proof fn lemma_pass_all_used(old: Seq<Def>, new: Seq<Def>, kind: int, i: int, m: Marks)
    requires
        0 <= i <= old.len(),
        m.old_used.len() == old.len(),
        forall|k: int| 0 <= k < old.len() ==> m.old_used[k],
    ensures
        exact_pass(old, new, kind, i, m) == m,
    decreases old.len() - i,
{
    if i < old.len() {
        lemma_pass_all_used(old, new, kind, i + 1, m);
    }
}

proof fn lemma_outputs_empty(d: Seq<Def>, used: Seq<bool>, partner: Seq<Option<usize>>, k: int)
    requires
        0 <= k <= d.len(),
        used.len() == d.len(),
        partner.len() == d.len(),
        forall|a: int| 0 <= a < d.len() ==> used[a],
        forall|a: int| 0 <= a < d.len() ==> partner[a] is None,
    ensures
        fuzzy_out(d, d, partner, k) == Seq::<Corr>::empty(),
        removed_out(d, used, k) == Seq::<Corr>::empty(),
        added_out(d, used, k) == Seq::<Corr>::empty(),
    decreases k,
{
    if k > 0 {
        lemma_outputs_empty(d, used, partner, k - 1);
        assert(fuzzy_out(d, d, partner, k) =~= fuzzy_out(d, d, partner, k - 1));
        assert(removed_out(d, used, k) =~= removed_out(d, used, k - 1));
        assert(added_out(d, used, k) =~= added_out(d, used, k - 1));
    }
}

/// Matching a version against itself finds every definition unchanged, in
/// order.
pub proof fn lemma_match_self(d: Seq<Def>)
    ensures
        matching(d, d) == Seq::new(d.len(), |i: int| Corr::Unchanged(d[i].name@)),
{
    let m0 = Marks {
        old_used: Seq::new(d.len(), |i: int| false),
        new_used: Seq::new(d.len(), |j: int| false),
        out: Seq::empty(),
    };
    assert(m0.old_used =~= diagonal(d, 0).old_used);
    assert(m0.new_used =~= diagonal(d, 0).new_used);
    assert(m0.out =~= diagonal(d, 0).out);
    lemma_diagonal_pass(d, 0);
    let full = diagonal(d, d.len() as int);
    lemma_pass_all_used(d, d, 2, 0, full);
    lemma_pass_all_used(d, d, 3, 0, full);
    let m = exact_passes(d, d);
    assert(m == full);
    let p0 = Seq::new(d.len(), |i: int| None::<usize>);
    assert forall|i: int, j: int| !is_best(d, d, full.old_used, full.new_used, i, j) by {}
    let f = fuzzy_rounds(d, d, m.old_used, m.new_used, p0);
    assert(f == (full.old_used, full.new_used, p0));
    lemma_outputs_empty(d, full.old_used, p0, d.len() as int);
    assert(matching(d, d) =~= Seq::new(d.len(), |i: int| Corr::Unchanged(d[i].name@)));
}

/// How many correspondences speak of a definition of the old version: all
/// but `Added`.
pub open spec fn olds_in(cs: Seq<Corr>) -> nat
    decreases cs.len(),
{
    if cs.len() == 0 {
        0
    } else {
        olds_in(cs.drop_last()) + if cs.last() is Added {
            0nat
        } else {
            1nat
        }
    }
}

/// How many correspondences speak of a definition of the new version: all
/// but `Removed`.
pub open spec fn news_in(cs: Seq<Corr>) -> nat
    decreases cs.len(),
{
    if cs.len() == 0 {
        0
    } else {
        news_in(cs.drop_last()) + if cs.last() is Removed {
            0nat
        } else {
            1nat
        }
    }
}

proof fn lemma_sides_add(a: Seq<Corr>, b: Seq<Corr>)
    ensures
        olds_in(a + b) == olds_in(a) + olds_in(b),
        news_in(a + b) == news_in(a) + news_in(b),
    decreases b.len(),
{
    if b.len() == 0 {
        assert(a + b =~= a);
    } else {
        lemma_sides_add(a, b.drop_last());
        assert((a + b).drop_last() =~= a + b.drop_last());
    }
}

proof fn lemma_sides_push(a: Seq<Corr>, c: Corr)
    ensures
        olds_in(a.push(c)) == olds_in(a) + if c is Added {
            0nat
        } else {
            1nat
        },
        news_in(a.push(c)) == news_in(a) + if c is Removed {
            0nat
        } else {
            1nat
        },
{
    assert(a.push(c).drop_last() =~= a);
}

/// The number of paired entries among the first `k`.
spec fn paired(p: Seq<Option<usize>>, k: int) -> nat
    decreases k,
{
    if k <= 0 {
        0
    } else {
        paired(p, k - 1) + if p[k - 1] is Some {
            1nat
        } else {
            0nat
        }
    }
}

proof fn lemma_paired_update(p: Seq<Option<usize>>, i: int, j: usize, k: int)
    requires
        0 <= i < p.len(),
        p[i] is None,
        0 <= k <= p.len(),
    ensures
        paired(p.update(i, Some(j)), k) == paired(p, k) + if i < k {
            1nat
        } else {
            0nat
        },
    decreases k,
{
    if k > 0 {
        lemma_paired_update(p, i, j, k - 1);
    }
}

proof fn lemma_paired_none(p: Seq<Option<usize>>, k: int)
    requires
        0 <= k <= p.len(),
        forall|a: int| 0 <= a < p.len() ==> p[a] is None,
    ensures
        paired(p, k) == 0,
    decreases k,
{
    if k > 0 {
        lemma_paired_none(p, k - 1);
    }
}

proof fn lemma_unused_all(n: nat)
    ensures
        unused_count(Seq::new(n, |i: int| false)) == n,
    decreases n,
{
    if n > 0 {
        assert(Seq::new(n, |i: int| false).drop_last() =~= Seq::new((n - 1) as nat, |i: int| false));
        lemma_unused_count_update(Seq::new(n, |i: int| false), 0);
        lemma_unused_all((n - 1) as nat);
    }
}

/// What the exact passes keep: each correspondence found used one
/// definition of each side.
spec fn marks_ok(old: Seq<Def>, new: Seq<Def>, m: Marks) -> bool {
    &&& m.old_used.len() == old.len()
    &&& m.new_used.len() == new.len()
    &&& olds_in(m.out) == m.out.len()
    &&& news_in(m.out) == m.out.len()
    &&& m.out.len() + unused_count(m.old_used) == old.len()
    &&& m.out.len() + unused_count(m.new_used) == new.len()
}

proof fn lemma_first_unused_found(new: Seq<Def>, used: Seq<bool>, o: Def, kind: int, j: int)
    requires
        0 <= j,
        used.len() == new.len(),
    ensures
        first_unused(new, used, o, kind, j) == -1 || (j <= first_unused(new, used, o, kind, j) < new.len()
            && used[first_unused(new, used, o, kind, j)] == false && pass_matches(
            kind,
            o,
            new[first_unused(new, used, o, kind, j)],
        )),
    decreases new.len() - j,
{
    if j < new.len() && !(used[j] == false && pass_matches(kind, o, new[j])) {
        lemma_first_unused_found(new, used, o, kind, j + 1);
    }
}

proof fn lemma_exact_pass_counts(old: Seq<Def>, new: Seq<Def>, kind: int, i: int, m: Marks)
    requires
        0 <= i,
        marks_ok(old, new, m),
    ensures
        marks_ok(old, new, exact_pass(old, new, kind, i, m)),
    decreases old.len() - i,
{
    if i < old.len() && !m.old_used[i] {
        let j = first_unused(new, m.new_used, old[i], kind, 0);
        lemma_first_unused_found(new, m.new_used, old[i], kind, 0);
        if j >= 0 {
            lemma_unused_count_update(m.old_used, i);
            lemma_unused_count_update(m.new_used, j);
            lemma_sides_push(m.out, pass_corr(kind, old[i], new[j]));
            let next = Marks {
                old_used: m.old_used.update(i, true),
                new_used: m.new_used.update(j, true),
                out: m.out.push(pass_corr(kind, old[i], new[j])),
            };
            lemma_exact_pass_counts(old, new, kind, i + 1, next);
        } else {
            lemma_exact_pass_counts(old, new, kind, i + 1, m);
        }
    } else if i < old.len() {
        lemma_exact_pass_counts(old, new, kind, i + 1, m);
    }
}

proof fn lemma_fuzzy_counts(
    old: Seq<Def>,
    new: Seq<Def>,
    ou: Seq<bool>,
    nu: Seq<bool>,
    partner: Seq<Option<usize>>,
)
    requires
        ou.len() == old.len(),
        nu.len() == new.len(),
        partner.len() == old.len(),
        forall|a: int| 0 <= a < old.len() && #[trigger] partner[a] is Some ==> ou[a],
    ensures
        ({
            let f = fuzzy_rounds(old, new, ou, nu, partner);
            &&& f.2.len() == old.len()
            &&& paired(f.2, old.len() as int) + unused_count(f.0) == paired(partner, old.len() as int)
                + unused_count(ou)
            &&& paired(f.2, old.len() as int) + unused_count(f.1) == paired(partner, old.len() as int)
                + unused_count(nu)
        }),
    decreases unused_count(ou),
{
    if exists|i: int, j: int| is_best(old, new, ou, nu, i, j) {
        let (i, j) = choose|i: int, j: int| is_best(old, new, ou, nu, i, j);
        lemma_unused_count_update(ou, i);
        lemma_unused_count_update(nu, j);
        lemma_paired_update(partner, i, j as usize, old.len() as int);
        let p2 = partner.update(i, Some(j as usize));
        let ou2 = ou.update(i, true);
        assert forall|a: int| 0 <= a < old.len() && #[trigger] p2[a] is Some implies ou2[a] by {
            if a != i {
                assert(partner[a] is Some);
            }
        }
        lemma_fuzzy_counts(old, new, ou2, nu.update(j, true), p2);
    }
}

proof fn lemma_fuzzy_out_counts(old: Seq<Def>, new: Seq<Def>, p: Seq<Option<usize>>, k: int)
    requires
        0 <= k <= p.len(),
    ensures
        olds_in(fuzzy_out(old, new, p, k)) == paired(p, k),
        news_in(fuzzy_out(old, new, p, k)) == paired(p, k),
    decreases k,
{
    if k > 0 {
        lemma_fuzzy_out_counts(old, new, p, k - 1);
        let here = match p[k - 1] {
            Some(j) => seq![
                Corr::RenamedEdited(old[k - 1].name@, new[j as int].name@, percent(sim(old, new, k - 1, j as int))),
            ],
            None => Seq::empty(),
        };
        lemma_sides_add(fuzzy_out(old, new, p, k - 1), here);
        if let Some(j) = p[k - 1] {
            lemma_sides_push(Seq::empty(), here[0]);
            assert(Seq::<Corr>::empty().push(here[0]) =~= here);
        }
    }
}

proof fn lemma_rest_counts(old: Seq<Def>, new: Seq<Def>, ou: Seq<bool>, nu: Seq<bool>, k: int, l: int)
    requires
        0 <= k <= ou.len(),
        0 <= l <= nu.len(),
    ensures
        olds_in(removed_out(old, ou, k)) == unused_count(ou.subrange(0, k)),
        news_in(removed_out(old, ou, k)) == 0,
        olds_in(added_out(new, nu, l)) == 0,
        news_in(added_out(new, nu, l)) == unused_count(nu.subrange(0, l)),
    decreases k + l,
{
    if k > 0 {
        lemma_rest_counts(old, new, ou, nu, k - 1, l);
        let here = if ou[k - 1] {
            Seq::<Corr>::empty()
        } else {
            seq![Corr::Removed(old[k - 1].name@)]
        };
        lemma_sides_add(removed_out(old, ou, k - 1), here);
        lemma_sides_push(Seq::empty(), Corr::Removed(old[k - 1].name@));
        assert(Seq::<Corr>::empty().push(Corr::Removed(old[k - 1].name@)) =~= seq![Corr::Removed(old[k - 1].name@)]);
        assert(ou.subrange(0, k).drop_last() =~= ou.subrange(0, k - 1));
    }
    if l > 0 {
        lemma_rest_counts(old, new, ou, nu, k, l - 1);
        let here = if nu[l - 1] {
            Seq::<Corr>::empty()
        } else {
            seq![Corr::Added(new[l - 1].name@)]
        };
        lemma_sides_add(added_out(new, nu, l - 1), here);
        lemma_sides_push(Seq::empty(), Corr::Added(new[l - 1].name@));
        assert(Seq::<Corr>::empty().push(Corr::Added(new[l - 1].name@)) =~= seq![Corr::Added(new[l - 1].name@)]);
        assert(nu.subrange(0, l).drop_last() =~= nu.subrange(0, l - 1));
    }
}

/// Each match consumes one definition of each side, and what is left is
/// removed or added: every definition of the old version is spoken of by
/// exactly as many correspondences as there are old definitions (all but
/// `Added`), and likewise for the new version (all but `Removed`).
pub proof fn lemma_match_accounts_for_each(old: Seq<Def>, new: Seq<Def>)
    ensures
        olds_in(matching(old, new)) == old.len(),
        news_in(matching(old, new)) == new.len(),
{
    let m0 = Marks {
        old_used: Seq::new(old.len(), |i: int| false),
        new_used: Seq::new(new.len(), |j: int| false),
        out: Seq::empty(),
    };
    lemma_unused_all(old.len());
    lemma_unused_all(new.len());
    let m1 = exact_pass(old, new, 1, 0, m0);
    let m2 = exact_pass(old, new, 2, 0, m1);
    lemma_exact_pass_counts(old, new, 1, 0, m0);
    lemma_exact_pass_counts(old, new, 2, 0, m1);
    lemma_exact_pass_counts(old, new, 3, 0, m2);
    let m = exact_passes(old, new);
    let p0 = Seq::new(old.len(), |i: int| None::<usize>);
    lemma_paired_none(p0, old.len() as int);
    lemma_fuzzy_counts(old, new, m.old_used, m.new_used, p0);
    let f = fuzzy_rounds(old, new, m.old_used, m.new_used, p0);
    lemma_fuzzy_out_counts(old, new, f.2, old.len() as int);
    lemma_fuzzy_rounds_lengths(old, new, m.old_used, m.new_used, p0);
    lemma_rest_counts(old, new, f.0, f.1, old.len() as int, new.len() as int);
    assert(f.0.subrange(0, old.len() as int) =~= f.0);
    assert(f.1.subrange(0, new.len() as int) =~= f.1);
    let a = m.out;
    let b = fuzzy_out(old, new, f.2, old.len() as int);
    let c = removed_out(old, f.0, old.len() as int);
    let d = added_out(new, f.1, new.len() as int);
    lemma_sides_add(a, b);
    lemma_sides_add(a + b, c);
    lemma_sides_add(a + b + c, d);
}

proof fn lemma_fuzzy_rounds_lengths(
    old: Seq<Def>,
    new: Seq<Def>,
    ou: Seq<bool>,
    nu: Seq<bool>,
    partner: Seq<Option<usize>>,
)
    requires
        ou.len() == old.len(),
        nu.len() == new.len(),
        partner.len() == old.len(),
    ensures
        fuzzy_rounds(old, new, ou, nu, partner).0.len() == old.len(),
        fuzzy_rounds(old, new, ou, nu, partner).1.len() == new.len(),
    decreases unused_count(ou),
{
    if exists|i: int, j: int| is_best(old, new, ou, nu, i, j) {
        let (i, j) = choose|i: int, j: int| is_best(old, new, ou, nu, i, j);
        lemma_unused_count_update(ou, i);
        lemma_fuzzy_rounds_lengths(old, new, ou.update(i, true), nu.update(j, true), partner.update(i, Some(j as usize)));
    }
}

/// `new` holds the definitions of `old` in another order: `perm` sends each
/// old index to a distinct new index holding the same definition.
pub open spec fn reordering(old: Seq<Def>, new: Seq<Def>, perm: Seq<int>) -> bool {
    &&& new.len() == old.len()
    &&& perm.len() == old.len()
    &&& forall|i: int| 0 <= i < old.len() ==> 0 <= #[trigger] perm[i] < new.len() && new[perm[i]] == old[i]
    &&& forall|i: int, k: int| 0 <= i < k < old.len() ==> #[trigger] perm[i] != #[trigger] perm[k]
}

proof fn lemma_first_unused_exists(new: Seq<Def>, used: Seq<bool>, o: Def, kind: int, j: int, x: int)
    requires
        0 <= j <= x < new.len(),
        used.len() == new.len(),
        used[x] == false,
        pass_matches(kind, o, new[x]),
    ensures
        0 <= first_unused(new, used, o, kind, j) < new.len(),
        used[first_unused(new, used, o, kind, j)] == false,
        pass_matches(kind, o, new[first_unused(new, used, o, kind, j)]),
    decreases x - j,
{
    if !(used[j] == false && pass_matches(kind, o, new[j])) {
        lemma_first_unused_exists(new, used, o, kind, j + 1, x);
    }
}

proof fn lemma_unused_zero(s: Seq<bool>, k: int)
    requires
        unused_count(s) == 0,
        0 <= k < s.len(),
    ensures
        s[k],
    decreases s.len(),
{
    if k < s.len() - 1 {
        lemma_unused_zero(s.drop_last(), k);
    }
}

/// The content-hash pass over a reordering: each old definition finds an
/// unused new one with its content hash, kept available by `sigma`.
proof fn lemma_reorder_pass(old: Seq<Def>, new: Seq<Def>, i: int, m: Marks, sigma: Seq<int>)
    requires
        0 <= i <= old.len(),
        new.len() == old.len(),
        m.old_used.len() == old.len(),
        m.new_used.len() == new.len(),
        forall|k: int| 0 <= k < i ==> m.old_used[k],
        forall|k: int| i <= k < old.len() ==> m.old_used[k] == false,
        m.out.len() == i,
        forall|t: int| 0 <= t < m.out.len() ==> m.out[t] is Unchanged,
        sigma.len() == old.len(),
        forall|k: int|
            i <= k < old.len() ==> 0 <= #[trigger] sigma[k] < new.len() && m.new_used[sigma[k]] == false
                && new[sigma[k]].content_hash@ == old[k].content_hash@,
        forall|k1: int, k2: int| i <= k1 < k2 < old.len() ==> #[trigger] sigma[k1] != #[trigger] sigma[k2],
    ensures
        ({
            let r = exact_pass(old, new, 1, i, m);
            &&& r.old_used.len() == old.len()
            &&& forall|k: int| 0 <= k < old.len() ==> r.old_used[k]
            &&& r.out.len() == old.len()
            &&& forall|t: int| 0 <= t < r.out.len() ==> r.out[t] is Unchanged
        }),
    decreases old.len() - i,
{
    if i < old.len() {
        lemma_first_unused_exists(new, m.new_used, old[i], 1, 0, sigma[i]);
        let j = first_unused(new, m.new_used, old[i], 1, 0);
        let next = Marks {
            old_used: m.old_used.update(i, true),
            new_used: m.new_used.update(j, true),
            out: m.out.push(pass_corr(1, old[i], new[j])),
        };
        let s2 = if exists|k: int| i < k < old.len() && sigma[k] == j {
            let k0 = choose|k: int| i < k < old.len() && sigma[k] == j;
            sigma.update(k0, sigma[i])
        } else {
            sigma
        };
        assert forall|k: int| i + 1 <= k < old.len() implies 0 <= #[trigger] s2[k] < new.len()
            && next.new_used[s2[k]] == false && new[s2[k]].content_hash@ == old[k].content_hash@ by {
            if exists|k: int| i < k < old.len() && sigma[k] == j {
                let k0 = choose|k: int| i < k < old.len() && sigma[k] == j;
                if k == k0 {
                    assert(sigma[i] != sigma[k0]);
                } else {
                    assert(sigma[k] != sigma[k0]);
                }
            }
        }
        assert forall|k1: int, k2: int| i + 1 <= k1 < k2 < old.len() implies #[trigger] s2[k1] != #[trigger] s2[k2] by {
            if exists|k: int| i < k < old.len() && sigma[k] == j {
                let k0 = choose|k: int| i < k < old.len() && sigma[k] == j;
                if k1 == k0 {
                    assert(sigma[i] != sigma[k2]);
                } else if k2 == k0 {
                    assert(sigma[k1] != sigma[i]);
                } else {
                    assert(sigma[k1] != sigma[k2]);
                }
            }
        }
        lemma_reorder_pass(old, new, i + 1, next, s2);
    }
}

/// Fuzzy and leftover outputs are empty once every definition is used.
proof fn lemma_outputs_none(
    old: Seq<Def>,
    new: Seq<Def>,
    ou: Seq<bool>,
    nu: Seq<bool>,
    partner: Seq<Option<usize>>,
    k: int,
    l: int,
)
    requires
        0 <= k <= old.len(),
        0 <= l <= new.len(),
        ou.len() == old.len(),
        nu.len() == new.len(),
        partner.len() == old.len(),
        forall|a: int| 0 <= a < old.len() ==> ou[a] && partner[a] is None,
        forall|a: int| 0 <= a < new.len() ==> nu[a],
    ensures
        fuzzy_out(old, new, partner, k) == Seq::<Corr>::empty(),
        removed_out(old, ou, k) == Seq::<Corr>::empty(),
        added_out(new, nu, l) == Seq::<Corr>::empty(),
    decreases k + l,
{
    if k > 0 {
        lemma_outputs_none(old, new, ou, nu, partner, k - 1, l);
        assert(ou[k - 1] && partner[k - 1] is None);
        assert(fuzzy_out(old, new, partner, k - 1) + Seq::<Corr>::empty() =~= fuzzy_out(old, new, partner, k - 1));
        assert(fuzzy_out(old, new, partner, k) =~= fuzzy_out(old, new, partner, k - 1));
        assert(removed_out(old, ou, k) =~= removed_out(old, ou, k - 1));
    }
    if l > 0 {
        lemma_outputs_none(old, new, ou, nu, partner, k, l - 1);
        assert(added_out(new, nu, l) =~= added_out(new, nu, l - 1));
    }
}

/// Position is ignored: when the new version holds the same definitions in
/// another order, every definition is found unchanged.
pub proof fn lemma_match_reordered(old: Seq<Def>, new: Seq<Def>, perm: Seq<int>)
    requires
        reordering(old, new, perm),
    ensures
        matching(old, new).len() == old.len(),
        forall|t: int| 0 <= t < old.len() ==> (#[trigger] matching(old, new)[t]) is Unchanged,
{
    let m0 = Marks {
        old_used: Seq::new(old.len(), |i: int| false),
        new_used: Seq::new(new.len(), |j: int| false),
        out: Seq::empty(),
    };
    lemma_unused_all(old.len());
    lemma_unused_all(new.len());
    assert forall|k: int| 0 <= k < old.len() implies 0 <= #[trigger] perm[k] < new.len() && m0.new_used[perm[k]]
        == false && new[perm[k]].content_hash@ == old[k].content_hash@ by {}
    lemma_reorder_pass(old, new, 0, m0, perm);
    lemma_exact_pass_counts(old, new, 1, 0, m0);
    let m1 = exact_pass(old, new, 1, 0, m0);
    assert forall|k: int| 0 <= k < new.len() implies m1.new_used[k] by {
        lemma_unused_zero(m1.new_used, k);
    }
    lemma_pass_all_used(old, new, 2, 0, m1);
    lemma_pass_all_used(old, new, 3, 0, m1);
    let m = exact_passes(old, new);
    assert(m == m1);
    let p0 = Seq::new(old.len(), |i: int| None::<usize>);
    assert forall|i: int, j: int| !is_best(old, new, m1.old_used, m1.new_used, i, j) by {}
    let f = fuzzy_rounds(old, new, m.old_used, m.new_used, p0);
    assert(f == (m1.old_used, m1.new_used, p0));
    lemma_outputs_none(old, new, m1.old_used, m1.new_used, p0, old.len() as int, new.len() as int);
    assert(matching(old, new) =~= m1.out);
}

/// The strength of a correspondence's signal, strongest first: unchanged,
/// modified, renamed, renamed and edited, then removed and added.
pub open spec fn corr_rank(c: Corr) -> int {
    match c {
        Corr::Unchanged(_) => 0,
        Corr::Modified(_) => 1,
        Corr::Renamed(_, _) => 2,
        Corr::RenamedEdited(_, _, _) => 3,
        Corr::Removed(_) => 4,
        Corr::Added(_) => 5,
    }
}

proof fn lemma_pass_ranks(old: Seq<Def>, new: Seq<Def>, kind: int, i: int, m: Marks)
    requires
        1 <= kind <= 3,
        0 <= i,
    ensures
        exact_pass(old, new, kind, i, m).out.len() >= m.out.len(),
        forall|t: int| 0 <= t < m.out.len() ==> #[trigger] exact_pass(old, new, kind, i, m).out[t] == m.out[t],
        forall|t: int|
            m.out.len() <= t < exact_pass(old, new, kind, i, m).out.len() ==> corr_rank(
                #[trigger] exact_pass(old, new, kind, i, m).out[t],
            ) == kind - 1,
    decreases old.len() - i,
{
    if i < old.len() {
        if m.old_used[i] {
            lemma_pass_ranks(old, new, kind, i + 1, m);
        } else {
            let j = first_unused(new, m.new_used, old[i], kind, 0);
            if j < 0 {
                lemma_pass_ranks(old, new, kind, i + 1, m);
            } else {
                let next = Marks {
                    old_used: m.old_used.update(i, true),
                    new_used: m.new_used.update(j, true),
                    out: m.out.push(pass_corr(kind, old[i], new[j])),
                };
                lemma_pass_ranks(old, new, kind, i + 1, next);
                assert forall|t: int| 0 <= t < m.out.len() implies #[trigger] exact_pass(old, new, kind, i, m).out[t]
                    == m.out[t] by {
                    assert(next.out[t] == m.out[t]);
                }
            }
        }
    }
}

proof fn lemma_tail_ranks(old: Seq<Def>, new: Seq<Def>, p: Seq<Option<usize>>, ou: Seq<bool>, nu: Seq<bool>, k: int, l: int)
    requires
        0 <= k,
        0 <= l,
    ensures
        forall|t: int| 0 <= t < fuzzy_out(old, new, p, k).len() ==> corr_rank(#[trigger] fuzzy_out(old, new, p, k)[t]) == 3,
        forall|t: int| 0 <= t < removed_out(old, ou, k).len() ==> corr_rank(#[trigger] removed_out(old, ou, k)[t]) == 4,
        forall|t: int| 0 <= t < added_out(new, nu, l).len() ==> corr_rank(#[trigger] added_out(new, nu, l)[t]) == 5,
    decreases k + l,
{
    if k > 0 {
        lemma_tail_ranks(old, new, p, ou, nu, k - 1, l);
        let f0 = fuzzy_out(old, new, p, k - 1);
        let r0 = removed_out(old, ou, k - 1);
        assert forall|t: int| 0 <= t < fuzzy_out(old, new, p, k).len() implies corr_rank(
            #[trigger] fuzzy_out(old, new, p, k)[t],
        ) == 3 by {
            if t >= f0.len() {
                assert(p[k - 1] is Some);
            } else {
                assert(fuzzy_out(old, new, p, k)[t] == f0[t]);
            }
        }
        assert forall|t: int| 0 <= t < removed_out(old, ou, k).len() implies corr_rank(
            #[trigger] removed_out(old, ou, k)[t],
        ) == 4 by {
            if t < r0.len() {
                assert(removed_out(old, ou, k)[t] == r0[t]);
            }
        }
    }
    if l > 0 {
        lemma_tail_ranks(old, new, p, ou, nu, k, l - 1);
        let a0 = added_out(new, nu, l - 1);
        assert forall|t: int| 0 <= t < added_out(new, nu, l).len() implies corr_rank(
            #[trigger] added_out(new, nu, l)[t],
        ) == 5 by {
            if t < a0.len() {
                assert(added_out(new, nu, l)[t] == a0[t]);
            }
        }
    }
}

/// Strongest signal first: the correspondences come grouped as unchanged,
/// modified, renamed, renamed and edited, removed, then added.
pub proof fn lemma_match_grouped(old: Seq<Def>, new: Seq<Def>)
    ensures
        forall|i: int, j: int|
            0 <= i < j < matching(old, new).len() ==> corr_rank(#[trigger] matching(old, new)[i]) <= corr_rank(
                #[trigger] matching(old, new)[j],
            ),
{
    let m0 = Marks {
        old_used: Seq::new(old.len(), |i: int| false),
        new_used: Seq::new(new.len(), |j: int| false),
        out: Seq::empty(),
    };
    let m1 = exact_pass(old, new, 1, 0, m0);
    let m2 = exact_pass(old, new, 2, 0, m1);
    let m3 = exact_pass(old, new, 3, 0, m2);
    lemma_pass_ranks(old, new, 1, 0, m0);
    lemma_pass_ranks(old, new, 2, 0, m1);
    lemma_pass_ranks(old, new, 3, 0, m2);
    let p0 = Seq::new(old.len(), |i: int| None::<usize>);
    let f = fuzzy_rounds(old, new, m3.old_used, m3.new_used, p0);
    lemma_tail_ranks(old, new, f.2, f.0, f.1, old.len() as int, new.len() as int);
    let a = m3.out;
    let b = fuzzy_out(old, new, f.2, old.len() as int);
    let c = removed_out(old, f.0, old.len() as int);
    let d = added_out(new, f.1, new.len() as int);
    let ms = matching(old, new);
    assert(ms == a + b + c + d);
    let n1 = m1.out.len();
    let n2 = m2.out.len();
    let n3 = a.len();
    let nb = n3 + b.len();
    let nc = nb + c.len();
    assert forall|t: int| 0 <= t < ms.len() implies corr_rank(#[trigger] ms[t]) == (if t < n1 {
        0int
    } else if t < n2 {
        1
    } else if t < n3 {
        2
    } else if t < nb {
        3
    } else if t < nc {
        4
    } else {
        5
    }) by {
        if t < n3 {
            assert(ms[t] == a[t]);
            if t < n2 {
                assert(a[t] == m2.out[t]);
                if t < n1 {
                    assert(m2.out[t] == m1.out[t]);
                }
            }
        } else if t < nb {
            assert(ms[t] == b[t - n3]);
        } else if t < nc {
            assert(ms[t] == c[t - nb]);
        } else {
            assert(ms[t] == d[t - nc]);
        }
    }
}

/// Whether pair `(a, b)` comes at or after `(i, j)` in row order.
spec fn from_pair(a: int, b: int, i: int, j: int) -> bool {
    a > i || (a == i && b >= j)
}

/// Two different pairs are always ranked one way or the other.
proof fn lemma_ranks_total(old: Seq<Def>, new: Seq<Def>, i1: int, j1: int, i2: int, j2: int)
    requires
        i1 != i2 || j1 != j2,
    ensures
        ranks_before(old, new, i1, j1, i2, j2) || ranks_before(old, new, i2, j2, i1, j1),
{
}

/// The best-ranked candidate pair at or after `(i, j)`, if any.
proof fn lemma_best_from(old: Seq<Def>, new: Seq<Def>, ou: Seq<bool>, nu: Seq<bool>, i: int, j: int) -> (r: Option<(int, int)>)
    requires
        0 <= i,
        0 <= j,
    ensures
        match r {
            Some((a, b)) => is_candidate(old, new, ou, nu, a, b) && from_pair(a, b, i, j) && forall|x: int, y: int|
                #[trigger] is_candidate(old, new, ou, nu, x, y) && from_pair(x, y, i, j) && (x != a || y != b)
                    ==> ranks_before(old, new, a, b, x, y),
            None => forall|x: int, y: int| #[trigger] is_candidate(old, new, ou, nu, x, y) ==> !from_pair(x, y, i, j),
        },
    decreases old.len() - i, new.len() + 1 - j,
{
    if i >= old.len() {
        None
    } else if j >= new.len() {
        let r = lemma_best_from(old, new, ou, nu, i + 1, 0);
        r
    } else {
        let r = lemma_best_from(old, new, ou, nu, i, j + 1);
        if is_candidate(old, new, ou, nu, i, j) {
            match r {
                None => Some((i, j)),
                Some((a, b)) => {
                    lemma_ranks_total(old, new, i, j, a, b);
                    if ranks_before(old, new, i, j, a, b) {
                        assert forall|x: int, y: int|
                            #[trigger] is_candidate(old, new, ou, nu, x, y) && from_pair(x, y, i, j) && (x != i || y
                                != j) implies ranks_before(old, new, i, j, x, y) by {
                            if x != a || y != b {
                                lemma_ranks_trans(old, new, i, j, a, b, x, y);
                            }
                        }
                        Some((i, j))
                    } else {
                        r
                    }
                },
            }
        } else {
            r
        }
    }
}

/// When the fuzzy rounds end, no best pair is left.
proof fn lemma_rounds_end(old: Seq<Def>, new: Seq<Def>, ou: Seq<bool>, nu: Seq<bool>, partner: Seq<Option<usize>>)
    ensures
        ({
            let f = fuzzy_rounds(old, new, ou, nu, partner);
            forall|i: int, j: int| !is_best(old, new, f.0, f.1, i, j)
        }),
    decreases unused_count(ou),
{
    if exists|i: int, j: int| is_best(old, new, ou, nu, i, j) {
        let (i, j) = choose|i: int, j: int| is_best(old, new, ou, nu, i, j);
        lemma_unused_count_update(ou, i);
        lemma_rounds_end(old, new, ou.update(i, true), nu.update(j, true), partner.update(i, Some(j as usize)));
        assert(fuzzy_rounds(old, new, ou, nu, partner) == fuzzy_rounds(
            old,
            new,
            ou.update(i, true),
            nu.update(j, true),
            partner.update(i, Some(j as usize)),
        ));
    }
}

/// What the matcher leaves used on each side once all passes are done.
pub open spec fn final_marks(old: Seq<Def>, new: Seq<Def>) -> (Seq<bool>, Seq<bool>, Seq<Option<usize>>) {
    let m = exact_passes(old, new);
    fuzzy_rounds(old, new, m.old_used, m.new_used, Seq::new(old.len(), |i: int| None))
}

/// What is left over is dissimilar: no old definition reported removed and
/// new definition reported added ([`final_marks`], from which [`matching`]
/// lists them) are similar enough to have been paired.
pub proof fn lemma_leftovers_dissimilar(old: Seq<Def>, new: Seq<Def>)
    ensures
        forall|i: int, j: int|
            0 <= i < old.len() && 0 <= j < new.len() && final_marks(old, new).0[i] == false && final_marks(
                old,
                new,
            ).1[j] == false ==> !reaches_threshold(#[trigger] sim(old, new, i, j)),
{
    let m0 = Marks {
        old_used: Seq::new(old.len(), |i: int| false),
        new_used: Seq::new(new.len(), |j: int| false),
        out: Seq::empty(),
    };
    lemma_unused_all(old.len());
    lemma_unused_all(new.len());
    let m1 = exact_pass(old, new, 1, 0, m0);
    let m2 = exact_pass(old, new, 2, 0, m1);
    lemma_exact_pass_counts(old, new, 1, 0, m0);
    lemma_exact_pass_counts(old, new, 2, 0, m1);
    lemma_exact_pass_counts(old, new, 3, 0, m2);
    let m = exact_passes(old, new);
    let p0 = Seq::new(old.len(), |i: int| None::<usize>);
    let f = final_marks(old, new);
    lemma_fuzzy_rounds_lengths(old, new, m.old_used, m.new_used, p0);
    lemma_rounds_end(old, new, m.old_used, m.new_used, p0);
    let r = lemma_best_from(old, new, f.0, f.1, 0, 0);
    if let Some((a, b)) = r {
        assert(is_best(old, new, f.0, f.1, a, b));
    }
    assert forall|i: int, j: int|
        0 <= i < old.len() && 0 <= j < new.len() && f.0[i] == false && f.1[j] == false implies !reaches_threshold(
        #[trigger] sim(old, new, i, j),
    ) by {
        if reaches_threshold(sim(old, new, i, j)) {
            assert(is_candidate(old, new, f.0, f.1, i, j));
            assert(from_pair(i, j, 0, 0));
        }
    }
}

/// Whether `a` marks at least what `b` marks.
spec fn covers(a: Seq<bool>, b: Seq<bool>) -> bool {
    &&& a.len() == b.len()
    &&& forall|x: int| 0 <= x < b.len() && #[trigger] b[x] ==> a[x]
}

/// Pass `kind` uses more and more, and leaves no unused pair that it
/// matches among the old definitions from `i` on.
proof fn lemma_exact_pass_leaves(old: Seq<Def>, new: Seq<Def>, kind: int, i: int, m: Marks)
    requires
        0 <= i,
        m.old_used.len() == old.len(),
        m.new_used.len() == new.len(),
    ensures
        covers(exact_pass(old, new, kind, i, m).old_used, m.old_used),
        covers(exact_pass(old, new, kind, i, m).new_used, m.new_used),
        forall|x: int, j: int|
            i <= x < old.len() && 0 <= j < new.len() && !exact_pass(old, new, kind, i, m).old_used[x]
                && !exact_pass(old, new, kind, i, m).new_used[j] ==> !#[trigger] pass_matches(
                kind,
                old[x],
                new[j],
            ),
    decreases old.len() - i,
{
    if i < old.len() {
        let r = exact_pass(old, new, kind, i, m);
        if m.old_used[i] {
            lemma_exact_pass_leaves(old, new, kind, i + 1, m);
        } else {
            let j0 = first_unused(new, m.new_used, old[i], kind, 0);
            lemma_first_unused_found(new, m.new_used, old[i], kind, 0);
            if j0 >= 0 {
                let next = Marks {
                    old_used: m.old_used.update(i, true),
                    new_used: m.new_used.update(j0, true),
                    out: m.out.push(pass_corr(kind, old[i], new[j0])),
                };
                lemma_exact_pass_leaves(old, new, kind, i + 1, next);
                assert(next.old_used[i]);
                assert forall|x: int| 0 <= x < m.old_used.len() && #[trigger] m.old_used[x] implies r.old_used[x] by {
                    assert(next.old_used[x]);
                }
                assert forall|x: int| 0 <= x < m.new_used.len() && #[trigger] m.new_used[x] implies r.new_used[x] by {
                    assert(next.new_used[x]);
                }
            } else {
                lemma_exact_pass_leaves(old, new, kind, i + 1, m);
                assert forall|x: int, j: int|
                    i <= x < old.len() && 0 <= j < new.len() && !r.old_used[x] && !r.new_used[j] implies !#[trigger] pass_matches(
                    kind,
                    old[x],
                    new[j],
                ) by {
                    if x == i && pass_matches(kind, old[x], new[j]) {
                        assert(!m.new_used[j]);
                        lemma_first_unused_exists(new, m.new_used, old[i], kind, 0, j);
                    }
                }
            }
        }
    }
}

/// The fuzzy pass only adds to what is used.
proof fn lemma_fuzzy_rounds_cover(
    old: Seq<Def>,
    new: Seq<Def>,
    ou: Seq<bool>,
    nu: Seq<bool>,
    partner: Seq<Option<usize>>,
)
    requires
        ou.len() == old.len(),
        nu.len() == new.len(),
    ensures
        covers(fuzzy_rounds(old, new, ou, nu, partner).0, ou),
        covers(fuzzy_rounds(old, new, ou, nu, partner).1, nu),
    decreases unused_count(ou),
{
    if exists|i: int, j: int| is_best(old, new, ou, nu, i, j) {
        let (i, j) = choose|i: int, j: int| is_best(old, new, ou, nu, i, j);
        lemma_unused_count_update(ou, i);
        let ou2 = ou.update(i, true);
        let nu2 = nu.update(j, true);
        lemma_fuzzy_rounds_cover(old, new, ou2, nu2, partner.update(i, Some(j as usize)));
        let f = fuzzy_rounds(old, new, ou, nu, partner);
        assert forall|x: int| 0 <= x < ou.len() && #[trigger] ou[x] implies f.0[x] by {
            assert(ou2[x]);
        }
        assert forall|x: int| 0 <= x < nu.len() && #[trigger] nu[x] implies f.1[x] by {
            assert(nu2[x]);
        }
    }
}

/// What is left over shares no exact signal: an old definition reported
/// removed and a new definition reported added ([`final_marks`]) differ in
/// content hash, in name and in shape hash, since an exact pass would
/// otherwise have paired them.
pub proof fn lemma_leftovers_differ(old: Seq<Def>, new: Seq<Def>)
    ensures
        forall|i: int, j: int|
            #![trigger final_marks(old, new).0[i], final_marks(old, new).1[j]]
            0 <= i < old.len() && 0 <= j < new.len() && final_marks(old, new).0[i] == false && final_marks(
                old,
                new,
            ).1[j] == false ==> {
                &&& old[i].content_hash@ != new[j].content_hash@
                &&& old[i].name@ != new[j].name@
                &&& old[i].shape_hash@ != new[j].shape_hash@
            },
{
    let m0 = Marks {
        old_used: Seq::new(old.len(), |i: int| false),
        new_used: Seq::new(new.len(), |j: int| false),
        out: Seq::empty(),
    };
    let m1 = exact_pass(old, new, 1, 0, m0);
    let m2 = exact_pass(old, new, 2, 0, m1);
    let m3 = exact_pass(old, new, 3, 0, m2);
    lemma_exact_pass_leaves(old, new, 1, 0, m0);
    lemma_exact_pass_leaves(old, new, 2, 0, m1);
    lemma_exact_pass_leaves(old, new, 3, 0, m2);
    let p0 = Seq::new(old.len(), |i: int| None::<usize>);
    lemma_fuzzy_rounds_cover(old, new, m3.old_used, m3.new_used, p0);
    let f = final_marks(old, new);
    assert forall|i: int, j: int|
        #![trigger f.0[i], f.1[j]]
        0 <= i < old.len() && 0 <= j < new.len() && f.0[i] == false && f.1[j] == false implies {
        &&& old[i].content_hash@ != new[j].content_hash@
        &&& old[i].name@ != new[j].name@
        &&& old[i].shape_hash@ != new[j].shape_hash@
    } by {
        assert(!m3.old_used[i] && !m3.new_used[j]);
        assert(!m2.old_used[i] && !m2.new_used[j]);
        assert(!m1.old_used[i] && !m1.new_used[j]);
        assert(!pass_matches(1, old[i], new[j]));
        assert(!pass_matches(2, old[i], new[j]));
        assert(!pass_matches(3, old[i], new[j]));
    }
}

/// Whether every rename among `cs` changes the name, and every
/// renamed-and-edited match is between 50 and 100 percent similar.
pub open spec fn renames_sound(cs: Seq<Corr>) -> bool {
    forall|x: int|
        0 <= x < cs.len() ==> match #[trigger] cs[x] {
            Corr::Renamed(a, b) => a != b,
            Corr::RenamedEdited(a, b, p) => a != b && 50 <= p <= 100,
            _ => true,
        }
}

/// Shared subtrees are at most as many as either side has.
proof fn lemma_common_bounded(a: Seq<u64>, b: Seq<u64>)
    ensures
        common(a, b) <= a.len(),
        common(a, b) <= b.len(),
{
    let ma = a.to_multiset();
    let mb = b.to_multiset();
    let i = ma.intersection_with(mb);
    assert(i.subset_of(ma)) by {
        assert forall|v: u64| i.count(v) <= ma.count(v) by {
            vstd::multiset::lemma_intersection_count(ma, mb, v);
        }
    }
    assert(i.subset_of(mb)) by {
        assert forall|v: u64| i.count(v) <= mb.count(v) by {
            vstd::multiset::lemma_intersection_count(ma, mb, v);
        }
    }
    vstd::multiset::axiom_len_sub(ma, i);
    vstd::multiset::axiom_len_sub(mb, i);
    vstd::seq_lib::to_multiset_len(a);
    vstd::seq_lib::to_multiset_len(b);
}

proof fn lemma_percent_bounds(n: nat, d: nat)
    by (nonlinear_arith)
    requires
        d > 0,
        2 * n <= d,
        4 * n >= d,
    ensures
        50 <= (400 * n + d) / (2 * d) <= 100,
{
}

/// A pair similar enough to be matched is reported as 50 to 100 percent
/// similar.
proof fn lemma_similar_percent(old: Seq<Def>, new: Seq<Def>, i: int, j: int)
    requires
        reaches_threshold(sim(old, new, i, j)),
    ensures
        50 <= percent(sim(old, new, i, j)) <= 100,
{
    let a = old[i].subtree_hashes@;
    let b = new[j].subtree_hashes@;
    let s = sim(old, new, i, j);
    if a.len() > 0 && b.len() > 0 {
        lemma_common_bounded(a, b);
    }
    assert(s.1 > 0 && 2 * s.0 <= s.1 && 4 * s.0 >= s.1);
    lemma_percent_bounds(s.0, s.1);
}

/// Whether no unused old definition shares its name with an unused new one.
spec fn unused_names_differ(old: Seq<Def>, new: Seq<Def>, ou: Seq<bool>, nu: Seq<bool>) -> bool {
    forall|x: int, j: int|
        #![trigger ou[x], nu[j]]
        0 <= x < old.len() && 0 <= j < new.len() && !ou[x] && !nu[j] ==> old[x].name@ != new[j].name@
}

proof fn lemma_renames_sound_add(a: Seq<Corr>, b: Seq<Corr>)
    requires
        renames_sound(a),
        renames_sound(b),
    ensures
        renames_sound(a + b),
{
    assert forall|x: int| 0 <= x < (a + b).len() implies match #[trigger] (a + b)[x] {
        Corr::Renamed(p, q) => p != q,
        Corr::RenamedEdited(p, q, r) => p != q && 50 <= r <= 100,
        _ => true,
    } by {
        if x < a.len() {
            assert((a + b)[x] == a[x]);
        } else {
            assert((a + b)[x] == b[x - a.len()]);
        }
    }
}

/// A pass records a rename only for a pair left unused, so under
/// [`unused_names_differ`] its renames change the name.
proof fn lemma_pass_renames(old: Seq<Def>, new: Seq<Def>, kind: int, i: int, m: Marks)
    requires
        0 <= i,
        m.old_used.len() == old.len(),
        m.new_used.len() == new.len(),
        renames_sound(m.out),
        kind != 1 && kind != 2 ==> unused_names_differ(old, new, m.old_used, m.new_used),
    ensures
        renames_sound(exact_pass(old, new, kind, i, m).out),
    decreases old.len() - i,
{
    if i < old.len() && !m.old_used[i] {
        let j = first_unused(new, m.new_used, old[i], kind, 0);
        lemma_first_unused_found(new, m.new_used, old[i], kind, 0);
        if j >= 0 {
            let c = pass_corr(kind, old[i], new[j]);
            let next = Marks {
                old_used: m.old_used.update(i, true),
                new_used: m.new_used.update(j, true),
                out: m.out.push(c),
            };
            if kind != 1 && kind != 2 {
                assert(old[i].name@ != new[j].name@);
                assert(unused_names_differ(old, new, next.old_used, next.new_used)) by {
                    assert forall|x: int, y: int|
                        #![trigger next.old_used[x], next.new_used[y]]
                        0 <= x < old.len() && 0 <= y < new.len() && !next.old_used[x] && !next.new_used[y] implies old[x].name@
                        != new[y].name@ by {
                        assert(!m.old_used[x] && !m.new_used[y]);
                    }
                }
            }
            assert(seq![c][0] == c);
            assert(renames_sound(seq![c]));
            lemma_renames_sound_add(m.out, seq![c]);
            assert(m.out + seq![c] == next.out);
            lemma_pass_renames(old, new, kind, i + 1, next);
        } else {
            lemma_pass_renames(old, new, kind, i + 1, m);
        }
    } else if i < old.len() {
        lemma_pass_renames(old, new, kind, i + 1, m);
    }
}

/// The fuzzy pass pairs only definitions left unused, so under
/// [`unused_names_differ`] every partner it records has another name.
proof fn lemma_fuzzy_partners_differ(
    old: Seq<Def>,
    new: Seq<Def>,
    ou: Seq<bool>,
    nu: Seq<bool>,
    partner: Seq<Option<usize>>,
)
    requires
        ou.len() == old.len(),
        nu.len() == new.len(),
        partner.len() == old.len(),
        new.len() <= usize::MAX,
        unused_names_differ(old, new, ou, nu),
        forall|x: int|
            0 <= x < old.len() && #[trigger] partner[x] is Some ==> partner[x]->0 < new.len() && old[x].name@
                != new[partner[x]->0 as int].name@ && reaches_threshold(sim(old, new, x, partner[x]->0 as int)),
    ensures
        forall|x: int|
            0 <= x < old.len() && #[trigger] fuzzy_rounds(old, new, ou, nu, partner).2[x] is Some ==> fuzzy_rounds(
                old,
                new,
                ou,
                nu,
                partner,
            ).2[x]->0 < new.len() && old[x].name@ != new[fuzzy_rounds(old, new, ou, nu, partner).2[x]->0 as int].name@
                && reaches_threshold(sim(old, new, x, fuzzy_rounds(old, new, ou, nu, partner).2[x]->0 as int)),
    decreases unused_count(ou),
{
    if exists|i: int, j: int| is_best(old, new, ou, nu, i, j) {
        let (i, j) = choose|i: int, j: int| is_best(old, new, ou, nu, i, j);
        lemma_unused_count_update(ou, i);
        let ou2 = ou.update(i, true);
        let nu2 = nu.update(j, true);
        let p2 = partner.update(i, Some(j as usize));
        assert(!ou[i] && !nu[j]);
        assert(unused_names_differ(old, new, ou2, nu2)) by {
            assert forall|x: int, y: int|
                #![trigger ou2[x], nu2[y]]
                0 <= x < old.len() && 0 <= y < new.len() && !ou2[x] && !nu2[y] implies old[x].name@ != new[y].name@ by {
                assert(!ou[x] && !nu[y]);
            }
        }
        assert forall|x: int| 0 <= x < old.len() && #[trigger] p2[x] is Some implies p2[x]->0 < new.len()
            && old[x].name@ != new[p2[x]->0 as int].name@ && reaches_threshold(sim(old, new, x, p2[x]->0 as int)) by {
            if x != i {
                assert(p2[x] == partner[x]);
            }
        }
        lemma_fuzzy_partners_differ(old, new, ou2, nu2, p2);
    }
}

proof fn lemma_fuzzy_out_differ(old: Seq<Def>, new: Seq<Def>, p: Seq<Option<usize>>, k: int)
    requires
        0 <= k <= old.len(),
        p.len() == old.len(),
        forall|x: int|
            0 <= x < old.len() && #[trigger] p[x] is Some ==> p[x]->0 < new.len() && old[x].name@
                != new[p[x]->0 as int].name@ && reaches_threshold(sim(old, new, x, p[x]->0 as int)),
    ensures
        renames_sound(fuzzy_out(old, new, p, k)),
    decreases k,
{
    if k > 0 {
        lemma_fuzzy_out_differ(old, new, p, k - 1);
        let here = match p[k - 1] {
            Some(j) => seq![
                Corr::RenamedEdited(old[k - 1].name@, new[j as int].name@, percent(sim(old, new, k - 1, j as int))),
            ],
            None => Seq::empty(),
        };
        if let Some(j) = p[k - 1] {
            lemma_similar_percent(old, new, k - 1, j as int);
        }
        assert(renames_sound(here));
        lemma_renames_sound_add(fuzzy_out(old, new, p, k - 1), here);
    }
}

proof fn lemma_removed_differ(old: Seq<Def>, ou: Seq<bool>, k: int)
    ensures
        renames_sound(removed_out(old, ou, k)),
    decreases k,
{
    if k > 0 {
        lemma_removed_differ(old, ou, k - 1);
        let here = if ou[k - 1] {
            Seq::empty()
        } else {
            seq![Corr::Removed(old[k - 1].name@)]
        };
        assert(renames_sound(here));
        lemma_renames_sound_add(removed_out(old, ou, k - 1), here);
    }
}

proof fn lemma_added_differ(new: Seq<Def>, nu: Seq<bool>, l: int)
    ensures
        renames_sound(added_out(new, nu, l)),
    decreases l,
{
    if l > 0 {
        lemma_added_differ(new, nu, l - 1);
        let here = if nu[l - 1] {
            Seq::empty()
        } else {
            seq![Corr::Added(new[l - 1].name@)]
        };
        assert(renames_sound(here));
        lemma_renames_sound_add(added_out(new, nu, l - 1), here);
    }
}

/// A rename changes the name: every `Renamed` and `RenamedEdited`
/// correspondence of [`matching`] goes from one name to another, since the
/// pass that pairs equal names runs before both; and a renamed-and-edited
/// match is reported as 50 to 100 percent similar.
pub proof fn lemma_renames_sound(old: Seq<Def>, new: Seq<Def>)
    requires
        new.len() <= usize::MAX,
    ensures
        renames_sound(matching(old, new)),
{
    let m0 = Marks {
        old_used: Seq::new(old.len(), |i: int| false),
        new_used: Seq::new(new.len(), |j: int| false),
        out: Seq::empty(),
    };
    let m1 = exact_pass(old, new, 1, 0, m0);
    let m2 = exact_pass(old, new, 2, 0, m1);
    let m3 = exact_pass(old, new, 3, 0, m2);
    lemma_exact_pass_leaves(old, new, 1, 0, m0);
    lemma_exact_pass_leaves(old, new, 2, 0, m1);
    lemma_exact_pass_leaves(old, new, 3, 0, m2);
    assert(renames_sound(m0.out));
    lemma_pass_renames(old, new, 1, 0, m0);
    lemma_pass_renames(old, new, 2, 0, m1);
    assert(unused_names_differ(old, new, m2.old_used, m2.new_used)) by {
        assert forall|x: int, j: int|
            #![trigger m2.old_used[x], m2.new_used[j]]
            0 <= x < old.len() && 0 <= j < new.len() && !m2.old_used[x] && !m2.new_used[j] implies old[x].name@
            != new[j].name@ by {
            assert(!pass_matches(2, old[x], new[j]));
        }
    }
    lemma_pass_renames(old, new, 3, 0, m2);
    assert(unused_names_differ(old, new, m3.old_used, m3.new_used)) by {
        assert forall|x: int, j: int|
            #![trigger m3.old_used[x], m3.new_used[j]]
            0 <= x < old.len() && 0 <= j < new.len() && !m3.old_used[x] && !m3.new_used[j] implies old[x].name@
            != new[j].name@ by {
            assert(!m2.old_used[x] && !m2.new_used[j]);
            assert(!pass_matches(2, old[x], new[j]));
        }
    }
    let p0 = Seq::new(old.len(), |i: int| None::<usize>);
    lemma_fuzzy_partners_differ(old, new, m3.old_used, m3.new_used, p0);
    lemma_fuzzy_rounds_lengths(old, new, m3.old_used, m3.new_used, p0);
    let f = fuzzy_rounds(old, new, m3.old_used, m3.new_used, p0);
    lemma_fuzzy_counts(old, new, m3.old_used, m3.new_used, p0);
    lemma_fuzzy_out_differ(old, new, f.2, old.len() as int);
    lemma_removed_differ(old, f.0, old.len() as int);
    lemma_added_differ(new, f.1, new.len() as int);
    lemma_renames_sound_add(m3.out, fuzzy_out(old, new, f.2, old.len() as int));
    lemma_renames_sound_add(
        m3.out + fuzzy_out(old, new, f.2, old.len() as int),
        removed_out(old, f.0, old.len() as int),
    );
    lemma_renames_sound_add(
        m3.out + fuzzy_out(old, new, f.2, old.len() as int) + removed_out(old, f.0, old.len() as int),
        added_out(new, f.1, new.len() as int),
    );
}

/// Nothing used and nothing recorded: where the passes start.
pub open spec fn no_marks(old: Seq<Def>, new: Seq<Def>) -> Marks {
    Marks {
        old_used: Seq::new(old.len(), |i: int| false),
        new_used: Seq::new(new.len(), |j: int| false),
        out: Seq::empty(),
    }
}

/// Whether the integers strictly increase.
pub open spec fn ascending(xs: Seq<int>) -> bool {
    forall|a: int, b: int| 0 <= a < b < xs.len() ==> #[trigger] xs[a] < #[trigger] xs[b]
}

/// The (old, new) index pairs that pass `kind` records over the old
/// definitions from `i` on, in the order it records them.
pub open spec fn pass_pairs(old: Seq<Def>, new: Seq<Def>, kind: int, i: int, m: Marks) -> Seq<(int, int)>
    decreases old.len() - i,
{
    if i < 0 || i >= old.len() {
        Seq::empty()
    } else if m.old_used[i] {
        pass_pairs(old, new, kind, i + 1, m)
    } else {
        let j = first_unused(new, m.new_used, old[i], kind, 0);
        if j < 0 {
            pass_pairs(old, new, kind, i + 1, m)
        } else {
            seq![(i, j)] + pass_pairs(
                old,
                new,
                kind,
                i + 1,
                Marks {
                    old_used: m.old_used.update(i, true),
                    new_used: m.new_used.update(j, true),
                    out: m.out.push(pass_corr(kind, old[i], new[j])),
                },
            )
        }
    }
}

/// The correspondences that pass `kind` records for the pairs `ps`.
pub open spec fn pass_group(old: Seq<Def>, new: Seq<Def>, kind: int, ps: Seq<(int, int)>) -> Seq<Corr> {
    ps.map_values(|p: (int, int)| pass_corr(kind, old[p.0], new[p.1]))
}

/// The old indices of the pairs `ps`.
pub open spec fn firsts(ps: Seq<(int, int)>) -> Seq<int> {
    ps.map_values(|p: (int, int)| p.0)
}

/// The indices before `k` whose flag is unset, ascending.
pub open spec fn unset_indices(flags: Seq<bool>, k: int) -> Seq<int>
    decreases k,
{
    if k <= 0 {
        Seq::empty()
    } else {
        unset_indices(flags, k - 1) + if flags[k - 1] {
            Seq::empty()
        } else {
            seq![k - 1]
        }
    }
}

/// The indices before `k` that have a partner, ascending.
pub open spec fn partnered(p: Seq<Option<usize>>, k: int) -> Seq<int>
    decreases k,
{
    if k <= 0 {
        Seq::empty()
    } else {
        partnered(p, k - 1) + if p[k - 1] is Some {
            seq![k - 1]
        } else {
            Seq::empty()
        }
    }
}

/// The correspondence the fuzzy pass reports for old definition `x`.
pub open spec fn fuzzy_corr(old: Seq<Def>, new: Seq<Def>, p: Seq<Option<usize>>, x: int) -> Corr {
    Corr::RenamedEdited(old[x].name@, new[p[x]->0 as int].name@, percent(sim(old, new, x, p[x]->0 as int)))
}

proof fn lemma_pass_pairs(old: Seq<Def>, new: Seq<Def>, kind: int, i: int, m: Marks)
    requires
        0 <= i,
    ensures
        exact_pass(old, new, kind, i, m).out == m.out + pass_group(old, new, kind, pass_pairs(old, new, kind, i, m)),
        forall|t: int|
            0 <= t < pass_pairs(old, new, kind, i, m).len() ==> i <= #[trigger] pass_pairs(
                old,
                new,
                kind,
                i,
                m,
            )[t].0,
        ascending(firsts(pass_pairs(old, new, kind, i, m))),
    decreases old.len() - i,
{
    let pp = pass_pairs(old, new, kind, i, m);
    if i >= old.len() {
        assert(m.out + pass_group(old, new, kind, pp) =~= m.out);
    } else if m.old_used[i] {
        lemma_pass_pairs(old, new, kind, i + 1, m);
    } else {
        let j = first_unused(new, m.new_used, old[i], kind, 0);
        if j < 0 {
            lemma_pass_pairs(old, new, kind, i + 1, m);
        } else {
            let c = pass_corr(kind, old[i], new[j]);
            let next = Marks {
                old_used: m.old_used.update(i, true),
                new_used: m.new_used.update(j, true),
                out: m.out.push(c),
            };
            lemma_pass_pairs(old, new, kind, i + 1, next);
            let rest = pass_pairs(old, new, kind, i + 1, next);
            assert(pp == seq![(i, j)] + rest);
            assert(pass_group(old, new, kind, pp) =~= seq![c] + pass_group(old, new, kind, rest));
            assert(m.out.push(c) + pass_group(old, new, kind, rest) =~= m.out + (seq![c] + pass_group(
                old,
                new,
                kind,
                rest,
            )));
            assert forall|t: int| 0 <= t < pp.len() implies i <= #[trigger] pp[t].0 by {
                if t > 0 {
                    assert(pp[t] == rest[t - 1]);
                }
            }
            assert forall|a: int, b: int| 0 <= a < b < firsts(pp).len() implies #[trigger] firsts(pp)[a]
                < #[trigger] firsts(pp)[b] by {
                assert(pp[b] == rest[b - 1]);
                assert(i + 1 <= rest[b - 1].0);
                if a > 0 {
                    assert(pp[a] == rest[a - 1]);
                    assert(firsts(rest)[a - 1] < firsts(rest)[b - 1]);
                }
            }
        }
    }
}

proof fn lemma_removed_order(old: Seq<Def>, ou: Seq<bool>, k: int)
    requires
        0 <= k <= ou.len(),
    ensures
        removed_out(old, ou, k) == unset_indices(ou, k).map_values(|x: int| Corr::Removed(old[x].name@)),
        ascending(unset_indices(ou, k)),
        forall|t: int| 0 <= t < unset_indices(ou, k).len() ==> #[trigger] unset_indices(ou, k)[t] < k,
    decreases k,
{
    if k > 0 {
        lemma_removed_order(old, ou, k - 1);
        let u = unset_indices(ou, k);
        let f = |x: int| Corr::Removed(old[x].name@);
        assert(u.map_values(f) =~= unset_indices(ou, k - 1).map_values(f) + if ou[k - 1] {
            Seq::<Corr>::empty()
        } else {
            seq![Corr::Removed(old[k - 1].name@)]
        });
    }
}

proof fn lemma_added_order(new: Seq<Def>, nu: Seq<bool>, k: int)
    requires
        0 <= k <= nu.len(),
    ensures
        added_out(new, nu, k) == unset_indices(nu, k).map_values(|x: int| Corr::Added(new[x].name@)),
        ascending(unset_indices(nu, k)),
        forall|t: int| 0 <= t < unset_indices(nu, k).len() ==> #[trigger] unset_indices(nu, k)[t] < k,
    decreases k,
{
    if k > 0 {
        lemma_added_order(new, nu, k - 1);
        let u = unset_indices(nu, k);
        let f = |x: int| Corr::Added(new[x].name@);
        assert(u.map_values(f) =~= unset_indices(nu, k - 1).map_values(f) + if nu[k - 1] {
            Seq::<Corr>::empty()
        } else {
            seq![Corr::Added(new[k - 1].name@)]
        });
    }
}

proof fn lemma_fuzzy_order(old: Seq<Def>, new: Seq<Def>, p: Seq<Option<usize>>, k: int)
    requires
        0 <= k <= p.len(),
    ensures
        fuzzy_out(old, new, p, k) == partnered(p, k).map_values(|x: int| fuzzy_corr(old, new, p, x)),
        ascending(partnered(p, k)),
        forall|t: int| 0 <= t < partnered(p, k).len() ==> #[trigger] partnered(p, k)[t] < k,
    decreases k,
{
    if k > 0 {
        lemma_fuzzy_order(old, new, p, k - 1);
        let u = partnered(p, k);
        let f = |x: int| fuzzy_corr(old, new, p, x);
        assert(u.map_values(f) =~= partnered(p, k - 1).map_values(f) + match p[k - 1] {
            Some(j) => seq![
                Corr::RenamedEdited(old[k - 1].name@, new[j as int].name@, percent(sim(old, new, k - 1, j as int))),
            ],
            None => Seq::empty(),
        });
    }
}

/// The order within each group: each exact pass lists its matches by
/// ascending old index ([`pass_pairs`]), the fuzzy matches and the removed
/// definitions come by ascending old index, and the added ones by ascending
/// new index. [`matching`] is exactly these six lists, in this order.
pub proof fn lemma_match_order(old: Seq<Def>, new: Seq<Def>)
    ensures
        ({
            let m0 = no_marks(old, new);
            let m1 = exact_pass(old, new, 1, 0, m0);
            let m2 = exact_pass(old, new, 2, 0, m1);
            let p1 = pass_pairs(old, new, 1, 0, m0);
            let p2 = pass_pairs(old, new, 2, 0, m1);
            let p3 = pass_pairs(old, new, 3, 0, m2);
            let f = final_marks(old, new);
            let fz = partnered(f.2, old.len() as int);
            let rm = unset_indices(f.0, old.len() as int);
            let ad = unset_indices(f.1, new.len() as int);
            &&& matching(old, new) == pass_group(old, new, 1, p1) + pass_group(old, new, 2, p2) + pass_group(
                old,
                new,
                3,
                p3,
            ) + fz.map_values(|x: int| fuzzy_corr(old, new, f.2, x)) + rm.map_values(
                |x: int| Corr::Removed(old[x].name@),
            ) + ad.map_values(|x: int| Corr::Added(new[x].name@))
            &&& ascending(firsts(p1))
            &&& ascending(firsts(p2))
            &&& ascending(firsts(p3))
            &&& ascending(fz)
            &&& ascending(rm)
            &&& ascending(ad)
        }),
{
    let m0 = no_marks(old, new);
    let m1 = exact_pass(old, new, 1, 0, m0);
    let m2 = exact_pass(old, new, 2, 0, m1);
    let m3 = exact_pass(old, new, 3, 0, m2);
    lemma_pass_pairs(old, new, 1, 0, m0);
    lemma_pass_pairs(old, new, 2, 0, m1);
    lemma_pass_pairs(old, new, 3, 0, m2);
    lemma_exact_pass_leaves(old, new, 1, 0, m0);
    lemma_exact_pass_leaves(old, new, 2, 0, m1);
    lemma_exact_pass_leaves(old, new, 3, 0, m2);
    let g1 = pass_group(old, new, 1, pass_pairs(old, new, 1, 0, m0));
    let g2 = pass_group(old, new, 2, pass_pairs(old, new, 2, 0, m1));
    let g3 = pass_group(old, new, 3, pass_pairs(old, new, 3, 0, m2));
    assert(m0.out + g1 =~= g1);
    assert(m3.out == g1 + g2 + g3);
    assert(exact_passes(old, new) == m3);
    let p0 = Seq::new(old.len(), |i: int| None::<usize>);
    lemma_fuzzy_counts(old, new, m3.old_used, m3.new_used, p0);
    lemma_fuzzy_rounds_lengths(old, new, m3.old_used, m3.new_used, p0);
    let f = final_marks(old, new);
    lemma_fuzzy_order(old, new, f.2, old.len() as int);
    lemma_removed_order(old, f.0, old.len() as int);
    lemma_added_order(new, f.1, new.len() as int);
}

/// The new-side name a correspondence speaks of, if any.
pub open spec fn new_name(c: Corr) -> Option<Seq<char>> {
    match c {
        Corr::Unchanged(n) => Some(n),
        Corr::Modified(n) => Some(n),
        Corr::Renamed(_, t) => Some(t),
        Corr::RenamedEdited(_, t, _) => Some(t),
        Corr::Removed(_) => None,
        Corr::Added(n) => Some(n),
    }
}

/// The multiset of new-side names that the correspondences speak of.
pub open spec fn new_names(cs: Seq<Corr>) -> Multiset<Seq<char>>
    decreases cs.len(),
{
    if cs.len() == 0 {
        Multiset::empty()
    } else {
        match new_name(cs.last()) {
            Some(n) => new_names(cs.drop_last()).insert(n),
            None => new_names(cs.drop_last()),
        }
    }
}

/// The multiset of the names of the new definitions before `k`.
pub open spec fn def_names(new: Seq<Def>, k: int) -> Multiset<Seq<char>>
    decreases k,
{
    if k <= 0 {
        Multiset::empty()
    } else {
        def_names(new, k - 1).insert(new[k - 1].name@)
    }
}

/// The names of the new definitions before `k` whose mark is `flag`.
spec fn marked_names(new: Seq<Def>, used: Seq<bool>, flag: bool, k: int) -> Multiset<Seq<char>>
    decreases k,
{
    if k <= 0 {
        Multiset::empty()
    } else if used[k - 1] == flag {
        marked_names(new, used, flag, k - 1).insert(new[k - 1].name@)
    } else {
        marked_names(new, used, flag, k - 1)
    }
}

/// The names of the new definitions that `p` pairs the old ones before `k` with.
spec fn paired_names(new: Seq<Def>, p: Seq<Option<usize>>, k: int) -> Multiset<Seq<char>>
    decreases k,
{
    if k <= 0 {
        Multiset::empty()
    } else {
        match p[k - 1] {
            Some(j) => paired_names(new, p, k - 1).insert(new[j as int].name@),
            None => paired_names(new, p, k - 1),
        }
    }
}

proof fn lemma_new_names_add(a: Seq<Corr>, b: Seq<Corr>)
    ensures
        new_names(a + b) == new_names(a).add(new_names(b)),
    decreases b.len(),
{
    if b.len() == 0 {
        assert(a + b =~= a);
        assert(new_names(a).add(Multiset::empty()) =~= new_names(a));
    } else {
        lemma_new_names_add(a, b.drop_last());
        assert((a + b).drop_last() =~= a + b.drop_last());
        assert((a + b).last() == b.last());
        match new_name(b.last()) {
            Some(n) => {
                assert(new_names(a).add(new_names(b.drop_last())).insert(n) =~= new_names(a).add(
                    new_names(b.drop_last()).insert(n),
                ));
            },
            None => {},
        }
    }
}

proof fn lemma_marked_update(new: Seq<Def>, used: Seq<bool>, j: int, k: int)
    requires
        0 <= j < used.len(),
        0 <= k <= used.len(),
        used[j] == false,
    ensures
        marked_names(new, used.update(j, true), true, k) == if j < k {
            marked_names(new, used, true, k).insert(new[j].name@)
        } else {
            marked_names(new, used, true, k)
        },
    decreases k,
{
    if k > 0 {
        lemma_marked_update(new, used, j, k - 1);
        if j < k - 1 {
            assert(marked_names(new, used, true, k - 1).insert(new[j].name@).insert(new[k - 1].name@)
                =~= marked_names(new, used, true, k - 1).insert(new[k - 1].name@).insert(new[j].name@));
        }
    }
}

proof fn lemma_marked_split(new: Seq<Def>, used: Seq<bool>, k: int)
    requires
        0 <= k <= used.len(),
    ensures
        marked_names(new, used, true, k).add(marked_names(new, used, false, k)) == def_names(new, k),
    decreases k,
{
    if k > 0 {
        lemma_marked_split(new, used, k - 1);
        let t = marked_names(new, used, true, k - 1);
        let f = marked_names(new, used, false, k - 1);
        let x = new[k - 1].name@;
        assert(t.insert(x).add(f) =~= t.add(f).insert(x));
        assert(t.add(f.insert(x)) =~= t.add(f).insert(x));
    }
}

proof fn lemma_marked_none(new: Seq<Def>, used: Seq<bool>, k: int)
    requires
        0 <= k <= used.len(),
        forall|a: int| 0 <= a < used.len() ==> used[a] == false,
    ensures
        marked_names(new, used, true, k) == Multiset::<Seq<char>>::empty(),
    decreases k,
{
    if k > 0 {
        lemma_marked_none(new, used, k - 1);
    }
}

proof fn lemma_pass_names(old: Seq<Def>, new: Seq<Def>, kind: int, i: int, m: Marks)
    requires
        1 <= kind <= 3,
        0 <= i,
        m.new_used.len() == new.len(),
        m.old_used.len() == old.len(),
        new_names(m.out) == marked_names(new, m.new_used, true, new.len() as int),
    ensures
        exact_pass(old, new, kind, i, m).new_used.len() == new.len(),
        exact_pass(old, new, kind, i, m).old_used.len() == old.len(),
        new_names(exact_pass(old, new, kind, i, m).out) == marked_names(
            new,
            exact_pass(old, new, kind, i, m).new_used,
            true,
            new.len() as int,
        ),
    decreases old.len() - i,
{
    if i < old.len() && !m.old_used[i] {
        let j = first_unused(new, m.new_used, old[i], kind, 0);
        lemma_first_unused_found(new, m.new_used, old[i], kind, 0);
        if j >= 0 {
            let c = pass_corr(kind, old[i], new[j]);
            lemma_marked_update(new, m.new_used, j, new.len() as int);
            assert(m.out.push(c).drop_last() =~= m.out);
            assert(new_name(c) == Some(new[j].name@));
            let next = Marks {
                old_used: m.old_used.update(i, true),
                new_used: m.new_used.update(j, true),
                out: m.out.push(c),
            };
            lemma_pass_names(old, new, kind, i + 1, next);
        } else {
            lemma_pass_names(old, new, kind, i + 1, m);
        }
    } else if i < old.len() {
        lemma_pass_names(old, new, kind, i + 1, m);
    }
}

proof fn lemma_paired_names_update(new: Seq<Def>, p: Seq<Option<usize>>, i: int, j: usize, k: int)
    requires
        0 <= i < p.len(),
        p[i] is None,
        0 <= k <= p.len(),
    ensures
        paired_names(new, p.update(i, Some(j)), k) == if i < k {
            paired_names(new, p, k).insert(new[j as int].name@)
        } else {
            paired_names(new, p, k)
        },
    decreases k,
{
    if k > 0 {
        lemma_paired_names_update(new, p, i, j, k - 1);
        if i < k - 1 {
            if let Some(j2) = p[k - 1] {
                assert(paired_names(new, p, k - 1).insert(new[j as int].name@).insert(new[j2 as int].name@)
                    =~= paired_names(new, p, k - 1).insert(new[j2 as int].name@).insert(new[j as int].name@));
            }
        }
    }
}

proof fn lemma_paired_names_none(new: Seq<Def>, p: Seq<Option<usize>>, k: int)
    requires
        0 <= k <= p.len(),
        forall|a: int| 0 <= a < p.len() ==> p[a] is None,
    ensures
        paired_names(new, p, k) == Multiset::<Seq<char>>::empty(),
    decreases k,
{
    if k > 0 {
        lemma_paired_names_none(new, p, k - 1);
    }
}

proof fn lemma_fuzzy_names(old: Seq<Def>, new: Seq<Def>, ou: Seq<bool>, nu: Seq<bool>, partner: Seq<Option<usize>>)
    requires
        ou.len() == old.len(),
        nu.len() == new.len(),
        new.len() <= usize::MAX,
        partner.len() == old.len(),
        forall|a: int| 0 <= a < old.len() && #[trigger] partner[a] is Some ==> ou[a],
    ensures
        ({
            let f = fuzzy_rounds(old, new, ou, nu, partner);
            paired_names(new, f.2, old.len() as int).add(marked_names(new, nu, true, new.len() as int))
                == paired_names(new, partner, old.len() as int).add(marked_names(new, f.1, true, new.len() as int))
        }),
    decreases unused_count(ou),
{
    if exists|i: int, j: int| is_best(old, new, ou, nu, i, j) {
        let (i, j) = choose|i: int, j: int| is_best(old, new, ou, nu, i, j);
        lemma_unused_count_update(ou, i);
        let p2 = partner.update(i, Some(j as usize));
        let ou2 = ou.update(i, true);
        let nu2 = nu.update(j, true);
        assert forall|a: int| 0 <= a < old.len() && #[trigger] p2[a] is Some implies ou2[a] by {
            if a != i {
                assert(partner[a] is Some);
            }
        }
        if partner[i] is Some {
            assert(ou[i]);
        }
        lemma_fuzzy_names(old, new, ou2, nu2, p2);
        lemma_paired_names_update(new, partner, i, j as usize, old.len() as int);
        lemma_marked_update(new, nu, j, new.len() as int);
        assert(fuzzy_rounds(old, new, ou, nu, partner) == fuzzy_rounds(old, new, ou2, nu2, p2));
        let f = fuzzy_rounds(old, new, ou, nu, partner);
        let x = new[j].name@;
        let a = paired_names(new, f.2, old.len() as int);
        let b = marked_names(new, nu, true, new.len() as int);
        let c = paired_names(new, partner, old.len() as int);
        let d = marked_names(new, f.1, true, new.len() as int);
        assert(a.add(b.insert(x)) == c.insert(x).add(d));
        assert(a.add(b) =~= c.add(d)) by {
            assert forall|y: Seq<char>| #[trigger] a.add(b).count(y) == c.add(d).count(y) by {
                assert(a.add(b.insert(x)).count(y) == c.insert(x).add(d).count(y));
            }
        }
    }
}

proof fn lemma_fuzzy_out_names(old: Seq<Def>, new: Seq<Def>, p: Seq<Option<usize>>, k: int)
    requires
        0 <= k <= p.len(),
    ensures
        new_names(fuzzy_out(old, new, p, k)) == paired_names(new, p, k),
    decreases k,
{
    if k > 0 {
        lemma_fuzzy_out_names(old, new, p, k - 1);
        let here = match p[k - 1] {
            Some(j) => seq![
                Corr::RenamedEdited(old[k - 1].name@, new[j as int].name@, percent(sim(old, new, k - 1, j as int))),
            ],
            None => Seq::empty(),
        };
        lemma_new_names_add(fuzzy_out(old, new, p, k - 1), here);
        if let Some(j) = p[k - 1] {
            assert(here.drop_last() =~= Seq::<Corr>::empty());
            assert(new_name(here.last()) == Some(new[j as int].name@));
            assert(new_names(here) == new_names(here.drop_last()).insert(new[j as int].name@));
            assert(new_names(here) =~= Multiset::<Seq<char>>::empty().insert(new[j as int].name@));
            assert(paired_names(new, p, k - 1).add(Multiset::<Seq<char>>::empty().insert(new[j as int].name@))
                =~= paired_names(new, p, k - 1).insert(new[j as int].name@));
        } else {
            assert(paired_names(new, p, k - 1).add(Multiset::<Seq<char>>::empty()) =~= paired_names(new, p, k - 1));
        }
    }
}

proof fn lemma_rest_names(old: Seq<Def>, new: Seq<Def>, ou: Seq<bool>, nu: Seq<bool>, k: int, l: int)
    requires
        0 <= k <= ou.len(),
        0 <= l <= nu.len(),
    ensures
        new_names(removed_out(old, ou, k)) == Multiset::<Seq<char>>::empty(),
        new_names(added_out(new, nu, l)) == marked_names(new, nu, false, l),
    decreases k + l,
{
    if k > 0 {
        lemma_rest_names(old, new, ou, nu, k - 1, l);
        let here = if ou[k - 1] {
            Seq::<Corr>::empty()
        } else {
            seq![Corr::Removed(old[k - 1].name@)]
        };
        lemma_new_names_add(removed_out(old, ou, k - 1), here);
        if !ou[k - 1] {
            assert(here.drop_last() =~= Seq::<Corr>::empty());
        }
        assert(Multiset::<Seq<char>>::empty().add(Multiset::<Seq<char>>::empty()) =~= Multiset::<Seq<char>>::empty());
    }
    if l > 0 {
        lemma_rest_names(old, new, ou, nu, k, l - 1);
        let here = if nu[l - 1] {
            Seq::<Corr>::empty()
        } else {
            seq![Corr::Added(new[l - 1].name@)]
        };
        lemma_new_names_add(added_out(new, nu, l - 1), here);
        if !nu[l - 1] {
            assert(here.drop_last() =~= Seq::<Corr>::empty());
            assert(marked_names(new, nu, false, l - 1).add(Multiset::<Seq<char>>::empty().insert(new[l - 1].name@))
                =~= marked_names(new, nu, false, l - 1).insert(new[l - 1].name@));
        } else {
            assert(marked_names(new, nu, false, l - 1).add(Multiset::<Seq<char>>::empty()) =~= marked_names(
                new,
                nu,
                false,
                l - 1,
            ));
        }
    }
}

/// Each new definition is used exactly once: the new-side names that the
/// correspondences speak of are, as a multiset, the names of the new
/// definitions (of which there are at most as many as memory can index).
pub proof fn lemma_match_new_names(old: Seq<Def>, new: Seq<Def>)
    requires
        new.len() <= usize::MAX,
    ensures
        new_names(matching(old, new)) == def_names(new, new.len() as int),
{
    let m0 = Marks {
        old_used: Seq::new(old.len(), |i: int| false),
        new_used: Seq::new(new.len(), |j: int| false),
        out: Seq::empty(),
    };
    lemma_marked_none(new, m0.new_used, new.len() as int);
    let m1 = exact_pass(old, new, 1, 0, m0);
    let m2 = exact_pass(old, new, 2, 0, m1);
    lemma_pass_names(old, new, 1, 0, m0);
    lemma_pass_names(old, new, 2, 0, m1);
    lemma_pass_names(old, new, 3, 0, m2);
    let m = exact_passes(old, new);
    let p0 = Seq::new(old.len(), |i: int| None::<usize>);
    lemma_paired_names_none(new, p0, old.len() as int);
    lemma_fuzzy_names(old, new, m.old_used, m.new_used, p0);
    lemma_fuzzy_rounds_lengths(old, new, m.old_used, m.new_used, p0);
    let f = fuzzy_rounds(old, new, m.old_used, m.new_used, p0);
    lemma_fuzzy_counts(old, new, m.old_used, m.new_used, p0);
    lemma_fuzzy_out_names(old, new, f.2, old.len() as int);
    lemma_rest_names(old, new, f.0, f.1, old.len() as int, new.len() as int);
    lemma_marked_split(new, f.1, new.len() as int);
    let a = m.out;
    let b = fuzzy_out(old, new, f.2, old.len() as int);
    let c = removed_out(old, f.0, old.len() as int);
    let d = added_out(new, f.1, new.len() as int);
    lemma_new_names_add(a, b);
    lemma_new_names_add(a + b, c);
    lemma_new_names_add(a + b + c, d);
    let na = new_names(a);
    let nb = new_names(b);
    let nd = new_names(d);
    assert(Multiset::<Seq<char>>::empty().add(na) =~= na);
    assert(nb.add(na) == marked_names(new, f.1, true, new.len() as int));
    assert(na.add(nb).add(Multiset::<Seq<char>>::empty()).add(nd) =~= nb.add(na).add(nd));
}

// ─── Rendering ───────────────────────────────────────────────────────────────

/// One correspondence as a line of text.
pub open spec fn render_line(c: Corr) -> Seq<char> {
    match c {
        Corr::Unchanged(n) => "unchanged  "@ + n + "\n"@,
        Corr::Renamed(f, t) => "renamed    "@ + f + " -> "@ + t + "\n"@,
        Corr::RenamedEdited(f, t, s) => "renamed+   "@ + f + " -> "@ + t + " ("@ + decimal(s as nat)
            + "% similar)\n"@,
        Corr::Modified(n) => "modified   "@ + n + "\n"@,
        Corr::Added(n) => "added      "@ + n + "\n"@,
        Corr::Removed(n) => "removed    "@ + n + "\n"@,
    }
}

/// The correspondences as lines, in order.
pub open spec fn render_all(cs: Seq<Corr>) -> Seq<char>
    decreases cs.len(),
{
    if cs.len() == 0 {
        Seq::empty()
    } else {
        render_all(cs.drop_last()) + render_line(cs.last())
    }
}

/// Renders correspondences as deterministic, human-readable lines
/// ([`render_all`]).
pub fn render(cs: &[Correspondence]) -> (r: String)
    ensures
        r@ == render_all(corr_views(cs@)),
{
    let mut s = String::new();
    let mut i: usize = 0;
    while i < cs.len()
        invariant
            i <= cs@.len(),
            s@ == render_all(corr_views(cs@.take(i as int))),
        decreases cs.len() - i,
    {
        let ghost before = s@;
        match &cs[i] {
            Correspondence::Unchanged { name } => {
                push_str(&mut s, "unchanged  ");
                push_str(&mut s, name.as_str());
                push_str(&mut s, "\n");
            },
            Correspondence::Renamed { from, to } => {
                push_str(&mut s, "renamed    ");
                push_str(&mut s, from.as_str());
                push_str(&mut s, " -> ");
                push_str(&mut s, to.as_str());
                push_str(&mut s, "\n");
            },
            Correspondence::RenamedEdited { from, to, similarity } => {
                push_str(&mut s, "renamed+   ");
                push_str(&mut s, from.as_str());
                push_str(&mut s, " -> ");
                push_str(&mut s, to.as_str());
                push_str(&mut s, " (");
                push_decimal(&mut s, *similarity as u64);
                push_str(&mut s, "% similar)\n");
            },
            Correspondence::Modified { name } => {
                push_str(&mut s, "modified   ");
                push_str(&mut s, name.as_str());
                push_str(&mut s, "\n");
            },
            Correspondence::Added { name } => {
                push_str(&mut s, "added      ");
                push_str(&mut s, name.as_str());
                push_str(&mut s, "\n");
            },
            Correspondence::Removed { name } => {
                push_str(&mut s, "removed    ");
                push_str(&mut s, name.as_str());
                push_str(&mut s, "\n");
            },
        }
        proof {
            let v = corr_views(cs@.take(i + 1));
            assert(v.drop_last() =~= corr_views(cs@.take(i as int)));
            assert(v.last() == cs@[i as int]@);
            assert(s@ =~= before + render_line(cs@[i as int]@));
        }
        i += 1;
    }
    proof {
        assert(cs@.take(cs@.len() as int) =~= cs@);
    }
    s
}

} // verus!