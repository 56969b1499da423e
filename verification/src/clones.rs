//! Structural clone detection.
//!
//! Definitions with equal shape hashes have identical bodies under the
//! canonical form: they differ at most by their declared names. Over a set of
//! inspected files, [`find_clones`] groups definitions by shape hash and
//! reports every group with two or more members: exact equivalence classes,
//! with no threshold and no approximation.

use vstd::prelude::*;
use vstd::string::StringExecFns;
use crate::printer::Def;
use crate::text::{lemma_bytes_lt_irrefl, lemma_bytes_lt_trans, lemma_name_lt_total, name_lt, str_eq, str_lt};
use vstd::utf8::encode_utf8;

verus! {

/// A group of structurally identical definitions found across the scanned
/// files: all share one shape hash.
#[derive(Debug, Clone, PartialEq, Eq)]
pub struct CloneGroup {
    /// The shared shape hash that identifies this equivalence class.
    pub shape_hash: String,
    /// The kind of the group's first occurrence (`fn`, `navigation`, …).
    pub kind: &'static str,
    /// All occurrences, in file-then-definition order.
    pub occurrences: Vec<Occurrence>,
}

/// One occurrence of a cloned definition.
#[derive(Debug, Clone, PartialEq, Eq)]
pub struct Occurrence {
    /// The file path the definition was found in.
    pub file: String,
    /// The declared name (accessible name for HTML, identifier for Rust).
    pub name: String,
}

/// The occurrences as (file, name) pairs.
pub open spec fn occ_views(os: Seq<Occurrence>) -> Seq<(Seq<char>, Seq<char>)> {
    os.map_values(|o: Occurrence| (o.file@, o.name@))
}

/// The definitions of one file, each with the file's path, first `j` only.
pub open spec fn file_entries(f: (&str, &[Def]), j: int) -> Seq<(Seq<char>, Def)> {
    Seq::new(j as nat, |k: int| (f.0@, f.1@[k]))
}

/// The definitions of the first `i` files, in file-then-definition order.
pub open spec fn flatten(fd: Seq<(&str, &[Def])>, i: int) -> Seq<(Seq<char>, Def)>
    decreases i,
{
    if i <= 0 || i > fd.len() {
        Seq::empty()
    } else {
        flatten(fd, i - 1) + file_entries(fd[i - 1], fd[i - 1].1@.len() as int)
    }
}

/// The (file, name) of every entry with shape hash `h`, in order.
pub open spec fn occurrences(es: Seq<(Seq<char>, Def)>, h: Seq<char>) -> Seq<(Seq<char>, Seq<char>)>
    decreases es.len(),
{
    if es.len() == 0 {
        Seq::empty()
    } else {
        let rest = occurrences(es.drop_last(), h);
        if es.last().1.shape_hash@ == h {
            rest.push((es.last().0, es.last().1.name@))
        } else {
            rest
        }
    }
}

/// The kind of the first entry with shape hash `h`.
pub open spec fn first_kind(es: Seq<(Seq<char>, Def)>, h: Seq<char>) -> &'static str
    decreases es.len(),
{
    if es.len() == 0 {
        arbitrary()
    } else if occurrences(es.drop_last(), h).len() > 0 {
        first_kind(es.drop_last(), h)
    } else {
        es.last().1.kind
    }
}

/// What a group records of the entries `es` for shape hash `h`.
pub open spec fn group_of(g: CloneGroup, es: Seq<(Seq<char>, Def)>) -> bool {
    &&& occ_views(g.occurrences@) == occurrences(es, g.shape_hash@)
    &&& g.kind == first_kind(es, g.shape_hash@)
}

/// Whether the groups are in strictly increasing shape-hash order.
pub open spec fn groups_sorted(gs: Seq<CloneGroup>) -> bool {
    forall|i: int, j: int|
        0 <= i < j < gs.len() ==> name_lt(#[trigger] gs[i].shape_hash@, #[trigger] gs[j].shape_hash@)
}

/// The clone groups of the entries `es`: in increasing shape-hash order, one
/// for each shape hash with at least two occurrences, each with all of them.
pub open spec fn clone_groups(gs: Seq<CloneGroup>, es: Seq<(Seq<char>, Def)>) -> bool {
    &&& groups_sorted(gs)
    &&& forall|i: int| 0 <= i < gs.len() ==> group_of(#[trigger] gs[i], es) && gs[i].occurrences@.len() >= 2
    &&& forall|h: Seq<char>|
        #[trigger] occurrences(es, h).len() >= 2 ==> exists|i: int| 0 <= i < gs.len() && (#[trigger] gs[i]).shape_hash@ == h
}

/// The index over a prefix of the entries: every shape hash seen has exactly
/// one group, in increasing order, with all of its occurrences so far.
spec fn index_of(gs: Seq<CloneGroup>, es: Seq<(Seq<char>, Def)>) -> bool {
    &&& groups_sorted(gs)
    &&& forall|i: int| 0 <= i < gs.len() ==> group_of(#[trigger] gs[i], es) && gs[i].occurrences@.len() >= 1
    &&& forall|h: Seq<char>|
        #[trigger] occurrences(es, h).len() >= 1 ==> exists|i: int| 0 <= i < gs.len() && (#[trigger] gs[i]).shape_hash@ == h
}

proof fn lemma_occurrences_push(es: Seq<(Seq<char>, Def)>, e: (Seq<char>, Def), h: Seq<char>)
    ensures
        occurrences(es.push(e), h) == if e.1.shape_hash@ == h {
            occurrences(es, h).push((e.0, e.1.name@))
        } else {
            occurrences(es, h)
        },
        occurrences(es, h).len() > 0 ==> first_kind(es.push(e), h) == first_kind(es, h),
        occurrences(es, h).len() == 0 ==> first_kind(es.push(e), h) == e.1.kind,
{
    assert(es.push(e).drop_last() =~= es);
}

proof fn lemma_name_lt_asym(a: Seq<char>, b: Seq<char>)
    requires
        name_lt(a, b),
    ensures
        !name_lt(b, a),
        a != b,
{
    if name_lt(b, a) {
        lemma_bytes_lt_trans(encode_utf8(a), encode_utf8(b), encode_utf8(a));
    }
    lemma_bytes_lt_irrefl(encode_utf8(a));
}

/// Adds one definition of `file` to the index.
fn add_to_index(index: &mut Vec<CloneGroup>, file: &str, def: &Def, es: Ghost<Seq<(Seq<char>, Def)>>)
    requires
        index_of(old(index)@, es@),
    ensures
        index_of(final(index)@, es@.push((file@, *def))),
{
    let ghost es2 = es@.push((file@, *def));
    let ghost h = def.shape_hash@;
    let ghost gs = index@;
    proof {
        assert forall|k: Seq<char>| true implies #[trigger] occurrences(es2, k) == if h == k {
            occurrences(es@, k).push((file@, def.name@))
        } else {
            occurrences(es@, k)
        } by {
            lemma_occurrences_push(es@, (file@, *def), k);
        }
    }
    let mut p: usize = 0;
    while p < index.len() && str_lt(index[p].shape_hash.as_str(), def.shape_hash.as_str())
        invariant
            p <= index@.len(),
            index@ == gs,
            h == def.shape_hash@,
            forall|k: int| 0 <= k < p ==> name_lt(#[trigger] gs[k].shape_hash@, h),
        decreases index.len() - p,
    {
        p += 1;
    }
    let occ = Occurrence { file: String::from_str(file), name: def.name.clone() };
    if p < index.len() && str_eq(index[p].shape_hash.as_str(), def.shape_hash.as_str()) {
        let mut g = index.remove(p);
        let ghost g0 = g;
        proof {
            lemma_occurrences_push(es@, (file@, *def), h);
        }
        g.occurrences.push(occ);
        proof {
            assert(occ_views(g.occurrences@) =~= occ_views(g0.occurrences@).push((file@, def.name@)));
        }
        index.insert(p, g);
        proof {
            assert forall|i: int| 0 <= i < index@.len() implies group_of(#[trigger] index@[i], es2) && index@[i].occurrences@.len() >= 1 by {
                if i != p {
                    let k = index@[i].shape_hash@;
                    assert(index@[i] == gs[i]);
                    if k == h {
                        if i < p {
                            assert(name_lt(gs[i].shape_hash@, gs[p as int].shape_hash@));
                        } else {
                            assert(name_lt(gs[p as int].shape_hash@, gs[i].shape_hash@));
                        }
                        lemma_bytes_lt_irrefl(encode_utf8(h));
                    }
                    lemma_occurrences_push(es@, (file@, *def), k);
                }
            }
            assert forall|k: Seq<char>| #[trigger] occurrences(es2, k).len() >= 1 implies exists|i: int|
                0 <= i < index@.len() && (#[trigger] index@[i]).shape_hash@ == k by {
                let i = choose|i: int| 0 <= i < gs.len() && (#[trigger] gs[i]).shape_hash@ == k;
                assert(index@[i].shape_hash@ == gs[i].shape_hash@);
            }
            assert(groups_sorted(index@)) by {
                assert forall|a: int, b: int| 0 <= a < b < index@.len() implies name_lt(
                    #[trigger] index@[a].shape_hash@,
                    #[trigger] index@[b].shape_hash@,
                ) by {
                    assert(index@[a].shape_hash@ == gs[a].shape_hash@);
                    assert(index@[b].shape_hash@ == gs[b].shape_hash@);
                }
            }
        }
    } else {
        let mut occs: Vec<Occurrence> = Vec::new();
        occs.push(occ);
        let g = CloneGroup { shape_hash: def.shape_hash.clone(), kind: def.kind, occurrences: occs };
        proof {
            lemma_occurrences_push(es@, (file@, *def), h);
            if occurrences(es@, h).len() >= 1 {
                let i = choose|i: int| 0 <= i < gs.len() && (#[trigger] gs[i]).shape_hash@ == h;
                if i < p {
                    assert(name_lt(gs[i].shape_hash@, h));
                    lemma_bytes_lt_irrefl(encode_utf8(h));
                } else if i > p {
                    assert(name_lt(gs[p as int].shape_hash@, gs[i].shape_hash@));
                    lemma_name_lt_total(gs[p as int].shape_hash@, h);
                    lemma_name_lt_asym(gs[p as int].shape_hash@, h);
                }
            }
            assert(occurrences(es@, h).len() == 0);
            assert(occ_views(g.occurrences@) =~= seq![(file@, def.name@)]);
            assert(occurrences(es2, h) =~= seq![(file@, def.name@)]);
            if p < gs.len() {
                lemma_name_lt_total(h, gs[p as int].shape_hash@);
                if name_lt(gs[p as int].shape_hash@, h) {
                    lemma_name_lt_asym(gs[p as int].shape_hash@, h);
                }
            }
        }
        index.insert(p, g);
        proof {
            assert forall|i: int| 0 <= i < index@.len() implies group_of(#[trigger] index@[i], es2) && index@[i].occurrences@.len() >= 1 by {
                if i != p {
                    let j = if i < p { i } else { i - 1 };
                    assert(index@[i] == gs[j]);
                    let k = gs[j].shape_hash@;
                    if k == h {
                        assert(occurrences(es@, h).len() >= 1);
                    }
                    lemma_occurrences_push(es@, (file@, *def), k);
                }
            }
            assert forall|k: Seq<char>| #[trigger] occurrences(es2, k).len() >= 1 implies exists|i: int|
                0 <= i < index@.len() && (#[trigger] index@[i]).shape_hash@ == k by {
                if k == h {
                    assert(index@[p as int].shape_hash@ == h);
                } else {
                    let i = choose|i: int| 0 <= i < gs.len() && (#[trigger] gs[i]).shape_hash@ == k;
                    let j = if i < p { i } else { i + 1 };
                    assert(index@[j] == gs[i]);
                }
            }
            assert(groups_sorted(index@)) by {
                assert forall|a: int, b: int| 0 <= a < b < index@.len() implies name_lt(
                    #[trigger] index@[a].shape_hash@,
                    #[trigger] index@[b].shape_hash@,
                ) by {
                    if a < p && b < p {
                        assert(index@[a] == gs[a] && index@[b] == gs[b]);
                    } else if a < p && b == p {
                        assert(index@[a] == gs[a]);
                    } else if a < p {
                        assert(index@[a] == gs[a] && index@[b] == gs[b - 1]);
                    } else if a == p {
                        assert(index@[b] == gs[b - 1]);
                        if b - 1 > p {
                            assert(name_lt(gs[p as int].shape_hash@, gs[b - 1].shape_hash@));
                            lemma_bytes_lt_trans(encode_utf8(h), encode_utf8(gs[p as int].shape_hash@), encode_utf8(gs[b - 1].shape_hash@));
                        }
                    } else {
                        assert(index@[a] == gs[a - 1] && index@[b] == gs[b - 1]);
                    }
                }
            }
        }
    }
}

/// Groups the definitions of the given files by shape hash and returns the
/// groups with two or more occurrences, in increasing shape-hash order
/// ([`clone_groups`] of the files' definitions in file-then-definition order).
pub fn find_clones<'a>(file_defs: &[(&'a str, &'a [Def])]) -> (r: Vec<CloneGroup>)
    ensures
        clone_groups(r@, flatten(file_defs@, file_defs@.len() as int)),
{
    let mut index: Vec<CloneGroup> = Vec::new();
    let ghost mut es: Seq<(Seq<char>, Def)> = Seq::empty();
    let mut i: usize = 0;
    while i < file_defs.len()
        invariant
            i <= file_defs@.len(),
            es == flatten(file_defs@, i as int),
            index_of(index@, es),
        decreases file_defs.len() - i,
    {
        let (file, defs) = file_defs[i];
        let ghost base = es;
        let mut j: usize = 0;
        proof {
            assert(base + file_entries(file_defs@[i as int], 0) =~= base);
        }
        while j < defs.len()
            invariant
                i < file_defs@.len(),
                j <= defs@.len(),
                (file, defs) == file_defs@[i as int],
                base == flatten(file_defs@, i as int),
                es == base + file_entries(file_defs@[i as int], j as int),
                index_of(index@, es),
            decreases defs.len() - j,
        {
            add_to_index(&mut index, file, &defs[j], Ghost(es));
            proof {
                assert(es.push((file@, defs@[j as int])) =~= base + file_entries(file_defs@[i as int], j + 1));
                es = es.push((file@, defs@[j as int]));
            }
            j += 1;
        }
        i += 1;
    }
    let ghost all = es;
    let ghost gs = index@;
    let mut out: Vec<CloneGroup> = Vec::new();
    let mut k: usize = 0;
    let n = index.len();
    while k < n
        invariant
            k <= n == gs.len(),
            index@ == gs.subrange(k as int, n as int),
            index_of(gs, all),
            groups_sorted(out@),
            forall|a: int| 0 <= a < out@.len() ==> group_of(#[trigger] out@[a], all) && out@[a].occurrences@.len() >= 2,
            forall|a: int| 0 <= a < out@.len() ==> exists|b: int| 0 <= b < k && (#[trigger] out@[a]).shape_hash@ == gs[b].shape_hash@,
            forall|b: int| 0 <= b < k && #[trigger] gs[b].occurrences@.len() >= 2 ==> exists|a: int| 0 <= a < out@.len() && (#[trigger] out@[a]).shape_hash@ == gs[b].shape_hash@,
        decreases n - k,
    {
        let g = index.remove(0);
        proof {
            assert(g == gs[k as int]);
            assert(index@ =~= gs.subrange(k + 1, n as int));
        }
        if g.occurrences.len() >= 2 {
            let ghost before = out@;
            out.push(g);
            proof {
                assert forall|a: int, b: int| 0 <= a < b < out@.len() implies name_lt(
                    #[trigger] out@[a].shape_hash@,
                    #[trigger] out@[b].shape_hash@,
                ) by {
                    if b == before.len() {
                        let c = choose|c: int| 0 <= c < k && (#[trigger] before[a]).shape_hash@ == gs[c].shape_hash@;
                        assert(name_lt(gs[c].shape_hash@, gs[k as int].shape_hash@));
                    } else {
                        assert(out@[a] == before[a] && out@[b] == before[b]);
                    }
                }
                assert forall|a: int| 0 <= a < out@.len() implies exists|b: int| 0 <= b < k + 1 && (#[trigger] out@[a]).shape_hash@ == gs[b].shape_hash@ by {
                    if a < before.len() {
                        assert(out@[a] == before[a]);
                        let c = choose|c: int| 0 <= c < k && (#[trigger] before[a]).shape_hash@ == gs[c].shape_hash@;
                    } else {
                        assert(out@[a].shape_hash@ == gs[k as int].shape_hash@);
                    }
                }
                assert forall|b: int| 0 <= b < k + 1 && #[trigger] gs[b].occurrences@.len() >= 2 implies exists|a: int| 0 <= a < out@.len() && (#[trigger] out@[a]).shape_hash@ == gs[b].shape_hash@ by {
                    if b < k {
                        let a = choose|a: int| 0 <= a < before.len() && (#[trigger] before[a]).shape_hash@ == gs[b].shape_hash@;
                        assert(out@[a] == before[a]);
                    } else {
                        assert(out@[before.len() as int].shape_hash@ == gs[b].shape_hash@);
                    }
                }
            }
        }
        k += 1;
    }
    proof {
        assert forall|h: Seq<char>| #[trigger] occurrences(all, h).len() >= 2 implies exists|a: int|
            0 <= a < out@.len() && (#[trigger] out@[a]).shape_hash@ == h by {
            let b = choose|b: int| 0 <= b < gs.len() && (#[trigger] gs[b]).shape_hash@ == h;
            assert(group_of(gs[b], all));
            assert(gs[b].occurrences@.len() == occ_views(gs[b].occurrences@).len());
        }
    }
    out
}

} // verus!
