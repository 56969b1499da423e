//! Content hashing: 64-bit FNV-1a, Merkle subtree hashes, and sorting of hash
//! multisets.

use vstd::prelude::*;
use vstd::bytes::{spec_u64_to_le_bytes, u64_to_le_bytes};
use crate::cst::{text_bytes, Cst};
use crate::text::{append_bytes, lemma_seq_assoc, lit, lit_bytes};

verus! {

broadcast use {lemma_seq_assoc, vstd::seq_lib::group_to_multiset_ensures};

/// The FNV-1a offset basis.
pub const FNV_OFFSET: u64 = 0xcbf2_9ce4_8422_2325;

/// The FNV-1a prime.
pub const FNV_PRIME: u64 = 0x0000_0100_0000_01b3;

/// 64-bit FNV-1a of a byte sequence: starting from the offset basis, each byte
/// is xored in and the state multiplied by the prime, wrapping.
pub open spec fn fnv1a(bytes: Seq<u8>) -> u64
    decreases bytes.len(),
{
    if bytes.len() == 0 {
        FNV_OFFSET
    } else {
        vstd::wrapping::u64_specs::wrapping_mul(
            fnv1a(bytes.drop_last()) ^ (bytes.last() as u64),
            FNV_PRIME,
        )
    }
}

/// Computes [`fnv1a`].
pub fn fnv1a_exec(bytes: &[u8]) -> (h: u64)
    ensures
        h == fnv1a(bytes@),
{
    let mut h: u64 = FNV_OFFSET;
    let mut i: usize = 0;
    while i < bytes.len()
        invariant
            i <= bytes.len(),
            h == fnv1a(bytes@.subrange(0, i as int)),
        decreases bytes.len() - i,
    {
        proof {
            assert(bytes@.subrange(0, i as int + 1).drop_last() =~= bytes@.subrange(0, i as int));
        }
        h = (h ^ (bytes[i] as u64)).wrapping_mul(FNV_PRIME);
        i += 1;
    }
    proof {
        assert(bytes@.subrange(0, bytes@.len() as int) =~= bytes@);
    }
    h
}

/// Whether a sequence of hashes is in ascending order.
pub open spec fn sorted_u64(s: Seq<u64>) -> bool {
    forall|a: int, b: int| 0 <= a < b < s.len() ==> s[a] <= s[b]
}

/// Sorts hashes ascending: the result is the sorted permutation of the input.
pub fn sort_u64(v: &Vec<u64>) -> (r: Vec<u64>)
    ensures
        sorted_u64(r@),
        r@.to_multiset() == v@.to_multiset(),
{
    let mut r: Vec<u64> = Vec::new();
    let mut i: usize = 0;
    while i < v.len()
        invariant
            i <= v.len(),
            sorted_u64(r@),
            r@.to_multiset() == v@.subrange(0, i as int).to_multiset(),
        decreases v.len() - i,
    {
        let x = v[i];
        let mut k: usize = 0;
        while k < r.len() && r[k] <= x
            invariant
                k <= r.len(),
                forall|j: int| 0 <= j < k ==> r@[j] <= x,
            decreases r.len() - k,
        {
            k += 1;
        }
        let ghost old_r = r@;
        r.insert(k, x);
        proof {
            assert(r@ == old_r.insert(k as int, x));
            assert forall|a: int, b: int| 0 <= a < b < r@.len() implies r@[a] <= r@[b] by {
                if a < k && b < k {
                } else if a < k && b == k {
                } else if a < k && b > k {
                    assert(old_r[a] <= old_r[b - 1]);
                } else if a == k {
                    if k < old_r.len() {
                        assert(old_r[k as int] > x);
                        assert(old_r[k as int] <= old_r[b - 1]);
                    }
                } else {
                    assert(old_r[a - 1] <= old_r[b - 1]);
                }
            }
            assert(v@.subrange(0, i as int + 1) =~= v@.subrange(0, i as int).push(x));
            assert(v@.subrange(0, i as int).push(x) =~= v@.subrange(0, i as int).insert(
                i as int,
                x,
            ));
        }
        i += 1;
    }
    proof {
        assert(v@.subrange(0, v@.len() as int) =~= v@);
    }
    r
}

/// The bytes that a node's Merkle hash is computed over: its kind, a zero
/// byte, then either its source text (a leaf) or the little-endian hashes of
/// its children.
pub open spec fn preimage(src: Seq<u8>, n: Cst) -> Seq<u8>
    decreases n, 1nat, 0nat,
{
    lit(n.kind) + seq![0u8] + if n.children@.len() == 0 {
        match text_bytes(src, n) {
            Some(t) => t,
            None => Seq::empty(),
        }
    } else {
        child_hash_bytes(src, n, 0)
    }
}

/// The Merkle hash of a node: FNV-1a of its [`preimage`].
pub open spec fn node_hash(src: Seq<u8>, n: Cst) -> u64
    decreases n, 2nat, 0nat,
{
    fnv1a(preimage(src, n))
}

/// The little-endian hashes of the children of `n` from index `i` on.
pub open spec fn child_hash_bytes(src: Seq<u8>, n: Cst, i: int) -> Seq<u8>
    decreases n, 0nat, n.children@.len() - i,
{
    if i < 0 || i >= n.children@.len() {
        Seq::empty()
    } else {
        spec_u64_to_le_bytes(node_hash(src, n.children@[i])) + child_hash_bytes(src, n, i + 1)
    }
}

/// The hashes of all nodes of the subtree, in post-order.
pub open spec fn postorder(src: Seq<u8>, n: Cst) -> Seq<u64>
    decreases n, 1nat, 0nat,
{
    postorder_children(src, n, 0).push(node_hash(src, n))
}

/// The post-order hashes of the subtrees of the children of `n` from `i` on.
pub open spec fn postorder_children(src: Seq<u8>, n: Cst, i: int) -> Seq<u64>
    decreases n, 0nat, n.children@.len() - i,
{
    if i < 0 || i >= n.children@.len() {
        Seq::empty()
    } else {
        postorder(src, n.children@[i]) + postorder_children(src, n, i + 1)
    }
}

/// Computes the Merkle hash of `n`, appending the hashes of its subtree in
/// post-order to `out`.
pub fn hash_subtree(src: &[u8], n: &Cst, out: &mut Vec<u64>) -> (h: u64)
    ensures
        h == node_hash(src@, *n),
        final(out)@ == old(out)@ + postorder(src@, *n),
    decreases n, 2nat, 0nat,
{
    let mut buf: Vec<u8> = Vec::new();
    append_bytes(&mut buf, lit_bytes(n.kind));
    buf.push(0u8);
    let ghost head = buf@;
    let ghost before = out@;
    proof {
        assert(head == lit(n.kind) + seq![0u8]);
    }
    if n.children.len() == 0 {
        match crate::cst::node_bytes(src, n) {
            Some(t) => append_bytes(&mut buf, t),
            None => {},
        }
        proof {
            assert(postorder_children(src@, *n, 0) =~= Seq::<u64>::empty());
            assert(buf@ =~= preimage(src@, *n));
        }
    } else {
        let mut i: usize = 0;
        while i < n.children.len()
            invariant
                i <= n.children@.len(),
                head == lit(n.kind) + seq![0u8],
                child_hash_bytes(src@, *n, 0) == buf@.subrange(head.len() as int, buf@.len() as int)
                    + child_hash_bytes(src@, *n, i as int),
                buf@.subrange(0, head.len() as int) == head,
                buf@.len() >= head.len(),
                postorder_children(src@, *n, 0) == out@.subrange(before.len() as int, out@.len() as int)
                    + postorder_children(src@, *n, i as int),
                out@.subrange(0, before.len() as int) == before,
                out@.len() >= before.len(),
            decreases n.children.len() - i,
        {
            let ghost b0 = buf@;
            let ghost o0 = out@;
            let ch = hash_subtree(src, &n.children[i], out);
            let le = u64_to_le_bytes(ch);
            append_bytes(&mut buf, le.as_slice());
            proof {
                assert(buf@.subrange(head.len() as int, buf@.len() as int) =~= b0.subrange(
                    head.len() as int,
                    b0.len() as int,
                ) + le@);
                assert(buf@.subrange(0, head.len() as int) =~= b0.subrange(0, head.len() as int));
                assert(out@.subrange(before.len() as int, out@.len() as int) =~= o0.subrange(
                    before.len() as int,
                    o0.len() as int,
                ) + postorder(src@, n.children@[i as int]));
                assert(out@.subrange(0, before.len() as int) =~= o0.subrange(0, before.len() as int));
            }
            i += 1;
        }
        proof {
            assert(buf@ =~= buf@.subrange(0, head.len() as int) + buf@.subrange(
                head.len() as int,
                buf@.len() as int,
            ));
            assert(out@ =~= out@.subrange(0, before.len() as int) + out@.subrange(
                before.len() as int,
                out@.len() as int,
            ));
            assert(child_hash_bytes(src@, *n, n.children@.len() as int) =~= Seq::<u8>::empty());
            assert(postorder_children(src@, *n, n.children@.len() as int) =~= Seq::<u64>::empty());
            assert(buf@ =~= preimage(src@, *n));
        }
    }
    let h = fnv1a_exec(buf.as_slice());
    out.push(h);
    h
}

/// The multiset of Merkle subtree hashes of `n`, sorted ascending.
pub fn subtree_hashes(n: &Cst, src: &[u8]) -> (r: Vec<u64>)
    ensures
        sorted_u64(r@),
        r@.to_multiset() == postorder(src@, *n).to_multiset(),
{
    let mut all: Vec<u64> = Vec::new();
    hash_subtree(src, n, &mut all);
    proof {
        assert(all@ =~= postorder(src@, *n));
    }
    sort_u64(&all)
}

} // verus!
