//! The per-connection priority vector and its merge rule.
//!
//! A priority vector is a byte array index-aligned to the catalog; slot
//! values are weights (0 = paused, 1 = normal, 4 = high, 10 = critical).
//! Each round, the freshly read desired weights are merged into the
//! connection's vector: a slot only ever moves from 0 to a nonzero value,
//! and keeps the first nonzero value it was ever given (monotonic
//! adoption). The merge reports how many slots were activated.

use vstd::prelude::*;

verus! {

/// The vector after merging `other` into `cur`: a zero slot adopts the
/// incoming value, a nonzero slot is left as it was.
pub open spec fn merged(cur: Seq<u8>, other: Seq<u8>) -> Seq<u8> {
    Seq::new(cur.len(), |i: int| if cur[i] == 0 { other[i] } else { cur[i] })
}

/// Number of slots among the first `n` that a merge activates: slots that
/// are zero in `cur` and nonzero in `other`.
pub open spec fn activations_upto(cur: Seq<u8>, other: Seq<u8>, n: int) -> nat
    decreases n,
{
    if n <= 0 {
        0
    } else {
        activations_upto(cur, other, n - 1) + (if cur[n - 1] == 0 && other[n - 1] != 0 {
            1nat
        } else {
            0nat
        })
    }
}

/// Number of slots that merging `other` into `cur` activates.
pub open spec fn activations(cur: Seq<u8>, other: Seq<u8>) -> nat {
    activations_upto(cur, other, cur.len() as int)
}

/// A fresh priority vector: every slot paused.
pub fn new(len: usize) -> (r: Vec<u8>)
    ensures
        r@ == Seq::new(len as nat, |i: int| 0u8),
{
    let mut r: Vec<u8> = Vec::new();
    while r.len() < len
        invariant
            r@ == Seq::new(r.len() as nat, |i: int| 0u8),
            r.len() <= len,
        decreases len - r.len(),
    {
        r.push(0);
        proof {
            assert(r@ =~= Seq::new(r.len() as nat, |i: int| 0u8));
        }
    }
    proof {
        assert(r@ =~= Seq::new(len as nat, |i: int| 0u8));
    }
    r
}

/// Merge the desired weights `other` into `current`, adopting a value only
/// for slots still at zero, and return the number of slots activated.
pub fn merge(current: &mut Vec<u8>, other: &[u8]) -> (modified: usize)
    requires
        old(current)@.len() == other@.len(),
    ensures
        final(current)@ == merged(old(current)@, other@),
        modified == activations(old(current)@, other@),
{
    let len = current.len();
    let mut modified: usize = 0;
    let mut i: usize = 0;
    while i < len
        invariant
            len == current@.len() == old(current)@.len() == other@.len(),
            i <= len,
            modified == activations_upto(old(current)@, other@, i as int),
            modified <= i,
            forall|j: int|
                0 <= j < i ==> current@[j] == merged(old(current)@, other@)[j],
            forall|j: int| i <= j < len ==> current@[j] == old(current)@[j],
        decreases len - i,
    {
        if current[i] == 0 {
            if other[i] != 0 {
                modified = modified + 1;
                current.set(i, other[i]);
            }
        }
        i = i + 1;
    }
    proof {
        assert(current@ =~= merged(old(current)@, other@));
    }
    modified
}

/// A slot that already holds a nonzero weight is never changed by a merge,
/// whatever the incoming vector says.
pub proof fn lemma_nonzero_slot_kept(cur: Seq<u8>, other: Seq<u8>, j: int)
    requires
        0 <= j < cur.len(),
        cur[j] != 0,
    ensures
        merged(cur, other)[j] == cur[j],
{
}

proof fn lemma_activations_none(cur: Seq<u8>, other: Seq<u8>, n: int)
    requires
        forall|j: int| 0 <= j < n ==> !(cur[j] == 0 && other[j] != 0),
    ensures
        activations_upto(cur, other, n) == 0,
    decreases n,
{
    if n > 0 {
        lemma_activations_none(cur, other, n - 1);
    }
}

proof fn lemma_activations_one(cur: Seq<u8>, other: Seq<u8>, i: int, n: int)
    requires
        0 <= i < n,
        cur[i] == 0,
        other[i] != 0,
        forall|j: int| 0 <= j < n && j != i ==> !(cur[j] == 0 && other[j] != 0),
    ensures
        activations_upto(cur, other, n) == 1,
    decreases n,
{
    if i == n - 1 {
        lemma_activations_none(cur, other, n - 1);
    } else {
        lemma_activations_one(cur, other, i, n - 1);
    }
}

/// Monotonic adoption. Merging a vector that is nonzero only at a paused
/// slot `i` adopts that weight there and reports exactly one activation;
/// merging a second vector that is nonzero only at the same slot — with
/// whatever weight — leaves the slot at the first weight and reports no
/// activation. The first weight ever observed for a file is permanent for
/// the connection's life.
pub proof fn lemma_monotonic_adoption(cur: Seq<u8>, first: Seq<u8>, second: Seq<u8>, i: int)
    requires
        cur.len() == first.len(),
        cur.len() == second.len(),
        0 <= i < cur.len(),
        cur[i] == 0,
        first[i] != 0,
        second[i] != 0,
        forall|j: int| 0 <= j < cur.len() && j != i ==> first[j] == 0,
        forall|j: int| 0 <= j < cur.len() && j != i ==> second[j] == 0,
    ensures
        merged(cur, first)[i] == first[i],
        activations(cur, first) == 1,
        merged(merged(cur, first), second)[i] == first[i],
        activations(merged(cur, first), second) == 0,
{
    lemma_activations_one(cur, first, i, cur.len() as int);
    lemma_activations_none(merged(cur, first), second, cur.len() as int);
}

} // verus!
