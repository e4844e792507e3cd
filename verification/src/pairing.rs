//! Packed pairs of 64-bit identifiers.
//!
//! The adjacency indices and the relation edge sets all store pairs of
//! 64-bit identifiers. A pair is packed into one `u128` word (first
//! component in the high half, second in the low half) so that the hash
//! tables are keyed by a primitive integer, the only kind of key the
//! standard hash-table specifications cover. A packed set is stored as a
//! `HashMap<u128, ()>` rather than a `HashSet<u128>` because a hash map's
//! domain is known to be finite, which the cardinality reasoning below
//! needs.

use vstd::prelude::*;
use vstd::relations::injective_on;
use vstd::set_lib::lemma_map_size;
use vstd::std_specs::iter::IteratorSpec;
use std::collections::HashMap;

verus! {

broadcast use vstd::std_specs::hash::group_hash_axioms;

/// A set of packed pairs, stored as the domain of a hash map.
pub(crate) type PairTable = HashMap<u128, ()>;

/// Pack a pair of 64-bit values into one 128-bit word.
pub(crate) open spec fn pack(a: u64, b: u64) -> u128 {
    ((a as u128) << 64) | (b as u128)
}

/// The first (high) component of a packed pair.
pub(crate) open spec fn hi(c: u128) -> u64 {
    (c >> 64) as u64
}

/// The second (low) component of a packed pair.
pub(crate) open spec fn lo(c: u128) -> u64 {
    c as u64
}

/// The set of pairs a packed set stands for.
pub(crate) open spec fn pairs_of(s: Set<u128>) -> Set<(u64, u64)> {
    Set::new(|p: (u64, u64)| s.contains(pack(p.0, p.1)))
}

/// Unpacking inverts packing.
pub(crate) proof fn lemma_unpack_pack(a: u64, b: u64)
    ensures
        hi(pack(a, b)) == a,
        lo(pack(a, b)) == b,
{
    assert(((((a as u128) << 64) | (b as u128)) >> 64) as u64 == a) by (bit_vector);
    assert(((((a as u128) << 64) | (b as u128)) as u64) == b) by (bit_vector);
}

/// Packing inverts unpacking, so packing is a bijection.
pub(crate) proof fn lemma_pack_unpack(c: u128)
    ensures
        pack(hi(c), lo(c)) == c,
{
    assert(((((c >> 64) as u64) as u128) << 64) | ((c as u64) as u128) == c) by (bit_vector);
}

/// A packed set stands for exactly as many pairs as it has words.
pub(crate) proof fn lemma_pairs_of_len(s: Set<u128>)
    requires
        s.finite(),
    ensures
        pairs_of(s).finite(),
        pairs_of(s).len() == s.len(),
{
    let f = |c: u128| (hi(c), lo(c));
    assert forall|p: (u64, u64)| #[trigger] pairs_of(s).contains(p) implies s.map(f).contains(
        p,
    ) by {
        lemma_unpack_pack(p.0, p.1);
        assert(s.contains(pack(p.0, p.1)) && f(pack(p.0, p.1)) == p);
    }
    assert forall|p: (u64, u64)| #[trigger] s.map(f).contains(p) implies pairs_of(s).contains(
        p,
    ) by {
        let c = choose|c: u128| s.contains(c) && p == f(c);
        lemma_pack_unpack(c);
    }
    assert(s.map(f) =~= pairs_of(s));
    assert(injective_on(f, s)) by {
        assert forall|c1: u128, c2: u128|
            s.contains(c1) && s.contains(c2) && #[trigger] f(c1) == #[trigger] f(c2) implies c1
            == c2 by {
            lemma_pack_unpack(c1);
            lemma_pack_unpack(c2);
            assert(pack(hi(c1), lo(c1)) == pack(hi(c2), lo(c2)));
        }
    }
    lemma_map_size(s, pairs_of(s), f);
}

/// Inserting one packed pair inserts exactly that pair.
pub(crate) proof fn lemma_pairs_of_insert(s: Set<u128>, a: u64, b: u64)
    ensures
        pairs_of(s.insert(pack(a, b))) == pairs_of(s).insert((a, b)),
{
    assert forall|p: (u64, u64)| #![all_triggers] pairs_of(s.insert(pack(a, b))).contains(p)
        <==> pairs_of(s).insert((a, b)).contains(p) by {
        lemma_unpack_pack(a, b);
        lemma_unpack_pack(p.0, p.1);
    }
    assert(pairs_of(s.insert(pack(a, b))) =~= pairs_of(s).insert((a, b)));
}

/// Removing one packed pair removes exactly that pair.
pub(crate) proof fn lemma_pairs_of_remove(s: Set<u128>, a: u64, b: u64)
    ensures
        pairs_of(s.remove(pack(a, b))) == pairs_of(s).remove((a, b)),
{
    assert forall|p: (u64, u64)| #![all_triggers] pairs_of(s.remove(pack(a, b))).contains(p)
        <==> pairs_of(s).remove((a, b)).contains(p) by {
        lemma_unpack_pack(a, b);
        lemma_unpack_pack(p.0, p.1);
    }
    assert(pairs_of(s.remove(pack(a, b))) =~= pairs_of(s).remove((a, b)));
}

/// An empty packed set stands for no pairs.
pub(crate) proof fn lemma_pairs_of_empty()
    ensures
        pairs_of(Set::<u128>::empty()) == Set::<(u64, u64)>::empty(),
{
    assert(pairs_of(Set::<u128>::empty()) =~= Set::<(u64, u64)>::empty());
}

/// Pack a pair of 64-bit values into one 128-bit word.
pub(crate) fn pack_pair(a: u64, b: u64) -> (c: u128)
    ensures
        c == pack(a, b),
{
    ((a as u128) << 64) | (b as u128)
}

/// The first (high) component of a packed pair.
pub(crate) fn hi_of(c: u128) -> (a: u64)
    ensures
        a == hi(c),
{
    (c >> 64) as u64
}

/// The second (low) component of a packed pair.
pub(crate) fn lo_of(c: u128) -> (b: u64)
    ensures
        b == lo(c),
{
    c as u64
}

/// A fresh, empty packed set.
pub(crate) fn pairset_new() -> (s: PairTable)
    ensures
        s@.dom() == Set::<u128>::empty(),
{
    let s: PairTable = HashMap::new();
    proof {
        assert(s@.dom() =~= Set::<u128>::empty());
    }
    s
}

/// Insert the pair `(a, b)`; report whether it was newly added.
pub(crate) fn pairset_insert(s: &mut PairTable, a: u64, b: u64) -> (newly: bool)
    ensures
        final(s)@.dom() == old(s)@.dom().insert(pack(a, b)),
        newly == !old(s)@.dom().contains(pack(a, b)),
{
    let c = pack_pair(a, b);
    let prev = s.insert(c, ());
    proof {
        assert(final(s)@.dom() =~= old(s)@.dom().insert(pack(a, b)));
    }
    prev.is_none()
}

/// Remove the pair `(a, b)`; report whether it was present.
pub(crate) fn pairset_remove(s: &mut PairTable, a: u64, b: u64) -> (was: bool)
    ensures
        final(s)@.dom() == old(s)@.dom().remove(pack(a, b)),
        was == old(s)@.dom().contains(pack(a, b)),
{
    let c = pack_pair(a, b);
    let prev = s.remove(&c);
    proof {
        assert(final(s)@.dom() =~= old(s)@.dom().remove(pack(a, b)));
    }
    prev.is_some()
}

/// Does the set hold the pair `(a, b)`?
pub(crate) fn pairset_contains(s: &PairTable, a: u64, b: u64) -> (r: bool)
    ensures
        r == s@.dom().contains(pack(a, b)),
{
    let c = pack_pair(a, b);
    s.contains_key(&c)
}

/// How many pairs the set holds.
pub(crate) fn pairset_len(s: &PairTable) -> (r: usize)
    ensures
        r == s@.dom().len(),
{
    s.len()
}

/// All packed pairs in the set, in no particular order and without
/// duplicates.
pub(crate) fn pairset_elems(s: &PairTable) -> (v: Vec<u128>)
    ensures
        v@.no_duplicates(),
        v@.to_set() == s@.dom(),
        v@.len() == s@.dom().len(),
{
    let mut v: Vec<u128> = Vec::new();
    proof {
        let keys0 = vstd::std_specs::hash::spec_keys_iter(s);
        keys0.remaining().unref().lemma_no_dup_set_cardinality();
    }
    for k in it: s.keys()
        invariant
            v@.len() == it.index(),
            v@.no_duplicates(),
            forall|j: int| 0 <= j < v@.len() ==> v@[j] == it.seq().unref()[j],
            forall|j: int| 0 <= j < v@.len() ==> s@.dom().contains(#[trigger] v@[j]),
            it.seq().unref().to_set() == s@.dom(),
            it.seq().unref().no_duplicates(),
            it.seq().len() == s@.dom().len(),
    {
        proof {
            assert(it.seq().unref()[it.index()] == *k);
            assert(it.seq().unref().contains(*k));
        }
        v.push(*k);
    }
    proof {
        v@.unique_seq_to_set();
        assert(v@.to_set().subset_of(s@.dom()));
        vstd::set_lib::lemma_subset_equality(v@.to_set(), s@.dom());
        assert(v@.to_set() =~= s@.dom());
    }
    v
}

} // verus!
