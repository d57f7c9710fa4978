//! Snapshots of wanted blocks as hash sets.

use crate::ident::Cid;
use ahash::{AHashSet, RandomState};
use vstd::prelude::*;

verus! {

#[verifier::external_type_specification]
#[verifier::external_body]
#[verifier::reject_recursive_types(T)]
#[verifier::reject_recursive_types(S)]
pub struct ExAHashSet<T, S>(AHashSet<T, S>);

#[verifier::external_type_specification]
#[verifier::external_body]
pub struct ExRandomState(RandomState);

/// The identifiers that a hash set holds.
pub uninterp spec fn cid_set_contents(s: AHashSet<Cid>) -> Set<Cid>;

/// `ahash::AHashSet::new`: a new set holds nothing.
#[verifier::external_body]
pub(crate) fn cid_set_new() -> (s: AHashSet<Cid>)
    ensures
        cid_set_contents(s) == Set::<Cid>::empty(),
{
    AHashSet::new()
}

/// `std::collections::HashSet::insert`, reached through `AHashSet`'s
/// `DerefMut`: afterwards the set holds the identifier besides what it held,
/// and the result says whether the identifier was new. Two identifiers are
/// the same for the set exactly when all their fields are equal, since `Cid`
/// derives `Hash` and `Eq` over integer fields.
#[verifier::external_body]
pub(crate) fn cid_set_insert(s: &mut AHashSet<Cid>, cid: Cid) -> (fresh: bool)
    ensures
        cid_set_contents(*final(s)) == cid_set_contents(*old(s)).insert(cid),
        fresh == !cid_set_contents(*old(s)).contains(cid),
{
    s.insert(cid)
}

/// `AHashSet`'s `IntoIterator`, collected: every identifier of the set comes
/// out once. The order is whatever the hasher gives and is not stated.
#[verifier::external_body]
pub(crate) fn cid_set_into_vec(s: AHashSet<Cid>) -> (v: Vec<Cid>)
    ensures
        v@.no_duplicates(),
        v@.to_set() == cid_set_contents(s),
{
    s.into_iter().collect()
}

/// The hash set of the identifiers in `cids`.
pub fn cid_set_from(cids: &Vec<Cid>) -> (s: AHashSet<Cid>)
    ensures
        cid_set_contents(s) == cids@.to_set(),
{
    let mut s = cid_set_new();
    let mut i: usize = 0;
    while i < cids.len()
        invariant
            i <= cids@.len(),
            cid_set_contents(s) == cids@.subrange(0, i as int).to_set(),
        decreases cids@.len() - i,
    {
        cid_set_insert(&mut s, cids[i]);
        proof {
            let a = cids@.subrange(0, i as int);
            let b = cids@.subrange(0, i + 1);
            assert(b == a.push(cids@[i as int]));
            assert forall|c: Cid| b.to_set().contains(c) <==> a.to_set().insert(
                cids@[i as int],
            ).contains(c) by {
                if b.contains(c) {
                    let j = choose|j: int| 0 <= j < b.len() && b[j] == c;
                    if j < a.len() {
                        assert(a[j] == c);
                    }
                }
                if a.contains(c) {
                    let j = choose|j: int| 0 <= j < a.len() && a[j] == c;
                    assert(b[j] == c);
                }
                assert(b[i as int] == cids@[i as int]);
            }
            assert(b.to_set() =~= a.to_set().insert(cids@[i as int]));
        }
        i += 1;
    }
    proof {
        assert(cids@.subrange(0, cids@.len() as int) == cids@);
        assert(cids@.subrange(0, 0).to_set() =~= Set::<Cid>::empty());
    }
    s
}

} // verus!
