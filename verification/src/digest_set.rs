//! A set of chunk digests, as accumulated by a walk.
//!
//! A Recording walk collects here the reachable-chunk set for a GC mark
//! phase; a Verifying walk uses it to check each distinct digest exactly
//! once. Inserting a digest already present changes nothing — this is
//! what makes the recorded set a set, however often a tree references
//! the same chunk.

use vstd::prelude::*;

use crate::hashing::bytes_eq;

verus! {

/// A finite set of digests.
pub struct DigestSet {
    items: Vec<Vec<u8>>,
}

impl DigestSet {
    /// The abstract set of digests held.
    pub closed spec fn view(&self) -> Set<Seq<u8>> {
        self.items@.map_values(|v: Vec<u8>| v@).to_set()
    }

    #[verifier::type_invariant]
    spec fn inv(&self) -> bool {
        self.items@.map_values(|v: Vec<u8>| v@).no_duplicates()
    }

    pub fn new() -> (r: DigestSet)
        ensures
            r@ == Set::<Seq<u8>>::empty(),
    {
        let r = DigestSet { items: Vec::new() };
        proof {
            assert(r.items@.map_values(|v: Vec<u8>| v@) =~= Seq::<Seq<u8>>::empty());
            assert(r@ =~= Set::<Seq<u8>>::empty());
        }
        r
    }

    /// Whether `digest` is in the set.
    pub fn contains(&self, digest: &[u8]) -> (r: bool)
        ensures
            r <==> self@.contains(digest@),
    {
        let ghost views = self.items@.map_values(|v: Vec<u8>| v@);
        let mut i: usize = 0;
        while i < self.items.len()
            invariant
                0 <= i <= self.items@.len(),
                views == self.items@.map_values(|v: Vec<u8>| v@),
                forall|j: int| 0 <= j < i ==> views[j] != digest@,
            decreases self.items@.len() - i,
        {
            if bytes_eq(self.items[i].as_slice(), digest) {
                proof {
                    assert(views[i as int] == digest@);
                    assert(views.contains(digest@));
                }
                return true;
            }
            i += 1;
        }
        proof {
            if self@.contains(digest@) {
                let j = choose|j: int| 0 <= j < views.len() && views[j] == digest@;
                assert(false);
            }
        }
        false
    }

    /// Add `digest`; a digest already present is left as it is.
    pub fn insert(&mut self, digest: &[u8])
        ensures
            final(self)@ == old(self)@.insert(digest@),
    {
        proof {
            use_type_invariant(&*self);
        }
        if self.contains(digest) {
            proof {
                assert(old(self)@.insert(digest@) =~= old(self)@);
            }
            return;
        }
        let mut dv: Vec<u8> = Vec::new();
        let mut p: usize = 0;
        while p < digest.len()
            invariant
                0 <= p <= digest@.len(),
                dv@ == digest@.take(p as int),
            decreases digest@.len() - p,
        {
            dv.push(digest[p]);
            proof {
                assert(dv@ =~= digest@.take(p + 1));
            }
            p += 1;
        }
        proof {
            assert(dv@ =~= digest@);
        }
        let ghost before = self.items@.map_values(|v: Vec<u8>| v@);
        let mut items: Vec<Vec<u8>> = Vec::new();
        std::mem::swap(&mut items, &mut self.items);
        items.push(dv);
        proof {
            let after = items@.map_values(|v: Vec<u8>| v@);
            assert(after =~= before.push(digest@));
            assert(after.drop_last() =~= before);
        }
        self.items = items;
        proof {
            let after = self.items@.map_values(|v: Vec<u8>| v@);
            assert forall|x: Seq<u8>| after.to_set().contains(x) implies old(self)@.insert(
                digest@,
            ).contains(x) by {
                let i = choose|i: int| 0 <= i < after.len() && after[i] == x;
                if i < before.len() {
                    assert(before[i] == x);
                    assert(before.contains(x));
                }
            }
            assert forall|x: Seq<u8>| old(self)@.insert(digest@).contains(x) implies
                after.to_set().contains(x) by {
                if x == digest@ {
                    assert(after[after.len() - 1] == x);
                    assert(after.contains(x));
                } else {
                    let i = choose|i: int| 0 <= i < before.len() && before[i] == x;
                    assert(after[i] == x);
                    assert(after.contains(x));
                }
            }
            assert(final(self)@ =~= old(self)@.insert(digest@));
        }
    }

    /// How many distinct digests have been collected.
    pub fn len(&self) -> (r: usize)
        ensures
            r == self@.len(),
    {
        proof {
            use_type_invariant(&*self);
            self.items@.map_values(|v: Vec<u8>| v@).unique_seq_to_set();
        }
        self.items.len()
    }
}

/// A tree that references the same leaf digest twice still yields a
/// set holding that digest exactly once: inserting a digest again
/// changes nothing.
pub proof fn lemma_record_once(s: Set<Seq<u8>>, d: Seq<u8>)
    ensures
        s.insert(d).insert(d) == s.insert(d),
{
    assert(s.insert(d).insert(d) =~= s.insert(d));
}

} // verus!
