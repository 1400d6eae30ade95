use vstd::prelude::*;

use vstd::std_specs::cmp::PartialEqSpec;

use crate::assoc::{contains_id, keys_unique, lemma_map_of_all, lemma_map_of_push, lemma_map_of_update, map_of};
use crate::Id;

verus! {

/// A count `m` out of `n` is a strict majority.
pub open spec fn is_majority(m: int, n: int) -> bool {
    m > n / 2
}

pub fn majority(m: usize, n: usize) -> (r: bool)
    ensures
        r == is_majority(m as int, n as int),
{
    m > n / 2
}

/// A signature share: who signed, and what. It stands for a real signature.
#[derive(Clone, Debug, PartialEq, Eq, Hash, PartialOrd, Ord)]
pub struct Sig<T> {
    pub signer: Id,
    pub msg: T,
}

impl<T: PartialEq> Sig<T> {
    /// The share was made by `id` over `msg`.
    pub fn verify(&self, id: Id, msg: &T) -> (r: bool)
        ensures
            T::obeys_eq_spec() ==> r == (self.msg.eq_spec(msg) && self.signer == id),
    {
        self.msg.eq(msg) && self.signer == id
    }

    pub fn sign(signer: Id, msg: T) -> (r: Self)
        ensures
            r.signer == signer,
            r.msg == msg,
    {
        Sig { signer, msg }
    }
}

/// Signature shares collected by signer, at most one per signer.
#[derive(Clone, Debug, PartialEq, Eq, Hash, PartialOrd, Ord)]
pub struct SigSet<T> {
    pub shares: Vec<(Id, Sig<T>)>,
}

/// How many of the shares come from one of `voters` and verify against `msg`.
pub open spec fn valid_share_count<T: PartialEq>(shares: Seq<(Id, Sig<T>)>, voters: Seq<Id>, msg: T) -> nat
    decreases shares.len(),
{
    if shares.len() == 0 {
        0
    } else {
        let last = shares.last();
        valid_share_count(shares.drop_last(), voters, msg) + if voters.contains(last.0)
            && last.1.msg.eq_spec(&msg) && last.1.signer == last.0 {
            1nat
        } else {
            0nat
        }
    }
}

impl<T: PartialEq> SigSet<T> {
    pub open spec fn shares_map(&self) -> Map<Id, Sig<T>> {
        map_of(self.shares@)
    }

    pub open spec fn wf(&self) -> bool {
        keys_unique(self.shares@)
    }

    pub fn new() -> (r: Self)
        ensures
            r.wf(),
            r.shares_map() == Map::<Id, Sig<T>>::empty(),
    {
        let r = SigSet { shares: Vec::new() };
        proof {
            assert(r.shares_map() =~= Map::<Id, Sig<T>>::empty());
        }
        r
    }

    /// Keeps `sig` as the share of `signer`, in place of any earlier one.
    pub fn add_share(&mut self, signer: Id, sig: Sig<T>)
        requires
            old(self).wf(),
        ensures
            final(self).wf(),
            final(self).shares_map() == old(self).shares_map().insert(signer, sig),
    {
        let ghost s0 = self.shares@;
        let mut i: usize = 0;
        while i < self.shares.len()
            invariant
                i <= self.shares.len(),
                self.shares@ == s0,
                s0 == old(self).shares@,
                keys_unique(s0),
                forall|j: int| 0 <= j < i ==> (#[trigger] s0[j]).0 != signer,
            decreases self.shares.len() - i,
        {
            if self.shares[i].0 == signer {
                let ghost sv = sig;
                self.shares.set(i, (signer, sig));
                proof {
                    assert(s0[i as int].0 == signer);
                    assert(self.shares@ =~= s0.update(i as int, (s0[i as int].0, sv)));
                    lemma_map_of_update(s0, i as int, sv);
                }
                return;
            }
            i = i + 1;
        }
        proof {
            lemma_map_of_all(s0);
            lemma_map_of_push(s0, signer, sig);
        }
        self.shares.push((signer, sig));
    }

    /// Takes in every share of `other`, which win over shares of the same signers.
    pub fn merge(&mut self, other: SigSet<T>)
        requires
            old(self).wf(),
            other.wf(),
        ensures
            final(self).wf(),
            final(self).shares_map() == old(self).shares_map().union_prefer_right(other.shares_map()),
    {
        let ghost orig = other.shares@;
        let ghost start = self.shares_map();
        let mut rest = other.shares;
        let ghost mut done: int = 0;
        proof {
            assert(map_of(orig.subrange(0, 0)) =~= Map::<Id, Sig<T>>::empty());
            assert(start.union_prefer_right(Map::<Id, Sig<T>>::empty()) =~= start);
        }
        while rest.len() > 0
            invariant
                self.wf(),
                keys_unique(orig),
                0 <= done <= orig.len(),
                rest@ == orig.subrange(done, orig.len() as int),
                self.shares_map() == start.union_prefer_right(map_of(orig.subrange(0, done))),
            decreases rest.len(),
        {
            let (signer, sig) = rest.remove(0);
            proof {
                assert(signer == orig[done] .0 && sig == orig[done].1);
                let p0 = orig.subrange(0, done);
                let p_next = orig.subrange(0, done + 1);
                assert(keys_unique(p0));
                lemma_map_of_all(p0);
                assert(!map_of(p0).contains_key(signer)) by {
                    if map_of(p0).contains_key(signer) {
                        let j = choose|j: int| 0 <= j < p0.len() && (#[trigger] p0[j]).0 == signer;
                        assert(orig[j].0 != orig[done].0);
                    }
                }
                assert(p_next =~= p0.push((signer, sig)));
                lemma_map_of_push(p0, signer, sig);
                assert(start.union_prefer_right(map_of(p_next)) =~= start.union_prefer_right(map_of(p0)).insert(signer, sig));
            }
            self.add_share(signer, sig);
            proof {
                done = done + 1;
                assert(rest@ =~= orig.subrange(done, orig.len() as int));
            }
        }
        proof {
            assert(orig.subrange(0, done) =~= orig);
        }
    }

    /// A strict majority of `voters`, each listed once, has a share here that
    /// verifies against `msg`.
    pub fn verify(&self, voters: &Vec<Id>, msg: &T) -> (r: bool)
        ensures
            T::obeys_eq_spec() ==> r == is_majority(
                valid_share_count(self.shares@, voters@, *msg) as int,
                voters.len() as int,
            ),
    {
        let mut count: usize = 0;
        let mut i: usize = 0;
        while i < self.shares.len()
            invariant
                i <= self.shares.len(),
                count <= i,
                T::obeys_eq_spec() ==> count == valid_share_count(self.shares@.subrange(0, i as int), voters@, *msg),
            decreases self.shares.len() - i,
        {
            proof {
                assert(self.shares@.subrange(0, i + 1).drop_last() =~= self.shares@.subrange(0, i as int));
            }
            let (signer, sig) = (self.shares[i].0, &self.shares[i].1);
            if contains_id(voters, signer) && sig.verify(signer, msg) {
                count = count + 1;
            }
            i = i + 1;
        }
        proof {
            assert(self.shares@.subrange(0, i as int) =~= self.shares@);
        }
        majority(count, voters.len())
    }

    /// The signers, in the order their shares came.
    pub fn ids(&self) -> (r: Vec<Id>)
        ensures
            r@ == self.shares@.map_values(|p: (Id, Sig<T>)| p.0),
    {
        let mut r: Vec<Id> = Vec::new();
        let mut i: usize = 0;
        while i < self.shares.len()
            invariant
                i <= self.shares.len(),
                r@ == self.shares@.subrange(0, i as int).map_values(|p: (Id, Sig<T>)| p.0),
            decreases self.shares.len() - i,
        {
            r.push(self.shares[i].0);
            i = i + 1;
            proof {
                assert(r@ =~= self.shares@.subrange(0, i as int).map_values(|p: (Id, Sig<T>)| p.0));
            }
        }
        proof {
            assert(self.shares@.subrange(0, i as int) =~= self.shares@);
        }
        r
    }
}

} // verus!
