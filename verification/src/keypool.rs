//! The bounded pool of upstream credentials.
//!
//! The pool holds an ordered queue of credential strings and a count of
//! leased credentials. At any instant every credential is either available
//! in the queue or leased, so `leased + available == total` — the no-leak
//! invariant. Leasing pops the front; releasing pushes the credential on the
//! tail, giving FIFO rotation. The waiting itself (suspending a caller until
//! a credential is free) belongs to the async shell around the library; the
//! pool here is the state it guards: with nothing available, `try_acquire`
//! hands back nothing, and a caller can only wait.

use vstd::prelude::*;
use vstd::seq_lib::lemma_multiset_commutative;

verus! {

pub struct KeyPool {
    keys: Vec<String>,
    leased: usize,
    total: usize,
}

impl KeyPool {
    /// The queue of available credentials, oldest first.
    pub closed spec fn avail(&self) -> Seq<Seq<char>> {
        self.keys.deep_view()
    }

    /// How many credentials are out on lease.
    pub closed spec fn spec_leased(&self) -> int {
        self.leased as int
    }

    /// The fixed capacity.
    pub closed spec fn spec_total(&self) -> int {
        self.total as int
    }

    /// Every credential is in exactly one of the two states, and the lease
    /// count is a count: never negative.
    pub open spec fn wf(&self) -> bool {
        &&& 0 <= self.spec_leased()
        &&& self.spec_leased() + self.avail().len() == self.spec_total()
    }

    /// Builds a pool over the given credentials; all start available.
    pub fn new(keys: Vec<String>) -> (r: KeyPool)
        ensures
            r.wf(),
            r.avail() == keys.deep_view(),
            r.spec_leased() == 0,
            r.spec_total() == keys@.len(),
    {
        let total = keys.len();
        KeyPool { keys, leased: 0, total }
    }

    /// Takes the front credential when one is available; with an empty
    /// queue there is nothing to hand out and the caller must wait.
    pub fn try_acquire(&mut self) -> (r: Option<String>)
        requires
            old(self).wf(),
        ensures
            final(self).wf(),
            final(self).spec_total() == old(self).spec_total(),
            old(self).avail().len() > 0 ==> {
                &&& r matches Some(k) && k@ == old(self).avail()[0]
                &&& final(self).avail() == old(self).avail().drop_first()
                &&& final(self).spec_leased() == old(self).spec_leased() + 1
            },
            old(self).avail().len() == 0 ==> r is None && *final(self) == *old(self),
    {
        if self.keys.len() == 0 {
            return None;
        }
        let k = self.keys.remove(0);
        self.leased = self.leased + 1;
        proof {
            assert(self.keys.deep_view() =~= old(self).keys.deep_view().drop_first());
        }
        Some(k)
    }

    /// Returns a leased credential to the tail of the queue.
    pub fn release(&mut self, key: String)
        requires
            old(self).wf(),
            old(self).spec_leased() >= 1,
        ensures
            final(self).wf(),
            final(self).spec_total() == old(self).spec_total(),
            final(self).avail() == old(self).avail().push(key@),
            final(self).spec_leased() == old(self).spec_leased() - 1,
    {
        self.keys.push(key);
        self.leased = self.leased - 1;
        proof {
            assert(self.keys.deep_view() =~= old(self).keys.deep_view().push(key@));
        }
    }

    /// How many credentials are available right now.
    pub fn available(&self) -> (r: usize)
        ensures
            r == self.avail().len(),
    {
        self.keys.len()
    }

    /// The fixed capacity.
    pub fn capacity(&self) -> (r: usize)
        ensures
            r == self.spec_total(),
    {
        self.total
    }
}

/// Leasing the front credential and releasing it later restores the lease
/// count and keeps the very same collection of credentials: the pool only
/// rotates, it never leaks or invents one.
pub proof fn lemma_lease_round_trip(avail: Seq<Seq<char>>)
    requires
        avail.len() > 0,
    ensures
        avail.drop_first().push(avail[0]).len() == avail.len(),
        avail.drop_first().push(avail[0]).to_multiset() == avail.to_multiset(),
{
    let rotated = avail.drop_first().push(avail[0]);
    assert(rotated =~= avail.drop_first() + seq![avail[0]]);
    assert(avail =~= seq![avail[0]] + avail.drop_first());
    lemma_multiset_commutative(avail.drop_first(), seq![avail[0]]);
    lemma_multiset_commutative(seq![avail[0]], avail.drop_first());
    assert(rotated.to_multiset() == avail.drop_first().to_multiset().add(
        seq![avail[0]].to_multiset(),
    ));
    assert(avail.to_multiset() == seq![avail[0]].to_multiset().add(
        avail.drop_first().to_multiset(),
    ));
}

} // verus!
