//! The bounded resource pool's verified bookkeeping core.
//!
//! `PoolCore` tracks everything the checkout / invoke / release protocol
//! decides on: the capacity `max`, the length of the append-only slot table,
//! the availability stack of free slot indices, the semaphore, and how many
//! growth attempts are in flight. A driver owns the actual resource
//! instances and the waiting (blocking on a condition variable, or suspending
//! under a cooperative scheduler); every state change goes through the
//! transitions here, so the protocol's invariants are verified once and hold
//! for both scheduling models.
//!
//! The central invariant, `wf`, ties the pieces together: the table holds
//! between one and `max` slots, the availability stack lists distinct valid
//! indices, and the permit count always equals the capacity minus the leased
//! slots and in-flight growth attempts. From it the transitions prove the
//! protocol's safety: a lease is only ever granted on an index that no other
//! in-flight call holds, a caller that takes the last permit always finds
//! either a free slot or room to grow (the "no permit and no room" case is
//! unreachable), and a failed growth restores the state it found.

use vstd::prelude::*;
use vstd::set_lib::lemma_len_subset;
use vstd::set_lib::lemma_int_range;
use vstd::set_lib::set_int_range;

use crate::semaphore::Semaphore;

verus! {

/// What a checkout attempt decided.
#[derive(Clone, Copy, Debug, PartialEq, Eq, Structural)]
pub enum CheckoutStep {
    /// A permit was taken and this slot index is now leased to the caller.
    Lease(usize),
    /// A permit was taken but no slot is free and the table is below
    /// capacity: the caller must construct a new resource instance and
    /// report back through `grow_succeeded` or `grow_failed`.
    Grow,
    /// No permit is available: the caller must wait for a release and retry.
    Wait,
}

/// The pool's bookkeeping state: capacity, slot table length, availability
/// stack, semaphore, and in-flight growth attempts.
pub struct PoolCore {
    max: usize,
    slot_count: usize,
    available: Vec<usize>,
    sem: Semaphore,
    growing: usize,
}

impl PoolCore {
    /// The fixed capacity `max`: the most slots the table may ever hold and
    /// the most leases that may ever be in flight at once.
    pub closed spec fn capacity(&self) -> int {
        self.max as int
    }

    /// How many slots the table currently holds.
    pub closed spec fn table_len(&self) -> int {
        self.slot_count as int
    }

    /// The availability stack: indices of slots not currently leased, most
    /// recently released on top.
    pub closed spec fn avail_stack(&self) -> Seq<usize> {
        self.available@
    }

    /// How many permits are currently available.
    pub closed spec fn permits(&self) -> int {
        self.sem.permits()
    }

    /// How many growth attempts are in flight: permits taken whose callers
    /// are constructing a new slot and have not yet reported back.
    pub closed spec fn in_growth(&self) -> int {
        self.growing as int
    }

    /// The leased slot indices: valid indices absent from the availability
    /// stack, each held by exactly one in-flight call.
    pub open spec fn leased(&self) -> Set<usize> {
        Set::new(|i: usize| i < self.table_len() && !self.avail_stack().contains(i))
    }

    /// The pool invariant. Every transition preserves it; `new` establishes
    /// it.
    pub open spec fn wf(&self) -> bool {
        &&& 1 <= self.table_len()
        &&& self.table_len() + self.in_growth() <= self.capacity()
        &&& self.avail_stack().no_duplicates()
        &&& forall|k: int|
            0 <= k < self.avail_stack().len() ==> (#[trigger] self.avail_stack()[k])
                < self.table_len()
        &&& self.avail_stack().len() <= self.table_len()
        &&& self.permits() + self.in_growth() + self.table_len() - self.avail_stack().len()
            == self.capacity()
    }

    /// Create the bookkeeping for a pool with one pre-existing slot (index
    /// 0, already constructed by the caller) and capacity `max`.
    pub fn new(max: usize) -> (p: PoolCore)
        requires
            max >= 1,
        ensures
            p.wf(),
            p.capacity() == max,
            p.table_len() == 1,
            p.avail_stack() == seq![0usize],
            p.permits() == max,
            p.in_growth() == 0,
            p.leased() =~= Set::<usize>::empty(),
    {
        let mut available: Vec<usize> = Vec::new();
        available.push(0);
        let p = PoolCore { max, slot_count: 1, available, sem: Semaphore::new(max), growing: 0 };
        proof {
            assert(p.avail_stack() =~= seq![0usize]);
            assert(p.avail_stack().contains(0usize)) by {
                assert(p.avail_stack()[0] == 0usize);
            }
        }
        p
    }

    /// Attempt a checkout: take a permit and either pop the most recently
    /// released slot index (stack discipline, deliberately favouring
    /// cache-hot reuse), start a growth attempt when no index is free and
    /// the table is below capacity, or report that the caller must wait.
    ///
    /// The granted index is never one that another in-flight call holds:
    /// a `Lease` comes off the availability stack, so it was not leased.
    /// When a permit is taken and the stack is empty, the invariant proves
    /// the table is strictly below capacity, so the growth path is always
    /// open and the "no permit and no room" contract violation is
    /// unreachable.
    pub fn checkout(&mut self) -> (step: CheckoutStep)
        requires
            old(self).wf(),
        ensures
            final(self).wf(),
            final(self).capacity() == old(self).capacity(),
            final(self).table_len() == old(self).table_len(),
            match step {
                CheckoutStep::Lease(idx) => {
                    &&& old(self).permits() > 0
                    &&& old(self).avail_stack().len() > 0
                    &&& idx == old(self).avail_stack().last()
                    &&& idx < old(self).table_len()
                    &&& !old(self).leased().contains(idx)
                    &&& final(self).leased() =~= old(self).leased().insert(idx)
                    &&& final(self).avail_stack() == old(self).avail_stack().drop_last()
                    &&& final(self).permits() == old(self).permits() - 1
                    &&& final(self).in_growth() == old(self).in_growth()
                },
                CheckoutStep::Grow => {
                    &&& old(self).permits() > 0
                    &&& old(self).avail_stack().len() == 0
                    &&& old(self).table_len() < old(self).capacity()
                    &&& final(self).avail_stack() == old(self).avail_stack()
                    &&& final(self).leased() =~= old(self).leased()
                    &&& final(self).permits() == old(self).permits() - 1
                    &&& final(self).in_growth() == old(self).in_growth() + 1
                },
                CheckoutStep::Wait => {
                    &&& old(self).permits() == 0
                    &&& final(self).avail_stack() == old(self).avail_stack()
                    &&& final(self).leased() =~= old(self).leased()
                    &&& final(self).permits() == 0
                    &&& final(self).in_growth() == old(self).in_growth()
                },
            },
    {
        if !self.sem.acquire() {
            return CheckoutStep::Wait;
        }
        match self.available.pop() {
            Some(idx) => {
                proof {
                    let s = old(self).avail_stack();
                    assert forall|i: usize|
                        #[trigger] self.leased().contains(i)
                            <==> old(self).leased().insert(idx).contains(i) by {
                        lemma_contains_drop_last(s, i);
                    }
                    assert(self.leased() =~= old(self).leased().insert(idx));
                }
                CheckoutStep::Lease(idx)
            },
            None => {
                self.growing = self.growing + 1;
                CheckoutStep::Grow
            },
        }
    }

    /// Record that an in-flight growth attempt constructed its resource:
    /// the new slot is appended to the table and its fresh index — which no
    /// other call can hold — is leased to the grower. The caller's permit
    /// stays taken.
    pub fn grow_succeeded(&mut self) -> (idx: usize)
        requires
            old(self).wf(),
            old(self).in_growth() > 0,
        ensures
            final(self).wf(),
            idx == old(self).table_len(),
            !old(self).leased().contains(idx),
            final(self).leased() =~= old(self).leased().insert(idx),
            final(self).capacity() == old(self).capacity(),
            final(self).table_len() == old(self).table_len() + 1,
            final(self).table_len() <= final(self).capacity(),
            final(self).avail_stack() == old(self).avail_stack(),
            final(self).permits() == old(self).permits(),
            final(self).in_growth() == old(self).in_growth() - 1,
    {
        let idx = self.slot_count;
        self.slot_count = self.slot_count + 1;
        self.growing = self.growing - 1;
        idx
    }

    /// Record that an in-flight growth attempt failed to construct its
    /// resource: the permit taken for it goes back to the semaphore before the
    /// construction error propagates, so a failed growth leaves the pool
    /// exactly as the checkout found it.
    pub fn grow_failed(&mut self)
        requires
            old(self).wf(),
            old(self).in_growth() > 0,
        ensures
            final(self).wf(),
            final(self).capacity() == old(self).capacity(),
            final(self).table_len() == old(self).table_len(),
            final(self).avail_stack() == old(self).avail_stack(),
            final(self).leased() =~= old(self).leased(),
            final(self).permits() == old(self).permits() + 1,
            final(self).in_growth() == old(self).in_growth() - 1,
    {
        self.growing = self.growing - 1;
        self.sem.release();
    }

    /// End a lease: push the slot index back onto the availability stack and
    /// return the permit to the semaphore. This runs on every exit path of an
    /// invocation, whether it succeeded or failed.
    pub fn release_slot(&mut self, idx: usize)
        requires
            old(self).wf(),
            old(self).leased().contains(idx),
        ensures
            final(self).wf(),
            final(self).capacity() == old(self).capacity(),
            final(self).table_len() == old(self).table_len(),
            final(self).avail_stack() == old(self).avail_stack().push(idx),
            final(self).leased() =~= old(self).leased().remove(idx),
            final(self).permits() == old(self).permits() + 1,
            final(self).in_growth() == old(self).in_growth(),
    {
        proof {
            lemma_distinct_bounded_excluding(
                self.avail_stack(),
                self.table_len(),
                idx,
            );
        }
        self.available.push(idx);
        self.sem.release();
        proof {
            let s = old(self).avail_stack();
            assert forall|i: usize|
                #[trigger] self.leased().contains(i)
                    <==> old(self).leased().remove(idx).contains(i) by {
                lemma_contains_push(s, idx, i);
            }
            assert(self.leased() =~= old(self).leased().remove(idx));
        }
    }

    /// Record one slot admitted by the warm-up path: the new slot is
    /// appended to the table and its index pushed onto the availability
    /// stack, without touching the semaphore.
    pub fn admit_slot(&mut self) -> (idx: usize)
        requires
            old(self).wf(),
            old(self).table_len() + old(self).in_growth() < old(self).capacity(),
        ensures
            final(self).wf(),
            idx == old(self).table_len(),
            final(self).capacity() == old(self).capacity(),
            final(self).table_len() == old(self).table_len() + 1,
            final(self).avail_stack() == old(self).avail_stack().push(idx),
            final(self).leased() =~= old(self).leased(),
            final(self).permits() == old(self).permits(),
            final(self).in_growth() == old(self).in_growth(),
    {
        let idx = self.slot_count;
        self.slot_count = self.slot_count + 1;
        self.available.push(idx);
        proof {
            let s = old(self).avail_stack();
            assert forall|i: usize|
                #[trigger] self.leased().contains(i) <==> old(self).leased().contains(i) by {
                lemma_contains_push(s, idx, i);
            }
            assert(self.leased() =~= old(self).leased());
        }
        idx
    }

    /// How many slots the warm-up path still has to construct to bring the
    /// table to capacity, counting growth attempts already in flight.
    pub fn eager_slots_remaining(&self) -> (n: usize)
        requires
            self.wf(),
        ensures
            n == self.capacity() - self.table_len() - self.in_growth(),
    {
        self.max - self.slot_count - self.growing
    }

    /// The fixed capacity `max`, as a runtime value.
    pub fn max_slots(&self) -> (n: usize)
        ensures
            n == self.capacity(),
    {
        self.max
    }

    /// How many slots the table currently holds, as a runtime value.
    pub fn slots_len(&self) -> (n: usize)
        ensures
            n == self.table_len(),
    {
        self.slot_count
    }

    /// How many slot indices are on the availability stack.
    pub fn available_len(&self) -> (n: usize)
        ensures
            n == self.avail_stack().len(),
    {
        self.available.len()
    }

    /// How many permits are currently available.
    pub fn available_permits(&self) -> (n: usize)
        ensures
            n == self.permits(),
    {
        self.sem.available_permits()
    }

    /// How many growth attempts are in flight.
    pub fn growth_in_flight(&self) -> (n: usize)
        ensures
            n == self.in_growth(),
    {
        self.growing
    }

    /// Whether the slot index is on the availability stack (not leased and
    /// not beyond the table).
    pub fn is_available(&self, idx: usize) -> (b: bool)
        ensures
            b == self.avail_stack().contains(idx),
    {
        let mut k: usize = 0;
        while k < self.available.len()
            invariant
                k <= self.avail_stack().len(),
                forall|j: int| 0 <= j < k ==> self.avail_stack()[j] != idx,
            decreases self.avail_stack().len() - k,
        {
            if self.available[k] == idx {
                return true;
            }
            k = k + 1;
        }
        false
    }
}

/// Membership in a stack after popping: the popped sequence holds exactly
/// the members other than the (distinct) last element.
proof fn lemma_contains_drop_last(s: Seq<usize>, i: usize)
    requires
        s.len() > 0,
        s.no_duplicates(),
    ensures
        s.drop_last().contains(i) <==> (s.contains(i) && i != s.last()),
{
    if s.drop_last().contains(i) {
        let k = choose|k: int| 0 <= k < s.drop_last().len() && s.drop_last()[k] == i;
        assert(s[k] == i);
        assert(s[k] != s[s.len() - 1]);
    }
    if s.contains(i) && i != s.last() {
        let k = choose|k: int| 0 <= k < s.len() && s[k] == i;
        assert(k != s.len() - 1);
        assert(s.drop_last()[k] == i);
    }
}

/// Membership in a stack after pushing: the pushed sequence holds exactly
/// the old members and the new element.
proof fn lemma_contains_push(s: Seq<usize>, v: usize, i: usize)
    ensures
        s.push(v).contains(i) <==> (s.contains(i) || i == v),
{
    if s.push(v).contains(i) {
        let k = choose|k: int| 0 <= k < s.push(v).len() && s.push(v)[k] == i;
        if k < s.len() {
            assert(s[k] == i);
        }
    }
    if s.contains(i) {
        let k = choose|k: int| 0 <= k < s.len() && s[k] == i;
        assert(s.push(v)[k] == i);
    }
    assert(s.push(v)[s.len() as int] == v);
}

/// A sequence of distinct indices below `n` that leaves out the index `ex`
/// cannot fill all of `0 .. n`: its length stays below `n`.
proof fn lemma_distinct_bounded_excluding(s: Seq<usize>, n: int, ex: usize)
    requires
        s.no_duplicates(),
        forall|k: int| 0 <= k < s.len() ==> (#[trigger] s[k]) < n,
        !s.contains(ex),
        0 <= ex < n,
    ensures
        s.len() < n,
{
    let si = s.map_values(|u: usize| u as int);
    assert(si.no_duplicates()) by {
        assert forall|i: int, j: int|
            0 <= i < si.len() && 0 <= j < si.len() && i != j implies si[i] != si[j] by {
            assert(s[i] != s[j]);
        }
    }
    si.unique_seq_to_set();
    lemma_int_range(0, n);
    let bound = set_int_range(0, n).remove(ex as int);
    assert(si.to_set().subset_of(bound)) by {
        assert forall|x: int| si.to_set().contains(x) implies bound.contains(x) by {
            let k = choose|k: int| 0 <= k < si.len() && si[k] == x;
            assert(s[k] < n);
            assert(s[k] != ex);
        }
    }
    lemma_len_subset(si.to_set(), bound);
    assert(set_int_range(0, n).contains(ex as int));
    assert(bound.len() == n - 1);
}

/// A sequence of distinct indices below `n` that contains every index in
/// `0 .. n` has length exactly `n`.
proof fn lemma_distinct_bounded_covering(s: Seq<usize>, n: int)
    requires
        s.no_duplicates(),
        forall|k: int| 0 <= k < s.len() ==> (#[trigger] s[k]) < n,
        forall|i: usize| i < n ==> #[trigger] s.contains(i),
        0 <= n <= usize::MAX,
    ensures
        s.len() == n,
{
    let si = s.map_values(|u: usize| u as int);
    assert(si.no_duplicates()) by {
        assert forall|i: int, j: int|
            0 <= i < si.len() && 0 <= j < si.len() && i != j implies si[i] != si[j] by {
            assert(s[i] != s[j]);
        }
    }
    si.unique_seq_to_set();
    lemma_int_range(0, n);
    let bound = set_int_range(0, n);
    assert(si.to_set().subset_of(bound)) by {
        assert forall|x: int| si.to_set().contains(x) implies bound.contains(x) by {
            let k = choose|k: int| 0 <= k < si.len() && si[k] == x;
            assert(s[k] < n);
        }
    }
    assert(bound.subset_of(si.to_set())) by {
        assert forall|x: int| bound.contains(x) implies si.to_set().contains(x) by {
            assert(0 <= x < n);
            let u = x as usize;
            assert(u as int == x);
            assert(s.contains(u));
            let k = choose|k: int| 0 <= k < s.len() && s[k] == u;
            assert(si[k] == x);
        }
    }
    lemma_len_subset(si.to_set(), bound);
    lemma_len_subset(bound, si.to_set());
}

/// A leased slot index is exactly one that is absent from the availability
/// stack, so while a lease is in flight no other checkout can be granted
/// the same index: `checkout` only grants indices popped off the stack, and
/// `grow_succeeded` only grants a fresh index beyond the current table.
/// Together with the grant postconditions (`!old(self).leased().contains(idx)`
/// on both granting transitions) this is why no two in-flight leases ever
/// hold the same slot index.
pub proof fn lemma_lease_excludes_availability(p: PoolCore, idx: usize)
    requires
        p.wf(),
        p.leased().contains(idx),
    ensures
        !p.avail_stack().contains(idx),
        idx < p.table_len(),
{
}

/// The slot table is bounded: it always holds at least the one slot the
/// pool was created with and never exceeds the capacity `max`. (That it
/// never shrinks is stated by every transition: `table_len` only ever stays
/// or grows by one.)
pub proof fn lemma_table_bounded(p: PoolCore)
    requires
        p.wf(),
    ensures
        1 <= p.table_len() <= p.capacity(),
{
}

/// A quiescent pool is whole again: once every lease has been released and
/// no growth attempt is in flight, the availability stack holds every slot
/// index and the semaphore is back to the full capacity — no matter how
/// many invocations completed or failed before.
pub proof fn lemma_quiescent_all_available(p: PoolCore)
    requires
        p.wf(),
        p.leased().is_empty(),
        p.in_growth() == 0,
    ensures
        p.avail_stack().len() == p.table_len(),
        p.permits() == p.capacity(),
{
    assert forall|i: usize| i < p.table_len() implies #[trigger] p.avail_stack().contains(i) by {
        if !p.avail_stack().contains(i) {
            assert(p.leased().contains(i));
        }
    }
    lemma_distinct_bounded_covering(p.avail_stack(), p.table_len());
}

/// Once the table is at capacity, a caller holding a permit always finds a
/// free slot: no growth attempt can be in flight and the availability stack
/// cannot be empty, so a checkout after a completed warm-up never triggers
/// lazy construction.
pub proof fn lemma_full_table_checkout_needs_no_growth(p: PoolCore)
    requires
        p.wf(),
        p.table_len() == p.capacity(),
        p.permits() > 0,
    ensures
        p.in_growth() == 0,
        p.avail_stack().len() > 0,
{
}

/// Warming up is idempotent: once the table is at capacity the warm-up path
/// has nothing left to construct, so a second warm-up call admits no slot
/// and leaves the table, the availability stack and the semaphore
/// unchanged.
pub proof fn lemma_warmup_idempotent(p: PoolCore)
    requires
        p.wf(),
        p.table_len() == p.capacity(),
    ensures
        p.in_growth() == 0,
        p.capacity() - p.table_len() - p.in_growth() == 0,
{
}

} // verus!

