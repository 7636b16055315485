//! A counting semaphore that bounds how many simulation runs are queued at
//! once. This is its bookkeeping: the count of holders and the bound. Blocking
//! until a slot frees up is left to whoever shares it between threads, who
//! retries `acquire` after each `release`.

use vstd::prelude::*;

verus! {

/// At most `max` holders at a time; `current` is how many hold it now.
pub struct Semaphore {
    max: usize,
    current: usize,
}

impl Semaphore {
    /// The bound on holders.
    pub closed spec fn max_view(&self) -> nat {
        self.max as nat
    }

    /// How many hold the semaphore now.
    pub closed spec fn current_view(&self) -> nat {
        self.current as nat
    }

    /// Never more holders than the bound. `new` gives a semaphore with this
    /// property and `acquire` and `release` keep it, so the count of holders
    /// (successful acquires less releases) never exceeds the bound.
    pub open spec fn wf(&self) -> bool {
        self.current_view() <= self.max_view()
    }

    /// A semaphore for at most `max` holders, held by none.
    pub fn new(max: usize) -> (s: Self)
        ensures
            s.wf(),
            s.max_view() == max,
            s.current_view() == 0,
    {
        Semaphore { max, current: 0 }
    }

    /// Takes a slot when one is free and says whether it did; when all `max`
    /// are held the semaphore stays as it is and the caller has to wait for a
    /// `release`.
    pub fn acquire(&mut self) -> (acquired: bool)
        requires
            old(self).wf(),
        ensures
            final(self).wf(),
            final(self).max_view() == old(self).max_view(),
            acquired == (old(self).current_view() < old(self).max_view()),
            final(self).current_view() == if acquired {
                old(self).current_view() + 1
            } else {
                old(self).current_view()
            },
    {
        if self.current < self.max {
            self.current = self.current + 1;
            true
        } else {
            false
        }
    }

    /// Gives a slot back; someone holds one.
    pub fn release(&mut self)
        requires
            old(self).wf(),
            old(self).current_view() > 0,
        ensures
            final(self).wf(),
            final(self).max_view() == old(self).max_view(),
            final(self).current_view() == old(self).current_view() - 1,
    {
        self.current = self.current - 1;
    }

    /// How many hold the semaphore now.
    pub fn current(&self) -> (c: usize)
        ensures
            c == self.current_view(),
    {
        self.current
    }
}

/// Successful acquires (`true`) less releases (`false`) among `ops`.
pub open spec fn holders(ops: Seq<bool>) -> int
    decreases ops.len(),
{
    if ops.len() == 0 {
        0
    } else {
        holders(ops.drop_last()) + if ops.last() {
            1int
        } else {
            -1int
        }
    }
}

/// `after` is `before` after a successful acquire (`acquire`) or after a
/// release (`!acquire`), as the contracts of `acquire` and `release` give it.
pub open spec fn semaphore_step(before: Semaphore, after: Semaphore, acquire: bool) -> bool {
    &&& after.max_view() == before.max_view()
    &&& acquire ==> before.current_view() < before.max_view() && after.current_view() == before.current_view() + 1
    &&& !acquire ==> before.current_view() > 0 && after.current_view() == before.current_view() - 1
}

/// Along any run from a semaphore that nobody holds, through successful
/// acquires and releases, the count of holders is the acquires less the
/// releases so far, and it never exceeds the bound.
pub proof fn lemma_holders_bounded(states: Seq<Semaphore>, ops: Seq<bool>)
    requires
        states.len() == ops.len() + 1,
        states[0].current_view() == 0,
        forall|i: int| 0 <= i < ops.len() ==> semaphore_step(states[i], #[trigger] states[i + 1], ops[i]),
    ensures
        forall|i: int| 0 <= i < states.len() ==> (#[trigger] states[i]).current_view() == holders(ops.take(i)),
        forall|i: int| 0 <= i < states.len() ==> holders(ops.take(i)) <= (#[trigger] states[i]).max_view(),
    decreases ops.len(),
{
    if ops.len() > 0 {
        let n = ops.len() - 1;
        let s0 = states.drop_last();
        let o0 = ops.drop_last();
        assert forall|i: int| 0 <= i < o0.len() implies semaphore_step(s0[i], #[trigger] s0[i + 1], o0[i]) by {
            assert(s0[i] == states[i]);
            assert(s0[i + 1] == states[i + 1]);
            assert(semaphore_step(states[i], states[i + 1], ops[i]));
        }
        lemma_holders_bounded(s0, o0);
        assert forall|i: int| 0 <= i < states.len() implies (#[trigger] states[i]).current_view() == holders(ops.take(i))
            && holders(ops.take(i)) <= states[i].max_view() by {
            if i < states.len() - 1 {
                assert(s0[i] == states[i]);
                assert(o0.take(i) =~= ops.take(i));
            } else {
                assert(s0[n] == states[n]);
                assert(o0.take(n) =~= ops.take(n));
                assert(ops.take(i).drop_last() =~= ops.take(n));
                assert(ops.take(i).last() == ops[n]);
                assert(semaphore_step(states[n], states[n + 1], ops[n]));
            }
        }
    } else {
        assert(ops.take(0) =~= Seq::<bool>::empty());
    }
}

/// A release undoes a successful acquire: the count is back where it was.
pub proof fn lemma_release_undoes_acquire(before: Semaphore, acquired: Semaphore, after: Semaphore)
    requires
        before.wf(),
        before.current_view() < before.max_view(),
        acquired.max_view() == before.max_view(),
        acquired.current_view() == before.current_view() + 1,
        after.max_view() == acquired.max_view(),
        after.current_view() == acquired.current_view() - 1,
    ensures
        after.current_view() == before.current_view(),
        after.max_view() == before.max_view(),
{
}

} // verus!
