//! Timers that wake sleeping threads.
use vstd::prelude::*;
use vstd::multiset::Multiset;
use crate::config::CLOCK_FREQ;

verus! {

broadcast use {vstd::seq_lib::to_multiset_remove, vstd::seq_lib::to_multiset_build, vstd::seq_lib::to_multiset_len, vstd::seq_lib::to_multiset_contains, vstd::multiset::group_multiset_axioms};

/// Timer interrupts per second.
pub const TICKS_PER_SEC: usize = 100;
/// Milliseconds per second.
pub const MSEC_PER_SEC: usize = 1000;

/// Whether a busy wait of `ms` milliseconds that began at time `start` is over at
/// time `now`, both in milliseconds.
pub fn sleep_ms(start: usize, now: usize, ms: usize) -> (r: bool)
    requires
        start <= now,
    ensures
        r == (now - start >= ms),
{
    now - start >= ms
}

/// A sleeping thread and the time, in milliseconds, at which it is to be woken.
#[derive(Clone, Copy, Debug, PartialEq, Eq, Structural)]
pub struct TimerCondVar {
    /// When the timer expires, in milliseconds.
    pub expire_ms: usize,
    /// The thread to wake.
    pub task: usize,
}

/// The time of the next timer interrupt, one tick after `now` (in clock cycles).
pub fn set_next_trigger(now: usize) -> (r: usize)
    requires
        now + CLOCK_FREQ / TICKS_PER_SEC <= usize::MAX,
    ensures
        r == now + 125000,
{
    now + CLOCK_FREQ / TICKS_PER_SEC
}

/// Milliseconds elapsed for a clock reading of `ticks` cycles.
pub fn ticks_to_ms(ticks: usize) -> (r: usize)
    ensures
        r == ticks / 12500,
{
    ticks / (CLOCK_FREQ / MSEC_PER_SEC)
}

/// Whether every timer of `woken` expires no later than every timer of `rest`, and
/// `woken` is in order of expiry.
pub open spec fn woken_in_order(woken: Seq<TimerCondVar>, rest: Seq<TimerCondVar>) -> bool {
    &&& forall|i: int, j: int| 0 <= i < j < woken.len() ==> (#[trigger] woken[i]).expire_ms <= (#[trigger] woken[j]).expire_ms
    &&& forall|i: int, k: int| 0 <= i < woken.len() && 0 <= k < rest.len() ==> (#[trigger] woken[i]).expire_ms
        <= (#[trigger] rest[k]).expire_ms
}

/// Add a timer for `task` that expires at `expire_ms`.
pub fn add_timer(timers: &mut Vec<TimerCondVar>, expire_ms: usize, task: usize)
    ensures
        final(timers)@ == old(timers)@.push(TimerCondVar { expire_ms, task }),
{
    timers.push(TimerCondVar { expire_ms, task });
}

/// Drop every timer of `task`.
pub fn remove_timer(timers: &mut Vec<TimerCondVar>, task: usize)
    ensures
        final(timers)@ == old(timers)@.filter(|t: TimerCondVar| t.task != task),
{
    let mut kept: Vec<TimerCondVar> = Vec::new();
    let mut i: usize = 0;
    while i < timers.len()
        invariant
            0 <= i <= timers@.len(),
            timers@ == old(timers)@,
            kept@ == old(timers)@.subrange(0, i as int).filter(|t: TimerCondVar| t.task != task),
        decreases timers@.len() - i,
    {
        let t = timers[i];
        proof {
            let s = old(timers)@.subrange(0, i as int + 1);
            assert(s.drop_last() == old(timers)@.subrange(0, i as int));
            assert(s.last() == t);
            reveal(Seq::filter);
            assert(s.filter(|t: TimerCondVar| t.task != task) == if t.task != task {
                old(timers)@.subrange(0, i as int).filter(|t: TimerCondVar| t.task != task).push(t)
            } else {
                old(timers)@.subrange(0, i as int).filter(|t: TimerCondVar| t.task != task)
            });
        }
        if t.task != task {
            kept.push(t);
        }
        i = i + 1;
    }
    assert(old(timers)@.subrange(0, old(timers)@.len() as int) == old(timers)@);
    *timers = kept;
}

/// Take out every timer that has expired at `current_ms`, earliest first.
pub fn check_timer(timers: &mut Vec<TimerCondVar>, current_ms: usize) -> (woken: Vec<TimerCondVar>)
    ensures
        woken@.to_multiset().add(final(timers)@.to_multiset()) == old(timers)@.to_multiset(),
        forall|i: int| 0 <= i < woken@.len() ==> (#[trigger] woken@[i]).expire_ms <= current_ms,
        forall|k: int| 0 <= k < final(timers)@.len() ==> (#[trigger] final(timers)@[k]).expire_ms > current_ms,
        woken_in_order(woken@, final(timers)@),
{
    let mut woken: Vec<TimerCondVar> = Vec::new();
    proof {
        assert(woken@.to_multiset().len() == 0);
        assert(woken@.to_multiset() =~= Multiset::empty());
        assert(woken@.to_multiset().add(timers@.to_multiset()) =~= timers@.to_multiset());
    }
    loop
        invariant
            woken@.to_multiset().add(timers@.to_multiset()) == old(timers)@.to_multiset(),
            forall|i: int| 0 <= i < woken@.len() ==> (#[trigger] woken@[i]).expire_ms <= current_ms,
            woken_in_order(woken@, timers@),
        ensures
            forall|k: int| 0 <= k < timers@.len() ==> (#[trigger] timers@[k]).expire_ms > current_ms,
        decreases timers@.len(),
    {
        if timers.len() == 0 {
            break;
        }
        let mut m: usize = 0;
        let mut j: usize = 1;
        while j < timers.len()
            invariant
                0 <= m < j <= timers@.len(),
                forall|k: int| 0 <= k < j ==> timers@[m as int].expire_ms <= (#[trigger] timers@[k]).expire_ms,
            decreases timers@.len() - j,
        {
            if timers[j].expire_ms < timers[m].expire_ms {
                m = j;
            }
            j = j + 1;
        }
        let top = timers[m];
        if top.expire_ms <= current_ms {
            let ghost before = timers@;
            let t = timers.remove(m);
            proof {
                assert(before.remove(m as int) == timers@);
                assert forall|i: int, k: int| 0 <= i < woken@.len() + 1 && 0 <= k < timers@.len() implies (#[trigger] woken@.push(t)[i]).expire_ms
                    <= (#[trigger] timers@[k]).expire_ms by {
                    if k < m {
                        assert(timers@[k] == before[k]);
                    } else {
                        assert(timers@[k] == before[k + 1]);
                    }
                    if i < woken@.len() {
                        assert(woken@.push(t)[i] == woken@[i]);
                    }
                }
                assert forall|i: int, jj: int| 0 <= i < jj < woken@.len() + 1 implies (#[trigger] woken@.push(t)[i]).expire_ms
                    <= (#[trigger] woken@.push(t)[jj]).expire_ms by {
                    if jj == woken@.len() {
                        assert(woken@[i].expire_ms <= before[m as int].expire_ms);
                    }
                }
                assert(woken@.push(t).to_multiset() == woken@.to_multiset().insert(t));
                assert(before[m as int] == t);
                assert(timers@.to_multiset() == before.to_multiset().remove(t));
                assert(before.contains(t));
                assert(before.to_multiset().count(t) > 0);
                assert(woken@.to_multiset().insert(t).add(timers@.to_multiset()) =~= woken@.to_multiset().add(before.to_multiset()));
            }
            woken.push(t);
        } else {
            break;
        }
    }
    woken
}

} // verus!
