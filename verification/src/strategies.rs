//! Termination strategies for the thread planner.
//!
//! [`CountTracker`] stops after a fixed number of lines; [`LossTracker`]
//! stops when the total residual magnitude of the buffer drops below a
//! target, re-checking at an exponentially decaying interval, with a hard
//! ceiling on the order length as a safety stop.

use vstd::prelude::*;
use crate::planner::{view_after, PlannerView, PlanningStrategy, ThreadPlanner};
use crate::raster::{spec_abs, LineAlgorithm};

verus! {

/// Hard ceiling on the order length under [`LossTracker`].
pub const HARD_STOP: usize = 3000;

/// Floor of the loss-check interval of [`LossTracker`].
pub const MIN_WAIT: usize = 20;

/// Stop the thread planner after a certain number of lines have been drawn:
/// the run ends as soon as the order holds more than this many anchors.
pub struct CountTracker(pub u32);

impl<Z: View> PlanningStrategy<Z> for CountTracker {
    /// Done exactly when the order has grown past the target count.
    open spec fn done_spec(self, subject: <Z as View>::V, anchors: Seq<usize>) -> bool {
        anchors.len() as int > self.0 as int
    }

    open spec fn advanced_spec(self, subject: <Z as View>::V, anchors: Seq<usize>) -> Self {
        self
    }

    open spec fn measure_spec(self, anchors_len: nat) -> nat {
        if anchors_len > self.0 as nat {
            0
        } else {
            (self.0 as nat + 1 - anchors_len) as nat
        }
    }

    proof fn lemma_measure_decreases(self, subject: <Z as View>::V, anchors: Seq<usize>) {
    }

    fn completed(&mut self, subject: &Z, anchors: &Vec<usize>) -> (r: bool) {
        anchors.len() > self.0 as usize
    }
}

/// A [`CountTracker`] never changes state when consulted.
proof fn lemma_count_tracker_constant<'a, A: LineAlgorithm>(
    k: u32,
    v0: PlannerView<A>,
    order: Seq<usize>,
    j: int,
)
    ensures
        ThreadPlanner::<'a, A>::strat_after(CountTracker(k), v0, order, j) == CountTracker(k),
    decreases j,
{
    if j > 0 {
        lemma_count_tracker_constant::<A>(k, v0, order, j - 1);
    }
}

/// Fixed-count termination: a successful run under `CountTracker(k)` holds
/// exactly `k + 1` anchors, that is, exactly `k` committed lines.
pub proof fn lemma_fixed_count_termination<'a, A: LineAlgorithm>(
    v0: PlannerView<A>,
    k: u32,
    start: usize,
    order: Seq<usize>,
)
    requires
        ThreadPlanner::<'a, A>::plan_ok(v0, CountTracker(k), start, order),
    ensures
        order.len() == k as int + 1,
{
    let n = order.len() as int;
    lemma_count_tracker_constant::<A>(k, v0, order, n - 1);
    assert(ThreadPlanner::<'a, A>::strat_after(CountTracker(k), v0, order, n - 1) == CountTracker(k));
    // the final consultation said "done": the order has grown past k
    assert(n > k as int);
    if n >= 2 {
        // the consultation before it said "keep going": its order length is
        // at most k
        lemma_count_tracker_constant::<A>(k, v0, order, n - 2);
        assert(!<CountTracker as PlanningStrategy<ThreadPlanner<'a, A>>>::done_spec(
            ThreadPlanner::<'a, A>::strat_after(CountTracker(k), v0, order, n - 2),
            view_after(v0, order, n - 2),
            order.take(n - 1),
        ));
        assert(n - 1 <= k as int);
    }
}

/// Total residual magnitude of a buffer: the sum of the absolute values of
/// its entries.
pub open spec fn spec_total_loss(mask: Seq<i64>) -> int
    decreases mask.len(),
{
    if mask.len() == 0 {
        0
    } else {
        spec_total_loss(mask.drop_last()) + spec_abs(mask.last() as int)
    }
}

/// Computes [`spec_total_loss`] over a residual buffer.
fn total_loss(mask: &Vec<i64>) -> (l: u128)
    ensures
        l == spec_total_loss(mask@),
{
    let mut sum: u128 = 0;
    let mut i: usize = 0;
    while i < mask.len()
        invariant
            0 <= i <= mask@.len(),
            sum == spec_total_loss(mask@.take(i as int)),
            sum <= (i as int) * 0x8000_0000_0000_0000,
        decreases mask@.len() - i,
    {
        let v = mask[i];
        let a: u128 = if v >= 0 {
            v as u128
        } else {
            (-(v as i128)) as u128
        };
        proof {
            assert(mask@.take(i + 1).drop_last() =~= mask@.take(i as int));
            assert(mask@.take(i + 1).last() == mask@[i as int]);
            assert(a == spec_abs(mask@[i as int] as int));
            assert(sum + a <= (i + 1) * 0x8000_0000_0000_0000) by (nonlinear_arith)
                requires
                    sum <= (i as int) * 0x8000_0000_0000_0000,
                    a <= 0x8000_0000_0000_0000,
            ;
            assert((i + 1) * 0x8000_0000_0000_0000 <= (usize::MAX as int) * 0x8000_0000_0000_0000)
                by (nonlinear_arith)
                requires
                    i + 1 <= usize::MAX as int,
            ;
        }
        sum = sum + a;
        i = i + 1;
    }
    proof {
        assert(mask@.take(mask@.len() as int) =~= mask@);
    }
    sum
}

/// Stop the thread planner when the total residual magnitude reaches a
/// target value, scanning the buffer only every `wait` consultations and
/// halving the interval (down to [`MIN_WAIT`]) after each scan.
pub struct LossTracker {
    /// Consultations to wait between two full-buffer loss scans.
    pub wait: usize,
    /// Consultations since the last scan.
    pub current: usize,
    /// Fixed-point loss value under which the plan counts as converged.
    pub target_loss: u128,
}

impl LossTracker {
    /// Creates a tracker that first checks after `wait` consultations and
    /// stops once the total residual magnitude drops below `target_loss`.
    pub fn new(wait: usize, target_loss: u128) -> (t: Self)
        ensures
            t.wait == wait,
            t.current == 0,
            t.target_loss == target_loss,
    {
        Self { wait, current: 0, target_loss }
    }
}

impl<'a, A: LineAlgorithm> PlanningStrategy<ThreadPlanner<'a, A>> for LossTracker {
    /// Done on a runaway order, or when a due loss scan meets the target.
    open spec fn done_spec(self, subject: PlannerView<A>, anchors: Seq<usize>) -> bool {
        ||| anchors.len() as int > HARD_STOP as int
        ||| (self.current >= self.wait && spec_total_loss(subject.mask) < self.target_loss as int)
    }

    open spec fn advanced_spec(self, subject: PlannerView<A>, anchors: Seq<usize>) -> Self {
        if anchors.len() as int > HARD_STOP as int {
            self
        } else if self.current >= self.wait {
            if spec_total_loss(subject.mask) < self.target_loss as int {
                self
            } else {
                LossTracker {
                    wait: if self.wait / 2 > MIN_WAIT {
                        self.wait / 2
                    } else {
                        MIN_WAIT
                    },
                    current: 1,
                    target_loss: self.target_loss,
                }
            }
        } else {
            LossTracker { current: (self.current + 1) as usize, ..self }
        }
    }

    open spec fn measure_spec(self, anchors_len: nat) -> nat {
        if anchors_len > HARD_STOP as nat {
            0
        } else {
            (HARD_STOP as nat + 1 - anchors_len) as nat
        }
    }

    proof fn lemma_measure_decreases(self, subject: PlannerView<A>, anchors: Seq<usize>) {
    }

    fn completed(&mut self, subject: &ThreadPlanner<'a, A>, anchors: &Vec<usize>) -> (r: bool) {
        // hard stop switch
        if anchors.len() > HARD_STOP {
            return true;
        }
        // re-check the expensive whole-buffer loss only every `wait` steps
        if self.current >= self.wait {
            let loss = total_loss(&subject.image_mask_inverted);
            if loss < self.target_loss {
                return true;
            }
            // halve the wait time down to a minimum and restart the counter
            self.wait = if self.wait / 2 > MIN_WAIT {
                self.wait / 2
            } else {
                MIN_WAIT
            };
            self.current = 0;
        }
        self.current = self.current + 1;
        false
    }
}

} // verus!
