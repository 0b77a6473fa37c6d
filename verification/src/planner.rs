//! The greedy thread planner.
//!
//! A [`ThreadPlanner`] owns a residual intensity buffer — one fixed-point
//! "remaining darkness debt" per pixel, initialized to `255 - v` for each
//! source pixel `v` — and borrows an anchor ring and a rasterizer.  Each
//! planning step scores every eligible candidate anchor, commits the line to
//! the best one into the buffer, and advances.

use vstd::prelude::*;
use crate::fixed::{
    spec_delta,
    spec_contribution,
    delta,
    lemma_contribution_bounds,
    PixelIntensity,
    CONTRIB_MAX,
    LP_MAX,
    MAX_PIXEL,
    POS_MAX,
    RES_MAX,
    RES_MIN,
    SCALE,
};
use crate::raster::LineAlgorithm;
use crate::score::{Score, score_wf, score_lt, score_is_lt};

verus! {

/// A continuous anchor position within the coordinate bound.
pub open spec fn in_pos_range(p: (i64, i64)) -> bool {
    &&& -POS_MAX <= p.0 <= POS_MAX
    &&& -POS_MAX <= p.1 <= POS_MAX
}

/// The mathematical state of a planner: its configuration together with the
/// current residual buffer.
pub ghost struct PlannerView<A> {
    /// The rasterization strategy.
    pub alg: A,
    /// Internal line weight, scaled to intensity units: `255 * opacity`.
    pub line_weight: u64,
    /// The borrowed anchor ring.
    pub anchors: Seq<(i64, i64)>,
    /// Anchors within this circular distance of the current anchor are
    /// excluded from the candidate search.
    pub anchor_gap_count: usize,
    /// Weight of overshoot penalties.
    pub lightness_penalty: u64,
    /// Image width in pixels.
    pub width: usize,
    /// Image height in pixels.
    pub height: usize,
    /// Residual buffer, row-major, one entry per pixel.
    pub mask: Seq<i64>,
}

/// Well-formedness of a planner state.
pub open spec fn view_wf<A>(v: PlannerView<A>) -> bool {
    &&& v.mask.len() == v.width * v.height
    &&& forall|i: int| 0 <= i < v.mask.len() ==> RES_MIN <= #[trigger] v.mask[i] <= RES_MAX
    &&& v.line_weight < (MAX_PIXEL * SCALE) as u64
    &&& v.lightness_penalty <= LP_MAX
    &&& forall|i: int| 0 <= i < v.anchors.len() ==> in_pos_range(#[trigger] v.anchors[i])
}

/// Keep a rasterized sample only if its pixel lies inside the image.
pub open spec fn keep_sample(s: PixelIntensity, w: usize, h: usize) -> bool {
    &&& 0 <= s.0.0 < w as int
    &&& 0 <= s.0.1 < h as int
}

/// The subsequence of `s` whose pixels lie inside a `w` by `h` image.
pub open spec fn bounded_samples(s: Seq<PixelIntensity>, w: usize, h: usize) -> Seq<PixelIntensity>
    decreases s.len(),
{
    if s.len() == 0 {
        Seq::empty()
    } else {
        let rest = bounded_samples(s.drop_last(), w, h);
        if keep_sample(s.last(), w, h) {
            rest.push(s.last())
        } else {
            rest
        }
    }
}

/// Row-major flattened buffer index of a sample's pixel.
pub open spec fn flat_of(s: PixelIntensity, w: usize) -> int {
    s.0.0 + s.0.1 * w
}

/// The in-bounds samples of the line from `src` to `dst` under the planner's
/// rasterizer.
pub open spec fn trace_line_spec<A: LineAlgorithm>(v: PlannerView<A>, src: (i64, i64), dst: (i64, i64)) -> Seq<
    PixelIntensity,
> {
    bounded_samples(v.alg.samples(src.0, src.1, dst.0, dst.1), v.width, v.height)
}

/// Residual buffer after one sample is committed: the touched entry drops by
/// the sample's delta, saturating at the buffer floor.
pub open spec fn commit_one(mask: Seq<i64>, s: PixelIntensity, lw: u64, w: usize) -> Seq<i64> {
    let idx = flat_of(s, w);
    if 0 <= idx < mask.len() {
        let nv = mask[idx] - spec_delta(s.1 as int, lw as int);
        mask.update(idx, if nv < RES_MIN as int {
            RES_MIN
        } else {
            nv as i64
        })
    } else {
        mask
    }
}

/// Residual buffer after a whole sample sequence is committed in order.
pub open spec fn commit_seq(mask: Seq<i64>, ss: Seq<PixelIntensity>, lw: u64, w: usize) -> Seq<i64>
    decreases ss.len(),
{
    if ss.len() == 0 {
        mask
    } else {
        commit_one(commit_seq(mask, ss.drop_last(), lw, w), ss.last(), lw, w)
    }
}

/// Sum of the penalty contributions of a sample sequence against `mask`.
pub open spec fn spec_line_sum(mask: Seq<i64>, ss: Seq<PixelIntensity>, lw: u64, lp: u64, w: usize) -> int
    decreases ss.len(),
{
    if ss.len() == 0 {
        0
    } else {
        let idx = flat_of(ss.last(), w);
        let c = if 0 <= idx < mask.len() {
            spec_contribution(mask[idx] as int, ss.last().1 as int, lw as int, lp as int)
        } else {
            0
        };
        spec_line_sum(mask, ss.drop_last(), lw, lp, w) + c
    }
}

/// The score of the line from `src` to `dst` in state `v`: degenerate when no
/// in-bounds sample remains, otherwise the pair (contribution sum, length)
/// standing for the mean penalty.
pub open spec fn line_score<A: LineAlgorithm>(v: PlannerView<A>, src: (i64, i64), dst: (i64, i64)) -> Score {
    let ss = trace_line_spec(v, src, dst);
    if ss.len() == 0 {
        Score::Degenerate
    } else {
        Score::Finite {
            sum: spec_line_sum(v.mask, ss, v.line_weight, v.lightness_penalty, v.width) as u128,
            len: ss.len() as usize,
        }
    }
}

/// The planner state after committing the line from `src` to `dst`.
pub open spec fn commit_line_view<A: LineAlgorithm>(
    v: PlannerView<A>,
    src: (i64, i64),
    dst: (i64, i64),
) -> PlannerView<A> {
    PlannerView { mask: commit_seq(v.mask, trace_line_spec(v, src, dst), v.line_weight, v.width), ..v }
}

/// Number of eligible candidate anchors: all anchors minus the excluded arc
/// of `2 * gap + 1` anchors centered on the current one.
pub open spec fn search_size<A: LineAlgorithm>(v: PlannerView<A>) -> int {
    v.anchors.len() - 2 * (v.anchor_gap_count as int) - 1
}

/// The `i`-th candidate anchor, scanning the ring from just past the
/// excluded arc.
pub open spec fn cand_at<A: LineAlgorithm>(v: PlannerView<A>, current: int, i: int) -> int {
    (current + v.anchor_gap_count + 1 + i) % (v.anchors.len() as int)
}

/// Score of the line from the current anchor to the `i`-th candidate.
pub open spec fn cand_score<A: LineAlgorithm>(v: PlannerView<A>, current: int, i: int) -> Score {
    line_score(v, v.anchors[current], v.anchors[cand_at(v, current, i)])
}

/// First-found minimum among the first `k` candidate scores, as the pair
/// (candidate offset, its score).
pub open spec fn best_candidate<A: LineAlgorithm>(v: PlannerView<A>, current: int, k: int) -> (int, Score)
    decreases k,
{
    if k <= 1 {
        (0, cand_score(v, current, 0))
    } else {
        let prev = best_candidate(v, current, k - 1);
        let s = cand_score(v, current, k - 1);
        if score_lt(s, prev.1) {
            (k - 1, s)
        } else {
            prev
        }
    }
}

/// The greedy choice really is the first-found minimum: no candidate scores
/// below the winner, and every candidate scanned before the winner scores
/// strictly above it, so the first of equally minimal candidates wins.
pub proof fn lemma_best_candidate_minimal<A: LineAlgorithm>(v: PlannerView<A>, current: int, k: int)
    requires
        k >= 1,
        forall|i: int| 0 <= i < k ==> score_wf(#[trigger] cand_score(v, current, i)),
    ensures
        forall|i: int|
            0 <= i < k ==> !score_lt(
                #[trigger] cand_score(v, current, i),
                best_candidate(v, current, k).1,
            ),
        forall|i: int|
            0 <= i < best_candidate(v, current, k).0 ==> score_lt(
                best_candidate(v, current, k).1,
                #[trigger] cand_score(v, current, i),
            ),
    decreases k,
{
    lemma_best_candidate_range(v, current, k);
    if k == 1 {
        crate::score::lemma_score_lt_irreflexive(cand_score(v, current, 0));
    } else {
        lemma_best_candidate_minimal(v, current, k - 1);
        let prev = best_candidate(v, current, k - 1);
        let s = cand_score(v, current, k - 1);
        let best = best_candidate(v, current, k);
        lemma_best_candidate_range(v, current, k - 1);
        lemma_best_candidate_score(v, current, k - 1);
        assert(score_wf(prev.1));
        if score_lt(s, prev.1) {
            // the newest candidate wins: everything before it scored at or
            // above the old winner, hence strictly above the new one
            assert forall|i: int| 0 <= i < k implies !score_lt(
                #[trigger] cand_score(v, current, i),
                best.1,
            ) by {
                if i < k - 1 {
                    if score_lt(cand_score(v, current, i), s) {
                        crate::score::lemma_score_lt_trans(cand_score(v, current, i), s, prev.1);
                    }
                } else {
                    crate::score::lemma_score_lt_irreflexive(s);
                }
            }
            assert forall|i: int| 0 <= i < best.0 implies score_lt(
                best.1,
                #[trigger] cand_score(v, current, i),
            ) by {
                crate::score::lemma_score_lt_compat(s, prev.1, cand_score(v, current, i));
            }
        }
    }
}

/// The winning score is the winning candidate's score.
proof fn lemma_best_candidate_score<A: LineAlgorithm>(v: PlannerView<A>, current: int, k: int)
    requires
        k >= 1,
    ensures
        best_candidate(v, current, k).1 == cand_score(v, current, best_candidate(v, current, k).0),
    decreases k,
{
    if k > 1 {
        lemma_best_candidate_score(v, current, k - 1);
    }
}

/// Whether any of the first `k` candidates has a finite (non-degenerate)
/// score.
pub open spec fn any_finite<A: LineAlgorithm>(v: PlannerView<A>, current: int, k: int) -> bool {
    exists|i: int| 0 <= i < k && !((#[trigger] cand_score(v, current, i)) is Degenerate)
}

/// The anchor the candidate search picks from `current`, or `None` when the
/// gap configuration leaves no candidate or every candidate line is
/// degenerate (no in-bounds sample).
pub open spec fn next_anchor_spec<A: LineAlgorithm>(v: PlannerView<A>, current: int) -> Option<usize> {
    if search_size(v) <= 0 {
        None
    } else if !any_finite(v, current, search_size(v)) {
        None
    } else {
        Some(cand_at(v, current, best_candidate(v, current, search_size(v)).0) as usize)
    }
}

/// The winning offset of [`best_candidate`] lies within the searched range.
pub proof fn lemma_best_candidate_range<A: LineAlgorithm>(v: PlannerView<A>, current: int, k: int)
    requires
        k >= 1,
    ensures
        0 <= best_candidate(v, current, k).0 < k,
    decreases k,
{
    if k > 1 {
        lemma_best_candidate_range(v, current, k - 1);
    }
}

/// Extending the scanned prefix by one candidate either keeps the finite
/// witness or adds the new candidate as one.
pub proof fn lemma_any_finite_step<A: LineAlgorithm>(v: PlannerView<A>, current: int, k: int)
    requires
        k >= 0,
    ensures
        any_finite(v, current, k + 1) == (any_finite(v, current, k) || !(cand_score(v, current, k)
            is Degenerate)),
{
    if any_finite(v, current, k) {
        let i = choose|i: int| 0 <= i < k && !((#[trigger] cand_score(v, current, i)) is Degenerate);
        assert(0 <= i < k + 1 && !(cand_score(v, current, i) is Degenerate));
    }
    if !(cand_score(v, current, k) is Degenerate) {
        assert(0 <= k < k + 1 && !(cand_score(v, current, k) is Degenerate));
    }
    if any_finite(v, current, k + 1) && (cand_score(v, current, k) is Degenerate) {
        let i = choose|i: int|
            0 <= i < k + 1 && !((#[trigger] cand_score(v, current, i)) is Degenerate);
        assert(0 <= i < k && !(cand_score(v, current, i) is Degenerate));
    }
}

/// A flattened index derived from an in-bounds pixel stays inside the buffer.
pub proof fn lemma_flat_range(x: int, y: int, w: int, h: int)
    by (nonlinear_arith)
    requires
        0 <= x < w,
        0 <= y < h,
    ensures
        0 <= x + y * w < w * h,
        0 <= y * w <= w * h - w,
{
}

/// A strategy for determining when to terminate the thread planner.
///
/// `done_spec` is the termination decision as a function of the strategy's
/// state, the observed subject state and the anchor order so far;
/// `advanced_spec` is the strategy's state after one consultation; and
/// `measure_spec` bounds the number of steps the strategy can still allow,
/// which makes every planning run terminate.
pub trait PlanningStrategy<Z: View>: Sized {
    /// The termination decision on the current subject state and order.
    spec fn done_spec(self, subject: <Z as View>::V, anchors: Seq<usize>) -> bool;

    /// The strategy's own state after one consultation.
    spec fn advanced_spec(self, subject: <Z as View>::V, anchors: Seq<usize>) -> Self;

    /// Upper bound on the number of consultations still to come when the
    /// order has the given length.
    spec fn measure_spec(self, anchors_len: nat) -> nat;

    /// Every step the strategy allows decreases its measure.
    proof fn lemma_measure_decreases(self, subject: <Z as View>::V, anchors: Seq<usize>)
        requires
            !self.done_spec(subject, anchors),
        ensures
            self.advanced_spec(subject, anchors).measure_spec(anchors.len() + 1)
                < self.measure_spec(anchors.len()),
    ;

    /// Consults the strategy; `true` ends the planning run.
    fn completed(&mut self, subject: &Z, anchors: &Vec<usize>) -> (r: bool)
        ensures
            r == old(self).done_spec(subject@, anchors@),
            *final(self) == old(self).advanced_spec(subject@, anchors@),
    ;
}

/// The planner state after the first `k` lines of `order` have been
/// committed.
pub open spec fn view_after<A: LineAlgorithm>(v0: PlannerView<A>, order: Seq<usize>, k: int) -> PlannerView<A>
    decreases k,
{
    if k <= 0 {
        v0
    } else {
        let prev = view_after(v0, order, k - 1);
        commit_line_view(prev, v0.anchors[order[k - 1] as int], v0.anchors[order[k] as int])
    }
}

/// Every step of `order` picks exactly the anchor the candidate search
/// returns on the planner state of that step.
pub open spec fn steps_ok<A: LineAlgorithm>(v0: PlannerView<A>, order: Seq<usize>) -> bool {
    forall|j: int|
        0 <= j < order.len() - 1 ==> next_anchor_spec(
            #[trigger] view_after(v0, order, j),
            order[j] as int,
        ) == Some(order[j + 1])
}

/// `view_after` only reads the first `k + 1` entries of the order.
pub proof fn lemma_view_after_prefix<A: LineAlgorithm>(
    v0: PlannerView<A>,
    o1: Seq<usize>,
    o2: Seq<usize>,
    k: int,
)
    requires
        k < o1.len(),
        k < o2.len(),
        o1.take(k + 1) == o2.take(k + 1),
    ensures
        view_after(v0, o1, k) == view_after(v0, o2, k),
    decreases k,
{
    if k > 0 {
        assert(o1.take(k) =~= o1.take(k + 1).take(k));
        assert(o2.take(k) =~= o2.take(k + 1).take(k));
        lemma_view_after_prefix(v0, o1, o2, k - 1);
        assert(o1[k - 1] == o1.take(k + 1)[k - 1] && o1[k] == o1.take(k + 1)[k]);
        assert(o2[k - 1] == o2.take(k + 1)[k - 1] && o2[k] == o2.take(k + 1)[k]);
    }
}

/// Greedy thread-art planner over a borrowed anchor ring and rasterizer.
pub struct ThreadPlanner<'a, A: LineAlgorithm> {
    /// Internal line weight in intensity units: `255 * opacity`, scaled.
    pub line_weight: u64,
    /// Anchor ring; the caller keeps it alive and unchanged for the run.
    pub anchors: &'a Vec<(i64, i64)>,
    /// Number of anchors excluded on each side of the current anchor.
    pub anchor_gap_count: usize,
    /// Weight of overshoot penalties, scaled.
    pub lightness_penalty: u64,
    /// The rasterization strategy.
    pub line_algorithm: &'a A,
    /// Image width in pixels.
    pub image_width: usize,
    /// Image height in pixels.
    pub image_height: usize,
    /// Inverted grayscale residual buffer, mutated by every committed line.
    pub image_mask_inverted: Vec<i64>,
}

impl<'a, A: LineAlgorithm> View for ThreadPlanner<'a, A> {
    type V = PlannerView<A>;

    open spec fn view(&self) -> PlannerView<A> {
        PlannerView {
            alg: *self.line_algorithm,
            line_weight: self.line_weight,
            anchors: self.anchors@,
            anchor_gap_count: self.anchor_gap_count,
            lightness_penalty: self.lightness_penalty,
            width: self.image_width,
            height: self.image_height,
            mask: self.image_mask_inverted@,
        }
    }
}

impl<'a, A: LineAlgorithm> ThreadPlanner<'a, A> {
    /// Well-formedness of the planner.
    pub open spec fn wf(self) -> bool {
        view_wf(self@)
    }

    /// Constructs a planner.
    ///
    /// * `line_weight` — line opacity as a fixed-point fraction in `[0, 1)`.
    /// * `anchors` — the anchor ring, fixed-point coordinate pairs.
    /// * `anchor_gap_count` — anchors to skip on each side of the current one.
    /// * `lightness_penalty` — fixed-point overshoot penalty factor.
    /// * `line_algorithm` — the rasterization strategy.
    /// * `image_width`, `image_height` — image dimensions in pixels.
    /// * `image_mask` — row-major 8-bit grayscale image, one byte per pixel.
    pub fn new(
        line_weight: u64,
        anchors: &'a Vec<(i64, i64)>,
        anchor_gap_count: usize,
        lightness_penalty: u64,
        line_algorithm: &'a A,
        image_width: usize,
        image_height: usize,
        image_mask: &Vec<u8>,
    ) -> (p: Self)
        requires
            line_weight < SCALE as u64,
            lightness_penalty <= LP_MAX,
            image_mask@.len() == image_width * image_height,
            forall|i: int| 0 <= i < anchors@.len() ==> in_pos_range(#[trigger] anchors@[i]),
        ensures
            p.wf(),
            p@.line_weight == (MAX_PIXEL as u64) * line_weight,
            p@.anchors == anchors@,
            p@.anchor_gap_count == anchor_gap_count,
            p@.lightness_penalty == lightness_penalty,
            p@.width == image_width,
            p@.height == image_height,
            p@.alg == *line_algorithm,
            p@.mask.len() == image_mask@.len(),
            forall|i: int|
                0 <= i < image_mask@.len() ==> #[trigger] p@.mask[i] == (MAX_PIXEL - image_mask@[i] as int)
                    * (SCALE as int),
    {
        // scale the opacity into the 8-bit intensity range of the buffer
        proof {
            assert((MAX_PIXEL as u64) * line_weight < (MAX_PIXEL * SCALE) as u64) by (nonlinear_arith)
                requires
                    line_weight < SCALE as u64,
            ;
        }
        let line_weight = (MAX_PIXEL as u64) * line_weight;
        let mut inverted: Vec<i64> = Vec::new();
        let mut i: usize = 0;
        while i < image_mask.len()
            invariant
                0 <= i <= image_mask@.len(),
                inverted@.len() == i,
                forall|j: int|
                    0 <= j < i ==> #[trigger] inverted@[j] == (MAX_PIXEL - image_mask@[j] as int) * (
                    SCALE as int),
            decreases image_mask@.len() - i,
        {
            let v = image_mask[i];
            inverted.push((MAX_PIXEL - v as i64) * SCALE);
            i = i + 1;
        }
        proof {
            assert forall|j: int| 0 <= j < inverted@.len() implies RES_MIN <= #[trigger] inverted@[j]
                <= RES_MAX by {
                assert(inverted@[j] == (MAX_PIXEL - image_mask@[j] as int) * (SCALE as int));
            }
        }
        ThreadPlanner {
            line_weight,
            anchors,
            anchor_gap_count,
            lightness_penalty,
            line_algorithm,
            image_width,
            image_height,
            image_mask_inverted: inverted,
        }
    }

    /// Rasterizes the line from `src` to `dst` and keeps only the in-bounds
    /// samples.
    pub fn trace_line(&self, src: (i64, i64), dst: (i64, i64)) -> (r: Vec<PixelIntensity>)
        requires
            self.wf(),
            in_pos_range(src),
            in_pos_range(dst),
        ensures
            r@ == trace_line_spec(self@, src, dst),
            forall|j: int|
                0 <= j < r@.len() ==> keep_sample(#[trigger] r@[j], self.image_width, self.image_height)
                    && r@[j].1 <= SCALE as u64,
    {
        let raw = self.line_algorithm.trace(src.0, src.1, dst.0, dst.1);
        let ghost all = raw@;
        let mut out: Vec<PixelIntensity> = Vec::new();
        let mut i: usize = 0;
        while i < raw.len()
            invariant
                0 <= i <= all.len(),
                raw@ == all,
                out@ == bounded_samples(all.take(i as int), self.image_width, self.image_height),
                forall|j: int| 0 <= j < all.len() ==> (#[trigger] all[j]).1 <= SCALE as u64,
                forall|j: int|
                    0 <= j < out@.len() ==> keep_sample(
                        #[trigger] out@[j],
                        self.image_width,
                        self.image_height,
                    ) && out@[j].1 <= SCALE as u64,
            decreases all.len() - i,
        {
            let ((sx, sy), wgt) = raw[i];
            proof {
                assert(all.take(i + 1).drop_last() =~= all.take(i as int));
                assert(all.take(i + 1).last() == all[i as int]);
            }
            if sx >= 0 && sy >= 0 && (sx as u64) < (self.image_width as u64) && (sy as u64) < (
            self.image_height as u64) {
                out.push(((sx, sy), wgt));
            }
            i = i + 1;
        }
        proof {
            assert(all.take(all.len() as int) =~= all);
        }
        out
    }

    /// Scores the line from `src` to `dst` against the current residual
    /// buffer without changing it.
    pub fn penalty(&self, src: (i64, i64), dst: (i64, i64)) -> (s: Score)
        requires
            self.wf(),
            in_pos_range(src),
            in_pos_range(dst),
        ensures
            s == line_score(self@, src, dst),
            score_wf(s),
    {
        let line = self.trace_line(src, dst);
        if line.len() == 0 {
            return Score::Degenerate;
        }
        let mut sum: u128 = 0;
        let mut i: usize = 0;
        while i < line.len()
            invariant
                self.wf(),
                0 <= i <= line@.len(),
                line@ == trace_line_spec(self@, src, dst),
                forall|j: int|
                    0 <= j < line@.len() ==> keep_sample(
                        #[trigger] line@[j],
                        self.image_width,
                        self.image_height,
                    ) && line@[j].1 <= SCALE as u64,
                sum == spec_line_sum(
                    self@.mask,
                    line@.take(i as int),
                    self.line_weight,
                    self.lightness_penalty,
                    self.image_width,
                ),
                sum <= (i as int) * (CONTRIB_MAX as int),
            decreases line@.len() - i,
        {
            let ((sx, sy), wgt) = line[i];
            let buf_len = self.image_mask_inverted.len();
            proof {
                lemma_flat_range(sx as int, sy as int, self.image_width as int, self.image_height as int);
                assert(buf_len == self@.width * self@.height);
            }
            let flat = (sx as usize) + (sy as usize) * self.image_width;
            let d = delta(wgt, self.line_weight);
            let res = self.image_mask_inverted[flat];
            let adj = res - (d as i64);
            let c: u128 = if adj >= 0 {
                adj as u128
            } else {
                proof {
                    assert((self.lightness_penalty as int) * (-(adj as int)) <= (LP_MAX as int) * ((
                    RES_MAX - RES_MIN) as int)) by (nonlinear_arith)
                        requires
                            0 <= self.lightness_penalty as int <= LP_MAX as int,
                            0 <= -(adj as int) <= (RES_MAX - RES_MIN) as int,
                    ;
                }
                ((self.lightness_penalty as u128) * ((-adj) as u128)) / (SCALE as u128)
            };
            proof {
                lemma_contribution_bounds(
                    res as int,
                    wgt as int,
                    self.line_weight as int,
                    self.lightness_penalty as int,
                );
                assert(c == spec_contribution(
                    res as int,
                    wgt as int,
                    self.line_weight as int,
                    self.lightness_penalty as int,
                ));
                assert(line@.take(i + 1).drop_last() =~= line@.take(i as int));
                assert(line@.take(i + 1).last() == line@[i as int]);
                assert(sum + c <= (i + 1) * (CONTRIB_MAX as int)) by (nonlinear_arith)
                    requires
                        sum <= (i as int) * (CONTRIB_MAX as int),
                        c <= CONTRIB_MAX as int,
                ;
                assert((i + 1) * (CONTRIB_MAX as int) <= (usize::MAX as int) * (CONTRIB_MAX as int))
                    by (nonlinear_arith)
                    requires
                        i + 1 <= usize::MAX as int,
                ;
            }
            sum = sum + c;
            i = i + 1;
        }
        proof {
            assert(line@.take(line@.len() as int) =~= line@);
            assert(0 <= spec_line_sum(
                self@.mask,
                line@,
                self.line_weight,
                self.lightness_penalty,
                self.image_width,
            ) <= u128::MAX as int);
        }
        Score::Finite { sum, len: line.len() }
    }

    /// Commits the line from `src` to `dst`, persisting the pixel changes to
    /// the residual buffer.
    pub fn apply_line(&mut self, src: (i64, i64), dst: (i64, i64))
        requires
            old(self).wf(),
            in_pos_range(src),
            in_pos_range(dst),
        ensures
            final(self)@ == commit_line_view(old(self)@, src, dst),
            final(self).wf(),
    {
        let ghost v0 = self@;
        let line = self.trace_line(src, dst);
        let mut i: usize = 0;
        while i < line.len()
            invariant
                0 <= i <= line@.len(),
                line@ == trace_line_spec(v0, src, dst),
                forall|j: int|
                    0 <= j < line@.len() ==> keep_sample(#[trigger] line@[j], v0.width, v0.height)
                        && line@[j].1 <= SCALE as u64,
                self.line_weight == v0.line_weight,
                self.anchors@ == v0.anchors,
                self.anchor_gap_count == v0.anchor_gap_count,
                self.lightness_penalty == v0.lightness_penalty,
                self.image_width == v0.width,
                self.image_height == v0.height,
                *self.line_algorithm == v0.alg,
                view_wf(v0),
                self.image_mask_inverted@ == commit_seq(
                    v0.mask,
                    line@.take(i as int),
                    v0.line_weight,
                    v0.width,
                ),
                self.wf(),
            decreases line@.len() - i,
        {
            let ((sx, sy), wgt) = line[i];
            let buf_len = self.image_mask_inverted.len();
            proof {
                lemma_flat_range(sx as int, sy as int, self.image_width as int, self.image_height as int);
                assert(buf_len == self@.width * self@.height);
                assert(line@.take(i + 1).drop_last() =~= line@.take(i as int));
                assert(line@.take(i + 1).last() == line@[i as int]);
            }
            let flat = (sx as usize) + (sy as usize) * self.image_width;
            let d = delta(wgt, self.line_weight);
            let res = self.image_mask_inverted[flat];
            let nv = res - (d as i64);
            let nv = if nv < RES_MIN {
                RES_MIN
            } else {
                nv
            };
            self.image_mask_inverted[flat] = nv;
            i = i + 1;
        }
        proof {
            assert(line@.take(line@.len() as int) =~= line@);
            assert(self@ =~= commit_line_view(v0, src, dst));
        }
    }

    /// Finds the next thread anchor on the perimeter from the current one:
    /// the first eligible candidate with the smallest mean penalty.  Returns
    /// `None` when no candidate exists or every candidate is degenerate.
    pub fn next_anchor(&self, current: usize) -> (r: Option<usize>)
        requires
            self.wf(),
            current < self.anchors@.len(),
        ensures
            r == next_anchor_spec(self@, current as int),
    {
        let n = self.anchors.len();
        let gap = self.anchor_gap_count;
        // ignore `gap` anchors on both sides of the current anchor while
        // searching the remaining anchor ring
        if 2 * (gap as u128) + 1 >= n as u128 {
            return None;
        }
        let ss = n - 2 * gap - 1;
        let current_pos = *vstd::slice::slice_index_get(self.anchors.as_slice(), current);
        let c0 = cand_index(current, gap, 0, n);
        let mut best_i: usize = 0;
        let mut best_s = self.penalty(current_pos, *vstd::slice::slice_index_get(self.anchors.as_slice(), c0));
        let mut saw_finite = !best_s.is_degenerate();
        proof {
            lemma_any_finite_step(self@, current as int, 0);
            assert(!any_finite(self@, current as int, 0));
        }
        let mut i: usize = 1;
        while i < ss
            invariant
                self.wf(),
                current < n,
                n == self.anchors@.len(),
                gap == self.anchor_gap_count,
                2 * (gap as int) + 1 < n as int,
                ss == search_size(self@),
                current_pos == self.anchors@[current as int],
                1 <= i <= ss,
                (best_i as int, best_s) == best_candidate(self@, current as int, i as int),
                score_wf(best_s),
                saw_finite == any_finite(self@, current as int, i as int),
            decreases ss - i,
        {
            let c = cand_index(current, gap, i, n);
            let s = self.penalty(current_pos, *vstd::slice::slice_index_get(self.anchors.as_slice(), c));
            proof {
                lemma_any_finite_step(self@, current as int, i as int);
                assert(s == cand_score(self@, current as int, i as int));
            }
            if !s.is_degenerate() {
                saw_finite = true;
            }
            if score_is_lt(&s, &best_s) {
                best_i = i;
                best_s = s;
            }
            i = i + 1;
        }
        if saw_finite {
            proof {
                lemma_best_candidate_range(self@, current as int, ss as int);
            }
            Some(cand_index(current, gap, best_i, n))
        } else {
            None
        }
    }

    /// The strategy's state after its first `k` consultations along `order`.
    pub open spec fn strat_after<P: PlanningStrategy<Self>>(
        s0: P,
        v0: PlannerView<A>,
        order: Seq<usize>,
        k: int,
    ) -> P
        decreases k,
    {
        if k <= 0 {
            s0
        } else {
            let prev = Self::strat_after(s0, v0, order, k - 1);
            prev.advanced_spec(view_after(v0, order, k - 1), order.take(k))
        }
    }

    /// The first `upto` consultations of the strategy along `order` all said
    /// "keep going".
    pub open spec fn checks_false<P: PlanningStrategy<Self>>(
        s0: P,
        v0: PlannerView<A>,
        order: Seq<usize>,
        upto: int,
    ) -> bool {
        forall|l: int|
            0 <= l < upto ==> !(#[trigger] Self::strat_after(s0, v0, order, l)).done_spec(
                view_after(v0, order, l),
                order.take(l + 1),
            )
    }

    /// A successful planning run: `order` starts at `start`, every step picks
    /// the candidate-search anchor, the strategy allowed every step, and the
    /// final consultation ended the run.
    pub open spec fn plan_ok<P: PlanningStrategy<Self>>(
        v0: PlannerView<A>,
        s0: P,
        start: usize,
        order: Seq<usize>,
    ) -> bool {
        &&& order.len() >= 1
        &&& order[0] == start
        &&& forall|j: int| 0 <= j < order.len() ==> (#[trigger] order[j]) < v0.anchors.len()
        &&& steps_ok(v0, order)
        &&& Self::checks_false(s0, v0, order, order.len() - 1)
        &&& Self::strat_after(s0, v0, order, order.len() - 1).done_spec(
            view_after(v0, order, order.len() - 1),
            order,
        )
    }

    /// An exhausted planning run: the strategy allowed every step but the
    /// candidate search found no next anchor from the last anchor of the
    /// partial order.
    pub open spec fn plan_err<P: PlanningStrategy<Self>>(
        v0: PlannerView<A>,
        s0: P,
        start: usize,
        partial: Seq<usize>,
    ) -> bool {
        &&& partial.len() >= 1
        &&& partial[0] == start
        &&& forall|j: int| 0 <= j < partial.len() ==> (#[trigger] partial[j]) < v0.anchors.len()
        &&& steps_ok(v0, partial)
        &&& Self::checks_false(s0, v0, partial, partial.len() as int)
        &&& next_anchor_spec(
            view_after(v0, partial, partial.len() - 1),
            partial.last() as int,
        ) is None
    }

    /// `strat_after` only reads the first `k` entries of the order.
    pub proof fn lemma_strat_after_prefix<P: PlanningStrategy<Self>>(
        s0: P,
        v0: PlannerView<A>,
        o1: Seq<usize>,
        o2: Seq<usize>,
        k: int,
    )
        requires
            k <= o1.len(),
            k <= o2.len(),
            o1.take(k) == o2.take(k),
        ensures
            Self::strat_after(s0, v0, o1, k) == Self::strat_after(s0, v0, o2, k),
        decreases k,
    {
        if k > 0 {
            assert(o1.take(k - 1) =~= o1.take(k).take(k - 1));
            assert(o2.take(k - 1) =~= o2.take(k).take(k - 1));
            Self::lemma_strat_after_prefix(s0, v0, o1, o2, k - 1);
            lemma_view_after_prefix(v0, o1, o2, k - 1);
        }
    }

    /// Runs the planner from `start_anchor` until the strategy signals
    /// completion, returning the ordered anchor sequence of the run.  When no
    /// eligible next anchor exists, the partial order accumulated so far is
    /// returned as the error payload.
    pub fn get_moves<P: PlanningStrategy<Self>>(&mut self, start_anchor: usize, strategy: P) -> (r:
        Result<Vec<usize>, PlanError>)
        requires
            old(self).wf(),
            start_anchor < old(self).anchors@.len(),
        ensures
            final(self).wf(),
            match r {
                Ok(order) => Self::plan_ok(old(self)@, strategy, start_anchor, order@)
                    && final(self)@ == view_after(old(self)@, order@, order@.len() - 1),
                Err(e) => Self::plan_err(old(self)@, strategy, start_anchor, e.partial@)
                    && final(self)@ == view_after(old(self)@, e.partial@, e.partial@.len() - 1),
            },
    {
        let ghost v0 = self@;
        let ghost s0 = strategy;
        let mut strat = strategy;
        let mut anchor = start_anchor;
        let mut anchor_order: Vec<usize> = Vec::new();
        anchor_order.push(start_anchor);
        loop
            invariant
                v0 == old(self)@,
                s0 == strategy,
                self.wf(),
                anchor_order@.len() >= 1,
                anchor_order@[0] == start_anchor,
                anchor == anchor_order@.last(),
                anchor < self@.anchors.len(),
                self@.anchors == v0.anchors,
                forall|j: int|
                    0 <= j < anchor_order@.len() ==> (#[trigger] anchor_order@[j])
                        < v0.anchors.len(),
                steps_ok(v0, anchor_order@),
                Self::checks_false(s0, v0, anchor_order@, anchor_order@.len() - 1),
                strat == Self::strat_after(s0, v0, anchor_order@, anchor_order@.len() - 1),
                self@ == view_after(v0, anchor_order@, anchor_order@.len() - 1),
            decreases strat.measure_spec(anchor_order@.len() as nat),
        {
            let ghost strat_before = strat;
            let ghost order_before = anchor_order@;
            let done = strat.completed(&*self, &anchor_order);
            proof {
                assert(order_before.take(order_before.len() as int) =~= order_before);
            }
            if done {
                return Ok(anchor_order);
            }
            let next = match self.next_anchor(anchor) {
                Some(a) => a,
                None => {
                    proof {
                        assert forall|l: int| 0 <= l < order_before.len() implies !(
                        #[trigger] Self::strat_after(s0, v0, order_before, l)).done_spec(
                            view_after(v0, order_before, l),
                            order_before.take(l + 1),
                        ) by {
                            if l < order_before.len() - 1 {
                            } else {
                                assert(Self::strat_after(s0, v0, order_before, l) == strat_before);
                                assert(order_before.take(l + 1) == order_before);
                            }
                        }
                    }
                    return Err(PlanError { partial: anchor_order });
                },
            };
            let src = *vstd::slice::slice_index_get(self.anchors.as_slice(), anchor);
            let dst = *vstd::slice::slice_index_get(self.anchors.as_slice(), next);
            self.apply_line(src, dst);
            anchor = next;
            anchor_order.push(next);
            proof {
                let order2 = anchor_order@;
                let len = order_before.len() as int;
                assert(order2.take(len) =~= order_before);
                assert(order_before.take(len) =~= order_before);
                assert(order2.take(len + 1) =~= order2);
                assert forall|l: int| 0 <= l <= len implies order2.take(l)
                    =~= order_before.take(l) by {
                }
                assert(order2.last() == next);
                // the committed planner state is the trace state one step on
                lemma_view_after_prefix(v0, order_before, order2, len - 1);
                assert(view_after(v0, order2, len) == commit_line_view(
                    view_after(v0, order2, len - 1),
                    v0.anchors[order2[len - 1] as int],
                    v0.anchors[order2[len] as int],
                ));
                assert(self@ == view_after(v0, order2, len));
                // the candidate search fixed the appended anchor
                assert forall|j: int| 0 <= j < order2.len() - 1 implies next_anchor_spec(
                    #[trigger] view_after(v0, order2, j),
                    order2[j] as int,
                ) == Some(order2[j + 1]) by {
                    lemma_view_after_prefix(v0, order_before, order2, j);
                    if j < len - 1 {
                        assert(view_after(v0, order2, j) == view_after(v0, order_before, j));
                        assert(order2[j] == order_before[j] && order2[j + 1] == order_before[j + 1]);
                    } else {
                        assert(view_after(v0, order2, j) == view_after(v0, order_before, len - 1));
                    }
                }
                // the strategy state is the trace state one consultation on
                Self::lemma_strat_after_prefix(s0, v0, order_before, order2, len - 1);
                assert(Self::strat_after(s0, v0, order2, len) == Self::strat_after(
                    s0,
                    v0,
                    order2,
                    len - 1,
                ).advanced_spec(view_after(v0, order2, len - 1), order2.take(len)));
                assert(strat == Self::strat_after(s0, v0, order2, len));
                // the checks so far all said "keep going"
                assert forall|l: int| 0 <= l < order2.len() - 1 implies !(
                #[trigger] Self::strat_after(s0, v0, order2, l)).done_spec(
                    view_after(v0, order2, l),
                    order2.take(l + 1),
                ) by {
                    Self::lemma_strat_after_prefix(s0, v0, order_before, order2, l);
                    lemma_view_after_prefix(v0, order_before, order2, l);
                    assert(order2.take(l + 1) =~= order_before.take(l + 1));
                    if l < len - 1 {
                    } else {
                        assert(Self::strat_after(s0, v0, order2, l) == strat_before);
                        assert(order2.take(l + 1) == order_before);
                    }
                }
                // the measure of the advanced strategy has dropped
                strat_before.lemma_measure_decreases(
                    view_after(v0, order_before, len - 1),
                    order_before,
                );
            }
        }
    }
}

/// A failed planning run: no eligible next anchor existed.  Carries the
/// partial anchor order accumulated before the search was exhausted.
#[derive(Debug)]
pub struct PlanError {
    /// The anchors chosen before the run failed, starting with the start
    /// anchor.
    pub partial: Vec<usize>,
}

/// Every sample the bounds filter keeps lies inside the image.
proof fn lemma_bounded_samples_in_bounds(s: Seq<PixelIntensity>, w: usize, h: usize)
    ensures
        forall|j: int|
            0 <= j < bounded_samples(s, w, h).len() ==> keep_sample(
                #[trigger] bounded_samples(s, w, h)[j],
                w,
                h,
            ),
    decreases s.len(),
{
    if s.len() > 0 {
        lemma_bounded_samples_in_bounds(s.drop_last(), w, h);
        let rest = bounded_samples(s.drop_last(), w, h);
        let b = bounded_samples(s, w, h);
        if keep_sample(s.last(), w, h) {
            assert(b == rest.push(s.last()));
            assert forall|j: int| 0 <= j < b.len() implies keep_sample(#[trigger] b[j], w, h) by {
                if j < rest.len() {
                    assert(b[j] == rest[j]);
                } else {
                    assert(b[j] == s.last());
                }
            }
        }
    }
}

/// Bounds safety: every sample a line contributes to scoring or committing
/// addresses a pixel inside the image, at a flattened index inside the
/// residual buffer.
pub proof fn lemma_trace_line_in_bounds<A: LineAlgorithm>(
    v: PlannerView<A>,
    src: (i64, i64),
    dst: (i64, i64),
)
    requires
        view_wf(v),
    ensures
        forall|j: int|
            0 <= j < trace_line_spec(v, src, dst).len() ==> keep_sample(
                #[trigger] trace_line_spec(v, src, dst)[j],
                v.width,
                v.height,
            ) && 0 <= flat_of(trace_line_spec(v, src, dst)[j], v.width) < v.mask.len(),
{
    let ss = trace_line_spec(v, src, dst);
    lemma_bounded_samples_in_bounds(v.alg.samples(src.0, src.1, dst.0, dst.1), v.width, v.height);
    assert forall|j: int| 0 <= j < ss.len() implies keep_sample(#[trigger] ss[j], v.width, v.height)
        && 0 <= flat_of(ss[j], v.width) < v.mask.len() by {
        lemma_flat_range(ss[j].0.0 as int, ss[j].0.1 as int, v.width as int, v.height as int);
    }
}

/// Whether any sample of `ss` lands on flattened buffer index `p`.
pub open spec fn touches(ss: Seq<PixelIntensity>, w: usize, p: int) -> bool {
    exists|j: int| 0 <= j < ss.len() && flat_of(#[trigger] ss[j], w) == p
}

/// Committing preserves the buffer length.
pub proof fn lemma_commit_len(mask: Seq<i64>, ss: Seq<PixelIntensity>, lw: u64, w: usize)
    ensures
        commit_seq(mask, ss, lw, w).len() == mask.len(),
    decreases ss.len(),
{
    if ss.len() > 0 {
        lemma_commit_len(mask, ss.drop_last(), lw, w);
    }
}

/// Bounds safety of a commit: a pixel no sample lands on is never written.
pub proof fn lemma_commit_untouched(mask: Seq<i64>, ss: Seq<PixelIntensity>, lw: u64, w: usize, p: int)
    requires
        !touches(ss, w, p),
        0 <= p < mask.len(),
    ensures
        commit_seq(mask, ss, lw, w)[p] == mask[p],
    decreases ss.len(),
{
    lemma_commit_len(mask, ss, lw, w);
    if ss.len() > 0 {
        assert forall|j: int| 0 <= j < ss.drop_last().len() implies flat_of(
            #[trigger] ss.drop_last()[j],
            w,
        ) != p by {
            assert(ss.drop_last()[j] == ss[j]);
        }
        lemma_commit_untouched(mask, ss.drop_last(), lw, w, p);
        lemma_commit_len(mask, ss.drop_last(), lw, w);
        assert(flat_of(ss.last(), w) != p) by {
            assert(ss.last() == ss[ss.len() - 1]);
        }
    }
}

/// Monotonic debt reduction, weak form: committing never increases a
/// residual, and never drives one below the buffer floor it starts above.
pub proof fn lemma_commit_bounds(mask: Seq<i64>, ss: Seq<PixelIntensity>, lw: u64, w: usize)
    requires
        forall|i: int| 0 <= i < mask.len() ==> #[trigger] mask[i] >= RES_MIN,
        forall|j: int| 0 <= j < ss.len() ==> (#[trigger] ss[j]).1 <= SCALE as u64,
        lw < (MAX_PIXEL * SCALE) as u64,
    ensures
        commit_seq(mask, ss, lw, w).len() == mask.len(),
        forall|p: int|
            0 <= p < mask.len() ==> RES_MIN <= #[trigger] commit_seq(mask, ss, lw, w)[p] <= mask[p],
    decreases ss.len(),
{
    lemma_commit_len(mask, ss, lw, w);
    if ss.len() > 0 {
        assert forall|j: int| 0 <= j < ss.drop_last().len() implies (#[trigger] ss.drop_last()[j]).1
            <= SCALE as u64 by {
            assert(ss.drop_last()[j] == ss[j]);
        }
        lemma_commit_bounds(mask, ss.drop_last(), lw, w);
        let inner = commit_seq(mask, ss.drop_last(), lw, w);
        let s = ss.last();
        assert(s == ss[ss.len() - 1]);
        crate::fixed::lemma_delta_bounds(s.1 as int, lw as int);
    }
}

/// Monotonic debt reduction, exact form: when sample `t` is the only one of
/// the line landing on its pixel and the floor is not hit, that pixel's
/// residual drops by exactly the sample's weight times the line weight.
pub proof fn lemma_commit_touched_once(
    mask: Seq<i64>,
    ss: Seq<PixelIntensity>,
    lw: u64,
    w: usize,
    t: int,
)
    requires
        0 <= t < ss.len(),
        0 <= flat_of(ss[t], w) < mask.len(),
        forall|j: int| 0 <= j < ss.len() && j != t ==> flat_of(#[trigger] ss[j], w) != flat_of(ss[t], w),
        mask[flat_of(ss[t], w)] - spec_delta(ss[t].1 as int, lw as int) >= RES_MIN as int,
    ensures
        commit_seq(mask, ss, lw, w)[flat_of(ss[t], w)] == mask[flat_of(ss[t], w)] - spec_delta(
            ss[t].1 as int,
            lw as int,
        ),
    decreases ss.len(),
{
    let idx = flat_of(ss[t], w);
    lemma_commit_len(mask, ss.drop_last(), lw, w);
    if t == ss.len() - 1 {
        assert(!touches(ss.drop_last(), w, idx)) by {
            if touches(ss.drop_last(), w, idx) {
                let j = choose|j: int|
                    0 <= j < ss.drop_last().len() && flat_of(#[trigger] ss.drop_last()[j], w) == idx;
                assert(ss.drop_last()[j] == ss[j]);
            }
        }
        lemma_commit_untouched(mask, ss.drop_last(), lw, w, idx);
        assert(ss.last() == ss[t]);
    } else {
        assert forall|j: int| 0 <= j < ss.drop_last().len() && j != t implies flat_of(
            #[trigger] ss.drop_last()[j],
            w,
        ) != flat_of(ss.drop_last()[t], w) by {
            assert(ss.drop_last()[j] == ss[j] && ss.drop_last()[t] == ss[t]);
        }
        assert(ss.drop_last()[t] == ss[t]);
        lemma_commit_touched_once(mask, ss.drop_last(), lw, w, t);
        assert(ss.last() == ss[ss.len() - 1]);
        assert(flat_of(ss.last(), w) != idx);
    }
}

/// Circular distance between two anchor indices on a ring of `n` anchors.
pub open spec fn circ_dist(a: int, b: int, n: int) -> int {
    let fwd = (b - a) % n;
    let bwd = (a - b) % n;
    if fwd <= bwd {
        fwd
    } else {
        bwd
    }
}

/// Gap exclusion: the candidate search never returns an anchor within the
/// configured circular gap of the current anchor.
pub proof fn lemma_gap_exclusion<A: LineAlgorithm>(v: PlannerView<A>, current: int, chosen: usize)
    requires
        0 <= current < v.anchors.len(),
        v.anchors.len() <= usize::MAX,
        next_anchor_spec(v, current) == Some(chosen),
    ensures
        circ_dist(current, chosen as int, v.anchors.len() as int) > v.anchor_gap_count,
{
    let n = v.anchors.len() as int;
    let gap = v.anchor_gap_count as int;
    let ss = search_size(v);
    lemma_best_candidate_range(v, current, ss);
    let bi = best_candidate(v, current, ss).0;
    let o = gap + 1 + bi;
    let c = chosen as int;
    vstd::arithmetic::div_mod::lemma_mod_bound(current + o, n);
    assert(cand_at(v, current, bi) == (current + o) % n);
    assert(c == (current + o) % n);
    assert(1 <= o <= n - gap - 1);
    vstd::arithmetic::div_mod::lemma_fundamental_div_mod(current + o, n);
    let k = (current + o) / n;
    assert(c == current + o - n * k);
    // forward distance: (c - current) % n == o
    vstd::arithmetic::div_mod::lemma_mod_multiples_vanish(-k, o, n);
    assert(n * -k + o == c - current) by (nonlinear_arith)
        requires
            c == current + o - n * k,
    ;
    vstd::arithmetic::div_mod::lemma_small_mod(o as nat, n as nat);
    assert((c - current) % n == o);
    // backward distance: (current - c) % n == n - o
    vstd::arithmetic::div_mod::lemma_mod_multiples_vanish(k - 1, n - o, n);
    assert(n * (k - 1) + (n - o) == current - c) by (nonlinear_arith)
        requires
            c == current + o - n * k,
    ;
    vstd::arithmetic::div_mod::lemma_small_mod((n - o) as nat, n as nat);
    assert((current - c) % n == n - o);
}

impl<'a, A: LineAlgorithm> ThreadPlanner<'a, A> {
    /// Two orders that both follow the greedy step relation from the same
    /// start agree on every common prefix.
    proof fn lemma_plan_prefix_agree(v0: PlannerView<A>, r1: Seq<usize>, r2: Seq<usize>, j: int)
        requires
            steps_ok(v0, r1),
            steps_ok(v0, r2),
            r1.len() >= 1,
            r2.len() >= 1,
            r1[0] == r2[0],
            0 <= j,
            j < r1.len(),
            j < r2.len(),
        ensures
            r1.take(j + 1) == r2.take(j + 1),
        decreases j,
    {
        if j == 0 {
            assert(r1.take(1) =~= r2.take(1));
        } else {
            Self::lemma_plan_prefix_agree(v0, r1, r2, j - 1);
            lemma_view_after_prefix(v0, r1, r2, j - 1);
            assert(r1[j - 1] == r1.take(j)[j - 1] && r2[j - 1] == r2.take(j)[j - 1]);
            assert(next_anchor_spec(view_after(v0, r1, j - 1), r1[j - 1] as int) == Some(r1[j]));
            assert(next_anchor_spec(view_after(v0, r2, j - 1), r2[j - 1] as int) == Some(r2[j]));
            assert(r1[j] == r2[j]);
            assert(r1.take(j + 1) =~= r2.take(j + 1)) by {
                assert(forall|l: int|
                    0 <= l < j ==> r1.take(j + 1)[l] == r1.take(j)[l] && r2.take(j + 1)[l]
                        == r2.take(j)[l]);
            }
        }
    }

    /// Determinism: from one planner state, strategy and start anchor there
    /// is exactly one successful anchor order.
    pub proof fn lemma_plan_deterministic<P: PlanningStrategy<Self>>(
        v0: PlannerView<A>,
        s0: P,
        start: usize,
        r1: Seq<usize>,
        r2: Seq<usize>,
    )
        requires
            Self::plan_ok(v0, s0, start, r1),
            Self::plan_ok(v0, s0, start, r2),
        ensures
            r1 == r2,
    {
        let n1 = r1.len() as int;
        let n2 = r2.len() as int;
        Self::lemma_plan_no_strict_prefix(v0, s0, start, r1, r2);
        Self::lemma_plan_no_strict_prefix(v0, s0, start, r2, r1);
        assert(n1 == n2);
        Self::lemma_plan_prefix_agree(v0, r1, r2, n1 - 1);
        assert(r1.take(n1) =~= r1);
        assert(r2.take(n2) =~= r2);
    }

    /// A successful run cannot be a strict prefix of another: the strategy
    /// would have had to say both "done" and "keep going" on the same state.
    proof fn lemma_plan_no_strict_prefix<P: PlanningStrategy<Self>>(
        v0: PlannerView<A>,
        s0: P,
        start: usize,
        r1: Seq<usize>,
        r2: Seq<usize>,
    )
        requires
            Self::plan_ok(v0, s0, start, r1),
            Self::plan_ok(v0, s0, start, r2),
        ensures
            r1.len() >= r2.len(),
    {
        if r1.len() >= r2.len() {
            return;
        }
        let n1 = r1.len() as int;
        Self::lemma_plan_prefix_agree(v0, r1, r2, n1 - 1);
        assert(r1.take(n1) =~= r1);
        assert(r2.take(n1) == r1);
        assert(r1.take(n1 - 1) =~= r1.take(n1).take(n1 - 1));
        assert(r2.take(n1 - 1) =~= r2.take(n1).take(n1 - 1));
        Self::lemma_strat_after_prefix(s0, v0, r1, r2, n1 - 1);
        lemma_view_after_prefix(v0, r1, r2, n1 - 1);
        // the final consultation of the shorter run said "done"
        assert(Self::strat_after(s0, v0, r1, n1 - 1).done_spec(view_after(v0, r1, n1 - 1), r1));
        // ... but the longer run records the very same consultation as "keep going"
        assert(!Self::strat_after(s0, v0, r2, n1 - 1).done_spec(
            view_after(v0, r2, n1 - 1),
            r2.take(n1),
        ));
    }
}

/// The `i`-th candidate anchor index on a ring of `n` anchors, scanning from
/// just past the excluded arc around `current`.
fn cand_index(current: usize, gap: usize, i: usize, n: usize) -> (c: usize)
    requires
        n >= 1,
    ensures
        c as int == (current + gap + 1 + i) % (n as int),
        c < n,
{
    let m = ((current as u128) + (gap as u128) + 1 + (i as u128)) % (n as u128);
    proof {
        vstd::arithmetic::div_mod::lemma_mod_bound(
            (current as u128 + gap as u128 + 1 + i as u128) as int,
            n as int,
        );
    }
    m as usize
}

} // verus!
