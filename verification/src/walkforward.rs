//! Walk-forward scheduling: which bars each in-sample / out-of-sample fold
//! covers.
//!
//! Bars are replayed in chronological order. Starting at the earliest bar,
//! each step places an in-sample window followed directly by an
//! out-of-sample window, then advances by one out-of-sample span. Steps stop
//! once the out-of-sample window would end more than one day after the last
//! bar. A step whose windows hold no bar is skipped; the others become folds,
//! numbered from zero. Spans are added the way `chrono` adds days: an instant
//! inside a leap second is first moved to the same fraction of the second
//! before it (see `time::without_leap`).

use vstd::prelude::*;

use crate::sort::{
    earliest, is_lower_bound, is_sorted, is_stable_order, latest, lemma_stable_order_extremes,
    lemma_stable_order_sorts, lower_bound, reorder, stable_order,
};
use crate::time::{
    is_valid_instant, strip_leap, without_leap, Timestamp, KEYS_PER_DAY, MAX_SPAN_DAYS, MAX_TIMESTAMP,
};

verus! {

/// Window-construction strategy for walk-forward analysis.
#[derive(Debug, Clone, Copy, PartialEq, Eq, Structural)]
pub enum WindowMode {
    /// Each in-sample window has the same length; the start moves forward.
    Rolling,
    /// In-sample window starts at the beginning and grows on each iteration.
    Expanding,
}

/// Configuration for a walk-forward run.
pub struct WalkForward {
    in_sample_days: i64,
    out_sample_days: i64,
    mode: WindowMode,
}

/// One fold: its window boundaries and the bars (positions in chronological
/// order, half-open ranges) that fall inside each window.
#[derive(Debug, Clone, Copy, PartialEq, Eq, Structural)]
pub struct FoldPlan {
    pub fold: usize,
    pub in_sample_start: Timestamp,
    pub in_sample_end: Timestamp,
    pub out_sample_start: Timestamp,
    pub out_sample_end: Timestamp,
    /// Bars `in_sample_from..in_sample_to` form the in-sample window.
    pub in_sample_from: usize,
    pub in_sample_to: usize,
    /// Bars `out_sample_from..out_sample_to` form the out-of-sample window.
    pub out_sample_from: usize,
    pub out_sample_to: usize,
}

/// The chronological order of the bars and the folds over it.
pub struct WalkForwardPlan {
    /// `order[k]` is the position, in the input, of the `k`-th bar in time.
    pub order: Vec<usize>,
    pub folds: Vec<FoldPlan>,
}

/// Why no plan can be made.
#[derive(Debug, Clone, Copy, PartialEq, Eq, Structural)]
pub enum PlanError {
    /// There are no bars at all.
    NoBars,
    /// A window length in days is longer than a duration can hold.
    SpanOutOfRange,
    /// A window boundary would fall after the last representable instant.
    CalendarOverflow,
}

/// Some bar of the sorted sequence lies in `[a, b)`.
pub open spec fn has_bar_in(ts: Seq<i128>, a: int, b: int) -> bool {
    exists|i: int| 0 <= i < ts.len() && a <= #[trigger] ts[i] < b
}

/// Number of steps taken from `first` before the out-of-sample window would
/// end after `limit`.
pub open spec fn step_count(first: int, limit: int, is_ns: int, oos_ns: int) -> nat {
    if limit < first + is_ns + oos_ns {
        0
    } else {
        ((limit - first - is_ns - oos_ns) / oos_ns + 1) as nat
    }
}

impl WalkForward {
    #[verifier::type_invariant]
    spec fn well_formed(self) -> bool {
        self.in_sample_days > 0 && self.out_sample_days > 0
    }

    pub closed spec fn in_sample_days(self) -> int {
        self.in_sample_days as int
    }

    pub closed spec fn out_sample_days(self) -> int {
        self.out_sample_days as int
    }

    pub closed spec fn mode(self) -> WindowMode {
        self.mode
    }

    /// In-sample length, in keys.
    pub open spec fn is_span(self) -> int {
        self.in_sample_days() * KEYS_PER_DAY
    }

    /// Out-of-sample length (and step), in keys.
    pub open spec fn oos_span(self) -> int {
        self.out_sample_days() * KEYS_PER_DAY
    }

    pub open spec fn spans_in_range(self) -> bool {
        self.in_sample_days() <= MAX_SPAN_DAYS && self.out_sample_days() <= MAX_SPAN_DAYS
    }

    /// Start of step `j` over bars running from `first`: the first bar's
    /// instant, advanced by `j` out-of-sample spans.
    pub open spec fn step_start(self, first: int, j: int) -> int {
        if j == 0 {
            first
        } else {
            without_leap(first) + j * self.oos_span()
        }
    }

    pub open spec fn window_in_start(self, first: int, j: int) -> int {
        match self.mode() {
            WindowMode::Rolling => self.step_start(first, j),
            WindowMode::Expanding => first,
        }
    }

    pub open spec fn window_in_end(self, first: int, j: int) -> int {
        without_leap(first) + j * self.oos_span() + self.is_span()
    }

    pub open spec fn window_out_end(self, first: int, j: int) -> int {
        self.window_in_end(first, j) + self.oos_span()
    }

    /// Number of steps over bars spanning `[first, last]`.
    pub open spec fn steps(self, first: int, last: int) -> nat {
        step_count(without_leap(first), without_leap(last) + KEYS_PER_DAY, self.is_span(), self.oos_span())
    }

    /// Every boundary the schedule computes is a representable instant.
    pub open spec fn fits_calendar(self, first: int, last: int) -> bool {
        &&& without_leap(last) + KEYS_PER_DAY <= MAX_TIMESTAMP
        &&& self.window_out_end(first, self.steps(first, last) as int) <= MAX_TIMESTAMP
    }

    /// Step `j` over the sorted bars `ts` has a bar in both windows.
    pub open spec fn step_yields_fold(self, ts: Seq<i128>, j: int) -> bool {
        let first = ts[0] as int;
        &&& has_bar_in(ts, self.window_in_start(first, j), self.window_in_end(first, j))
        &&& has_bar_in(ts, self.window_in_end(first, j), self.window_out_end(first, j))
    }

    /// Indices of the steps, among the first `count`, that become folds.
    pub open spec fn fold_steps(self, ts: Seq<i128>, count: nat) -> Seq<int> {
        Seq::new(count, |x: int| x).filter(|x: int| self.step_yields_fold(ts, x))
    }

    /// `f` is fold number `k`, taken at step `j`, over the sorted bars `ts`.
    pub open spec fn is_fold_at(self, ts: Seq<i128>, f: FoldPlan, k: int, j: int) -> bool {
        let first = ts[0] as int;
        &&& f.fold == k
        &&& f.in_sample_start == self.window_in_start(first, j)
        &&& f.in_sample_end == self.window_in_end(first, j)
        &&& f.out_sample_start == self.window_in_end(first, j)
        &&& f.out_sample_end == self.window_out_end(first, j)
        &&& is_lower_bound(ts, f.in_sample_start as int, f.in_sample_from as int)
        &&& is_lower_bound(ts, f.in_sample_end as int, f.in_sample_to as int)
        &&& is_lower_bound(ts, f.out_sample_start as int, f.out_sample_from as int)
        &&& is_lower_bound(ts, f.out_sample_end as int, f.out_sample_to as int)
    }

    /// The folds over the sorted bars `ts`, in step order.
    pub open spec fn is_schedule(self, ts: Seq<i128>, folds: Seq<FoldPlan>) -> bool {
        let steps = self.fold_steps(ts, self.steps(ts[0] as int, ts.last() as int));
        &&& folds.len() == steps.len()
        &&& forall|k: int| 0 <= k < folds.len() ==> self.is_fold_at(ts, #[trigger] folds[k], k, steps[k])
    }

    pub fn new(in_sample_days: i64, out_sample_days: i64) -> (r: Self)
        requires
            in_sample_days > 0,
            out_sample_days > 0,
        ensures
            r.in_sample_days() == in_sample_days,
            r.out_sample_days() == out_sample_days,
            r.mode() == WindowMode::Rolling,
    {
        WalkForward { in_sample_days, out_sample_days, mode: WindowMode::Rolling }
    }

    pub fn with_mode(self, mode: WindowMode) -> (r: Self)
        ensures
            r.in_sample_days() == self.in_sample_days(),
            r.out_sample_days() == self.out_sample_days(),
            r.mode() == mode,
    {
        proof {
            use_type_invariant(&self);
        }
        WalkForward { in_sample_days: self.in_sample_days, out_sample_days: self.out_sample_days, mode }
    }

    proof fn lemma_fold_steps_push(self, ts: Seq<i128>, j: nat)
        ensures
            self.fold_steps(ts, j + 1) == if self.step_yields_fold(ts, j as int) {
                self.fold_steps(ts, j).push(j as int)
            } else {
                self.fold_steps(ts, j)
            },
    {
        let s1 = Seq::new(j + 1, |x: int| x);
        let s0 = Seq::new(j, |x: int| x);
        assert(s1.drop_last() =~= s0);
        assert(s1.last() == j);
        reveal(Seq::filter);
    }

    /// Plans the folds over bars with the given instants (in any order).
    pub fn plan(&self, timestamps: &Vec<Timestamp>) -> (r: Result<WalkForwardPlan, PlanError>)
        requires
            forall|i: int| 0 <= i < timestamps@.len() ==> is_valid_instant(#[trigger] timestamps@[i] as int),
        ensures
            match r {
                Err(PlanError::NoBars) => timestamps@.len() == 0,
                Err(PlanError::SpanOutOfRange) => timestamps@.len() > 0 && !self.spans_in_range(),
                Err(PlanError::CalendarOverflow) => {
                    &&& timestamps@.len() > 0
                    &&& self.spans_in_range()
                    &&& !self.fits_calendar(earliest(timestamps@), latest(timestamps@))
                },
                Ok(p) => {
                    &&& timestamps@.len() > 0
                    &&& self.spans_in_range()
                    &&& self.fits_calendar(earliest(timestamps@), latest(timestamps@))
                    &&& is_stable_order(timestamps@, p.order@)
                    &&& self.is_schedule(reorder(timestamps@, p.order@), p.folds@)
                    &&& forall|k: int|
                        0 <= k < p.folds@.len() ==> (#[trigger] p.folds@[k]).out_sample_end <= without_leap(
                            latest(timestamps@),
                        ) + KEYS_PER_DAY
                },
            },
    {
        proof {
            use_type_invariant(self);
        }
        let n = timestamps.len();
        if n == 0 {
            return Err(PlanError::NoBars);
        }
        let order = stable_order(timestamps);
        let mut sorted: Vec<i128> = Vec::new();
        for i in 0..n
            invariant
                n == timestamps@.len(),
                is_stable_order(timestamps@, order@),
                sorted@ =~= reorder(timestamps@, order@).take(i as int),
        {
            sorted.push(timestamps[order[i]]);
        }
        let ghost ts = reorder(timestamps@, order@);
        proof {
            assert(sorted@ =~= ts);
            lemma_stable_order_sorts(timestamps@, order@);
            lemma_stable_order_extremes(timestamps@, order@);
        }
        if self.in_sample_days > MAX_SPAN_DAYS || self.out_sample_days > MAX_SPAN_DAYS {
            return Err(PlanError::SpanOutOfRange);
        }
        let is_ns = (self.in_sample_days as i128) * KEYS_PER_DAY;
        let oos_ns = (self.out_sample_days as i128) * KEYS_PER_DAY;
        let first = sorted[0];
        let last = sorted[n - 1];
        proof {
            assert(is_valid_instant(timestamps@[order@[0] as int] as int));
            assert(is_valid_instant(timestamps@[order@[n - 1] as int] as int));
        }
        let base = strip_leap(first);
        let limit = strip_leap(last) + KEYS_PER_DAY;
        let ghost count = self.steps(first as int, last as int);
        let mut folds: Vec<FoldPlan> = Vec::new();
        let mut cursor = base;
        let mut first_step = true;
        let ghost mut j: nat = 0;
        loop
            invariant
                sorted@ == ts,
                n == timestamps@.len(),
                is_sorted(ts),
                n == ts.len(),
                n >= 1,
                first == ts[0],
                last == ts[n - 1],
                first == earliest(timestamps@),
                last == latest(timestamps@),
                is_valid_instant(first as int),
                is_valid_instant(last as int),
                first <= last,
                self.spans_in_range(),
                self.in_sample_days() > 0,
                self.out_sample_days() > 0,
                is_ns == self.is_span(),
                oos_ns == self.oos_span(),
                base == without_leap(first as int),
                base <= first,
                first - base <= 1_000_000_000,
                limit == without_leap(last as int) + KEYS_PER_DAY,
                last - 1_000_000_000 <= without_leap(last as int) <= last,
                count == self.steps(first as int, last as int),
                cursor == base + j * oos_ns,
                first_step == (j == 0),
                base <= cursor <= limit,
                j <= count,
                folds@.len() == self.fold_steps(ts, j).len(),
                forall|k: int|
                    0 <= k < folds@.len() ==> self.is_fold_at(ts, #[trigger] folds@[k], k, self.fold_steps(ts, j)[k]),
            ensures
                j == count,
                limit <= MAX_TIMESTAMP,
                self.window_out_end(first as int, count as int) <= MAX_TIMESTAMP,
            decreases limit - cursor,
        {
            let in_end = cursor + is_ns;
            let out_end = in_end + oos_ns;
            proof {
                lemma_step_count(base as int, limit as int, is_ns as int, oos_ns as int, j as int);
            }
            if in_end > MAX_TIMESTAMP || out_end > MAX_TIMESTAMP || limit > MAX_TIMESTAMP {
                proof {
                    if limit <= MAX_TIMESTAMP {
                        lemma_mul_monotone(j as int, count as int, oos_ns as int);
                        assert(out_end > MAX_TIMESTAMP);
                        assert(out_end == self.window_out_end(first as int, j as int));
                        assert(self.window_out_end(first as int, j as int) <= self.window_out_end(first as int, count as int));
                    }
                    assert(!self.fits_calendar(first as int, last as int));
                }
                return Err(PlanError::CalendarOverflow);
            }
            if out_end > limit {
                proof {
                    assert(j == count);
                    assert(self.fold_steps(ts, j) == self.fold_steps(ts, count));
                }
                break;
            }
            let in_start = match self.mode {
                WindowMode::Rolling => if first_step {
                    first
                } else {
                    cursor
                },
                WindowMode::Expanding => first,
            };
            let in_lo = lower_bound(&sorted, in_start);
            let in_hi = lower_bound(&sorted, in_end);
            let out_hi = lower_bound(&sorted, out_end);
            let ghost in_start_spec = self.window_in_start(first as int, j as int);
            proof {
                assert(in_start == in_start_spec);
                assert(in_end == self.window_in_end(first as int, j as int));
                assert(out_end == self.window_out_end(first as int, j as int));
                lemma_range_nonempty(ts, in_start as int, in_end as int, in_lo as int, in_hi as int);
                lemma_range_nonempty(ts, in_end as int, out_end as int, in_hi as int, out_hi as int);
                self.lemma_fold_steps_push(ts, j);
            }
            if in_lo < in_hi && in_hi < out_hi {
                let fold = FoldPlan {
                    fold: folds.len(),
                    in_sample_start: in_start,
                    in_sample_end: in_end,
                    out_sample_start: in_end,
                    out_sample_end: out_end,
                    in_sample_from: in_lo,
                    in_sample_to: in_hi,
                    out_sample_from: in_hi,
                    out_sample_to: out_hi,
                };
                folds.push(fold);
            }
            proof {
                let jj = j as int;
                assert(base + (jj + 1) * oos_ns == base + jj * oos_ns + oos_ns) by (nonlinear_arith);
            }
            cursor = cursor + oos_ns;
            first_step = false;
            proof {
                j = j + 1;
            }
        }
        proof {
            self.lemma_folds_end_by_last_bar(ts, folds@, 0);
        }
        Ok(WalkForwardPlan { order, folds })
    }
}

/// `[lo, hi)` holds a bar exactly when some bar lies in `[a, b)`.
proof fn lemma_range_nonempty(ts: Seq<i128>, a: int, b: int, lo: int, hi: int)
    requires
        is_lower_bound(ts, a, lo),
        is_lower_bound(ts, b, hi),
    ensures
        lo < hi <==> has_bar_in(ts, a, b),
{
    if lo < hi {
        assert(a <= ts[lo] < b);
    }
    if has_bar_in(ts, a, b) {
        let i = choose|i: int| 0 <= i < ts.len() && a <= #[trigger] ts[i] < b;
        assert(lo <= i < hi);
    }
}

proof fn lemma_mul_monotone(a: int, b: int, c: int)
    requires
        0 <= a <= b,
        c >= 0,
    ensures
        a * c <= b * c,
{
    assert(a * c <= b * c) by (nonlinear_arith)
        requires
            0 <= a <= b,
            c >= 0,
    ;
}

/// A step `j` is taken exactly when `j` is below the step count.
proof fn lemma_step_count(first: int, limit: int, is_ns: int, oos_ns: int, j: int)
    requires
        j >= 0,
        is_ns > 0,
        oos_ns > 0,
    ensures
        (first + j * oos_ns + is_ns + oos_ns <= limit) <==> j < step_count(first, limit, is_ns, oos_ns),
{
    let d = limit - first - is_ns - oos_ns;
    assert(j * oos_ns >= 0) by (nonlinear_arith)
        requires
            j >= 0,
            oos_ns > 0,
    ;
    if d >= 0 {
        assert((j * oos_ns <= d) <==> j <= d / oos_ns) by (nonlinear_arith)
            requires
                j >= 0,
                oos_ns > 0,
                d >= 0,
        ;
    }
}

impl WalkForward {
    /// The steps that become folds are listed in increasing order.
    proof fn lemma_fold_steps_increasing(self, ts: Seq<i128>, c: nat)
        ensures
            forall|a: int| 0 <= a < self.fold_steps(ts, c).len() ==> 0 <= #[trigger] self.fold_steps(ts, c)[a] < c,
            forall|a: int, b: int|
                0 <= a < b < self.fold_steps(ts, c).len() ==> #[trigger] self.fold_steps(ts, c)[a]
                    < #[trigger] self.fold_steps(ts, c)[b],
        decreases c,
    {
        if c == 0 {
            let s0 = Seq::new(0, |x: int| x);
            assert(s0 =~= Seq::<int>::empty());
            reveal(Seq::filter);
            assert(self.fold_steps(ts, 0).len() == 0);
        } else {
            self.lemma_fold_steps_increasing(ts, (c - 1) as nat);
            self.lemma_fold_steps_push(ts, (c - 1) as nat);
        }
    }

    /// Every step listed as a fold has a bar in both of its windows.
    proof fn lemma_fold_steps_yield(self, ts: Seq<i128>, c: nat)
        ensures
            forall|a: int|
                0 <= a < self.fold_steps(ts, c).len() ==> self.step_yields_fold(ts, #[trigger] self.fold_steps(ts, c)[a]),
        decreases c,
    {
        if c == 0 {
            let s0 = Seq::new(0, |x: int| x);
            assert(s0 =~= Seq::<int>::empty());
            reveal(Seq::filter);
            assert(self.fold_steps(ts, 0).len() == 0);
        } else {
            self.lemma_fold_steps_yield(ts, (c - 1) as nat);
            self.lemma_fold_steps_push(ts, (c - 1) as nat);
        }
    }

    /// Shape of every fold: folds are numbered from zero; the out-of-sample
    /// window starts where the in-sample window ends and lasts one
    /// out-of-sample span; a rolling in-sample window lasts one in-sample span
    /// (the first one, when the earliest bar falls in a leap second, ends one
    /// span after that bar's leap-free position) and an expanding one starts at
    /// the earliest bar; both windows hold at
    /// least one bar, and the in-sample bars are followed directly by the
    /// out-of-sample bars.
    pub proof fn lemma_fold_shape(self, ts: Seq<i128>, folds: Seq<FoldPlan>, k: int)
        requires
            self.in_sample_days() > 0,
            self.out_sample_days() > 0,
            ts.len() >= 1,
            is_sorted(ts),
            self.is_schedule(ts, folds),
            0 <= k < folds.len(),
        ensures
            folds[k].fold == k,
            folds[k].in_sample_end == folds[k].out_sample_start,
            folds[k].out_sample_end - folds[k].out_sample_start == self.oos_span(),
            self.mode() == WindowMode::Rolling ==> folds[k].in_sample_end - folds[k].in_sample_start
                == self.is_span() || (folds[k].in_sample_start == ts[0] && folds[k].in_sample_end
                == without_leap(ts[0] as int) + self.is_span()),
            self.mode() == WindowMode::Expanding ==> folds[k].in_sample_start == ts[0],
            folds[k].in_sample_from < folds[k].in_sample_to,
            folds[k].in_sample_to == folds[k].out_sample_from,
            folds[k].out_sample_from < folds[k].out_sample_to,
            folds[k].out_sample_to <= ts.len(),
    {
        let c = self.steps(ts[0] as int, ts.last() as int);
        let steps = self.fold_steps(ts, c);
        let f = folds[k];
        assert(self.is_fold_at(ts, f, k, steps[k]));
        self.lemma_fold_steps_yield(ts, c);
        assert(self.step_yields_fold(ts, steps[k]));
        lemma_range_nonempty(ts, f.in_sample_start as int, f.in_sample_end as int, f.in_sample_from as int, f.in_sample_to as int);
        lemma_range_nonempty(ts, f.out_sample_start as int, f.out_sample_end as int, f.out_sample_from as int, f.out_sample_to as int);
        lemma_lower_bound_unique(ts, f.in_sample_end as int, f.in_sample_to as int, f.out_sample_from as int);
    }

    /// No look-ahead inside a fold: every in-sample bar is strictly earlier
    /// than every out-of-sample bar, and each window holds exactly the bars
    /// whose instants fall inside it.
    pub proof fn lemma_fold_no_lookahead(self, ts: Seq<i128>, folds: Seq<FoldPlan>, k: int, i: int, o: int)
        requires
            ts.len() >= 1,
            is_sorted(ts),
            self.is_schedule(ts, folds),
            0 <= k < folds.len(),
            0 <= i < ts.len(),
            0 <= o < ts.len(),
        ensures
            folds[k].in_sample_from <= i < folds[k].in_sample_to <==> folds[k].in_sample_start <= ts[i]
                < folds[k].in_sample_end,
            folds[k].out_sample_from <= o < folds[k].out_sample_to <==> folds[k].out_sample_start <= ts[o]
                < folds[k].out_sample_end,
            folds[k].in_sample_from <= i < folds[k].in_sample_to && folds[k].out_sample_from <= o
                < folds[k].out_sample_to ==> ts[i] < ts[o],
    {
        let c = self.steps(ts[0] as int, ts.last() as int);
        let steps = self.fold_steps(ts, c);
        assert(self.is_fold_at(ts, folds[k], k, steps[k]));
    }

    /// Folds move forward through time: an earlier fold's out-of-sample
    /// window ends no later than a later fold's out-of-sample window starts,
    /// so the out-of-sample windows, and the bars in them, never overlap.
    pub proof fn lemma_folds_advance(self, ts: Seq<i128>, folds: Seq<FoldPlan>, k1: int, k2: int)
        requires
            self.in_sample_days() > 0,
            self.out_sample_days() > 0,
            ts.len() >= 1,
            is_sorted(ts),
            self.is_schedule(ts, folds),
            0 <= k1 < k2 < folds.len(),
        ensures
            folds[k1].out_sample_end <= folds[k2].out_sample_start,
            folds[k1].out_sample_start < folds[k2].out_sample_start,
            folds[k1].out_sample_to <= folds[k2].out_sample_from,
    {
        let first = ts[0] as int;
        let c = self.steps(first, ts.last() as int);
        let steps = self.fold_steps(ts, c);
        self.lemma_fold_steps_increasing(ts, c);
        let j1 = steps[k1];
        let j2 = steps[k2];
        assert(j1 < j2);
        assert(self.is_fold_at(ts, folds[k1], k1, j1));
        assert(self.is_fold_at(ts, folds[k2], k2, j2));
        let o = self.oos_span();
        assert(o > 0);
        assert((j1 + 1) * o <= j2 * o) by (nonlinear_arith)
            requires
                j1 < j2,
                o > 0,
        ;
        assert(j1 * o + o == (j1 + 1) * o) by (nonlinear_arith);
        let f1 = folds[k1];
        let f2 = folds[k2];
        assert(f1.out_sample_end <= f2.out_sample_start);
        if f2.out_sample_from < f1.out_sample_to {
            assert(ts[f2.out_sample_from as int] >= f2.out_sample_start);
            assert(ts[f2.out_sample_from as int] < f1.out_sample_end);
        }
    }
}

impl WalkForward {
    /// A step below `c` that yields a fold is listed among the fold steps.
    proof fn lemma_fold_steps_contains(self, ts: Seq<i128>, c: nat, j: int)
        requires
            0 <= j < c,
            self.step_yields_fold(ts, j),
        ensures
            self.fold_steps(ts, c).contains(j),
        decreases c,
    {
        let c0 = (c - 1) as nat;
        self.lemma_fold_steps_push(ts, c0);
        if j < c0 {
            self.lemma_fold_steps_contains(ts, c0, j);
            let a = choose|a: int| 0 <= a < self.fold_steps(ts, c0).len() && self.fold_steps(ts, c0)[a] == j;
            assert(self.fold_steps(ts, c)[a] == j);
        } else {
            assert(self.fold_steps(ts, c).last() == j);
        }
    }

    /// Folds stay within the data: every fold's out-of-sample window ends no
    /// more than one day after the last bar (measured from its leap-free
    /// position). Conversely, every step whose out-of-sample window ends by
    /// then and whose two windows both hold a bar is one of the folds: the
    /// schedule stops exactly at the first step that would end later.
    pub proof fn lemma_folds_end_by_last_bar(self, ts: Seq<i128>, folds: Seq<FoldPlan>, j: int)
        requires
            self.in_sample_days() > 0,
            self.out_sample_days() > 0,
            ts.len() >= 1,
            is_sorted(ts),
            self.is_schedule(ts, folds),
        ensures
            forall|k: int|
                0 <= k < folds.len() ==> (#[trigger] folds[k]).out_sample_end <= without_leap(ts.last() as int)
                    + KEYS_PER_DAY,
            0 <= j && self.window_out_end(ts[0] as int, j) <= without_leap(ts.last() as int) + KEYS_PER_DAY
                && self.step_yields_fold(ts, j) ==> exists|k: int|
                0 <= k < folds.len() && (#[trigger] folds[k]).out_sample_end == self.window_out_end(ts[0] as int, j)
                    && folds[k].in_sample_start == self.window_in_start(ts[0] as int, j),
    {
        let first = ts[0] as int;
        let limit = without_leap(ts.last() as int) + KEYS_PER_DAY;
        let c = self.steps(first, ts.last() as int);
        let steps = self.fold_steps(ts, c);
        self.lemma_fold_steps_increasing(ts, c);
        assert forall|k: int| 0 <= k < folds.len() implies (#[trigger] folds[k]).out_sample_end <= limit by {
            assert(self.is_fold_at(ts, folds[k], k, steps[k]));
            lemma_step_count(without_leap(first), limit, self.is_span(), self.oos_span(), steps[k]);
        }
        if 0 <= j && self.window_out_end(first, j) <= limit && self.step_yields_fold(ts, j) {
            lemma_step_count(without_leap(first), limit, self.is_span(), self.oos_span(), j);
            self.lemma_fold_steps_contains(ts, c, j);
            let k = choose|k: int| 0 <= k < steps.len() && steps[k] == j;
            assert(self.is_fold_at(ts, folds[k], k, steps[k]));
        }
    }
}

/// A lower bound of `x` in a sequence is unique.
proof fn lemma_lower_bound_unique(ts: Seq<i128>, x: int, r1: int, r2: int)
    requires
        is_lower_bound(ts, x, r1),
        is_lower_bound(ts, x, r2),
    ensures
        r1 == r2,
{
    if r1 < r2 {
        assert(ts[r1] < x);
    } else if r2 < r1 {
        assert(ts[r2] < x);
    }
}

} // verus!
