//! Machinery shared by the scheduling engines: input validation, the initial
//! job list (paired by index and sorted in the canonical order: ascending
//! prediction, ties by true length), minima over job pools, and the fair
//! round-robin drain that several engines end with.

use vstd::prelude::*;
use crate::rat::{
    Rat, SRat, rat_eq, rat_le, rat_lt, rat_add, rat_sub, rat_mul, rat_min, rat_of_int, rat_fits,
    lemma_rat_le_trans, lemma_rat_add_exact, lemma_rat_sub_exact, lemma_rat_mul_exact,
    lemma_rat_sub_eq_zero,
};
use crate::job::{Job, SJob, sjob_process};

verus! {

/// Why a run was refused.  Every input fault is detected before any
/// simulation step; `Overflow` reports a reduced rational out of the
/// executable range during a run.
#[derive(Clone, Copy, PartialEq, Eq, Structural, Debug)]
pub enum SimError {
    /// The instance and the prediction differ in length.
    LengthMismatch,
    /// Some true or predicted length is negative.
    NegativeLength,
    /// The trust parameter lies outside `[0, 1]`.
    LambdaOutOfRange,
    /// The quantized tick length is not positive.
    NonPositiveStepsize,
    /// A reduced rational did not fit the executable range.
    Overflow,
}

/// The rational `0`.
pub open spec fn rat_zero() -> SRat {
    rat_of_int(0)
}

/// The rational `1`.
pub open spec fn rat_one() -> SRat {
    rat_of_int(1)
}

/// The values of a sequence of executable rationals.
pub open spec fn rats_view(s: Seq<Rat>) -> Seq<SRat> {
    s.map_values(|x: Rat| x@)
}

/// The values of a sequence of executable jobs.
pub open spec fn jobs_view(s: Seq<Job>) -> Seq<SJob> {
    s.map_values(|j: Job| j@)
}

/// All rationals of the sequence are well-formed.
pub open spec fn rats_wf(s: Seq<SRat>) -> bool {
    forall|i: int| 0 <= i < s.len() ==> (#[trigger] s[i]).wf()
}

/// All jobs of the sequence are well-formed.
pub open spec fn jobs_wf(s: Seq<SJob>) -> bool {
    forall|i: int| 0 <= i < s.len() ==> (#[trigger] s[i]).wf()
}

/// The input fault the engines reject, if any: mismatched lengths first,
/// then a negative length, then a trust parameter outside `[0, 1]`.
pub open spec fn input_fault(li: Seq<SRat>, lp: Seq<SRat>, lambda: SRat) -> Option<SimError> {
    if li.len() != lp.len() {
        Some(SimError::LengthMismatch)
    } else if exists|i: int| 0 <= i < li.len() && rat_lt(#[trigger] li[i], rat_zero()) {
        Some(SimError::NegativeLength)
    } else if exists|i: int| 0 <= i < lp.len() && rat_lt(#[trigger] lp[i], rat_zero()) {
        Some(SimError::NegativeLength)
    } else if rat_lt(lambda, rat_zero()) || rat_lt(rat_one(), lambda) {
        Some(SimError::LambdaOutOfRange)
    } else {
        None
    }
}

/// Jobs paired by index: the true length is both the total and the initial
/// remaining work.
pub open spec fn zip_jobs(li: Seq<SRat>, lp: Seq<SRat>) -> Seq<SJob> {
    Seq::new(li.len(), |i: int| SJob { total: li[i], pred: lp[i], rem: li[i] })
}

/// The canonical job order: ascending by prediction, with prediction ties
/// broken by the true length, so that the sorted pool does not depend on the
/// input order of tied jobs.
pub open spec fn job_le(a: SJob, b: SJob) -> bool {
    rat_lt(a.pred, b.pred) || (rat_eq(a.pred, b.pred) && rat_le(a.total, b.total))
}

/// The job order is total, transitive, and two jobs below each other agree
/// in prediction and true length, by value.
pub proof fn lemma_job_le_props(a: SJob, b: SJob, c: SJob)
    requires
        a.wf(),
        b.wf(),
        c.wf(),
    ensures
        !job_le(a, b) ==> job_le(b, a),
        job_le(a, b) && job_le(b, c) ==> job_le(a, c),
        job_le(a, b) && job_le(b, a) ==> rat_eq(a.pred, b.pred) && rat_eq(a.total, b.total),
{
    if job_le(a, b) && job_le(b, c) {
        if rat_lt(a.pred, b.pred) && rat_lt(b.pred, c.pred) {
            crate::rat::lemma_rat_lt_trans(a.pred, b.pred, c.pred);
        } else if rat_lt(a.pred, b.pred) {
            crate::rat::lemma_rat_le_congr(a.pred, b.pred, a.pred, c.pred);
        } else if rat_lt(b.pred, c.pred) {
            crate::rat::lemma_rat_le_congr(b.pred, c.pred, a.pred, c.pred);
        } else {
            crate::rat::lemma_rat_eq_trans(a.pred, b.pred, c.pred);
            crate::rat::lemma_rat_le_trans(a.total, b.total, c.total);
        }
    }
}

/// Stable insertion in the canonical order: `j` goes after every job below
/// or tied with it.
pub open spec fn insert_by_pred(j: SJob, s: Seq<SJob>) -> Seq<SJob>
    decreases s.len(),
{
    if s.len() == 0 {
        seq![j]
    } else if job_le(s[0], j) {
        seq![s[0]] + insert_by_pred(j, s.drop_first())
    } else {
        seq![j] + s
    }
}

/// Insertion sort in the canonical job order.
pub open spec fn sort_by_pred(s: Seq<SJob>) -> Seq<SJob>
    decreases s.len(),
{
    if s.len() == 0 {
        Seq::<SJob>::empty()
    } else {
        insert_by_pred(s.last(), sort_by_pred(s.drop_last()))
    }
}

/// The job list every engine starts from: paired by index and sorted in the
/// canonical order (ascending prediction, ties by true length).
pub open spec fn init_jobs(li: Seq<SRat>, lp: Seq<SRat>) -> Seq<SJob> {
    sort_by_pred(zip_jobs(li, lp))
}

/// Left fold of the minimum over `s`, starting from `acc`.
pub open spec fn min_from(s: Seq<SRat>, acc: SRat) -> SRat
    decreases s.len(),
{
    if s.len() == 0 {
        acc
    } else {
        min_from(s.drop_first(), rat_min(acc, s[0]))
    }
}

/// The fold is a lower bound of `acc` and of every element, and is attained.
pub proof fn lemma_min_from(s: Seq<SRat>, acc: SRat)
    requires
        rats_wf(s),
        acc.wf(),
    ensures
        min_from(s, acc).wf(),
        rat_le(min_from(s, acc), acc),
        forall|i: int| 0 <= i < s.len() ==> rat_le(min_from(s, acc), #[trigger] s[i]),
        min_from(s, acc) == acc || exists|i: int|
            0 <= i < s.len() && min_from(s, acc) == #[trigger] s[i],
    decreases s.len(),
{
    if s.len() > 0 {
        let acc2 = rat_min(acc, s[0]);
        let rest = s.drop_first();
        assert(rats_wf(rest)) by {
            assert(forall|i: int| 0 <= i < rest.len() ==> #[trigger] rest[i] == s[i + 1]);
        }
        lemma_min_from(rest, acc2);
        let m = min_from(s, acc);
        assert(m == min_from(rest, acc2));
        if acc2 == acc {
            assert(rat_le(acc, s[0]));
            lemma_rat_le_trans(m, acc, s[0]);
        } else {
            assert(acc2 == s[0]);
            assert(rat_le(s[0], acc));
            lemma_rat_le_trans(m, s[0], acc);
        }
        assert(forall|i: int| 0 <= i < rest.len() ==> rat_le(m, #[trigger] s[i + 1])) by {
            assert(forall|i: int| 0 <= i < rest.len() ==> #[trigger] s[i + 1] == rest[i]);
        }
        assert(forall|i: int| 1 <= i < s.len() ==> rat_le(m, #[trigger] s[i])) by {
            assert(forall|i: int| 1 <= i < s.len() ==> #[trigger] s[i] == rest[i - 1]);
        }
        if m != acc {
            if m == acc2 {
                assert(m == s[0]);
            } else {
                let i = choose|i: int| 0 <= i < rest.len() && m == #[trigger] rest[i];
                assert(m == s[i + 1]);
            }
        }
    }
}

/// When the start is a lower bound of every element, the fold keeps it.
pub proof fn lemma_min_from_acc(s: Seq<SRat>, acc: SRat)
    requires
        rats_wf(s),
        acc.wf(),
        forall|i: int| 0 <= i < s.len() ==> rat_le(acc, #[trigger] s[i]),
    ensures
        min_from(s, acc) == acc,
    decreases s.len(),
{
    if s.len() > 0 {
        assert(rat_min(acc, s[0]) == acc);
        let rest = s.drop_first();
        assert(rats_wf(rest) && forall|i: int| 0 <= i < rest.len() ==> rat_le(acc, #[trigger] rest[i])) by {
            assert(forall|i: int| 0 <= i < rest.len() ==> #[trigger] rest[i] == s[i + 1]);
        }
        lemma_min_from_acc(rest, acc);
    }
}

/// A pool with no finished job survives a sweep unchanged.
pub proof fn lemma_live_all(s: Seq<SJob>)
    requires
        forall|i: int| 0 <= i < s.len() ==> !(#[trigger] s[i]).finished(),
    ensures
        live(s) == s,
    decreases s.len(),
{
    reveal(Seq::filter);
    if s.len() > 0 {
        let rest = s.drop_last();
        assert(forall|i: int| 0 <= i < rest.len() ==> #[trigger] rest[i] == s[i]);
        lemma_live_all(rest);
        assert(!s.last().finished());
        assert(live(s) =~= s);
    } else {
        assert(live(s) =~= s);
    }
}

/// The unfinished jobs, in order.
pub open spec fn live(s: Seq<SJob>) -> Seq<SJob> {
    s.filter(|j: SJob| !j.finished())
}

/// Facts about the surviving pool: it is no longer, only unfinished jobs
/// stay, and well-formedness carries over.
pub proof fn lemma_live(s: Seq<SJob>)
    requires
        jobs_wf(s),
    ensures
        live(s).len() <= s.len(),
        jobs_wf(live(s)),
        forall|i: int| 0 <= i < live(s).len() ==> !(#[trigger] live(s)[i]).finished(),
    decreases s.len(),
{
    reveal(Seq::filter);
    if s.len() > 0 {
        let rest = s.drop_last();
        assert(jobs_wf(rest)) by {
            assert(forall|i: int| 0 <= i < rest.len() ==> #[trigger] rest[i] == s[i]);
        }
        lemma_live(rest);
        if !s.last().finished() {
            assert(live(s) == live(rest).push(s.last()));
            assert(jobs_wf(live(s))) by {
                assert(forall|i: int|
                    0 <= i < live(rest).len() ==> #[trigger] live(s)[i] == live(rest)[i]);
                assert(live(s)[live(s).len() - 1] == s.last());
                assert(s.last() == s[s.len() - 1]);
            }
        } else {
            assert(live(s) == live(rest));
        }
    }
}

/// A finished job makes the surviving pool strictly shorter.
pub proof fn lemma_live_shrinks(s: Seq<SJob>, i: int)
    requires
        0 <= i < s.len(),
        s[i].finished(),
        jobs_wf(s),
    ensures
        live(s).len() < s.len(),
    decreases s.len(),
{
    reveal(Seq::filter);
    let rest = s.drop_last();
    assert(jobs_wf(rest)) by {
        assert(forall|k: int| 0 <= k < rest.len() ==> #[trigger] rest[k] == s[k]);
    }
    lemma_live(rest);
    if i == s.len() - 1 {
        assert(live(s) == live(rest));
    } else {
        lemma_live_shrinks(rest, i);
        if !s.last().finished() {
            assert(live(s) == live(rest).push(s.last()));
        } else {
            assert(live(s) == live(rest));
        }
    }
}

/// One state of a fair round-robin pool: the jobs still there, the virtual
/// clock, and the accumulated flow time.
pub struct RRState {
    pub jobs: Seq<SJob>,
    pub time: SRat,
    pub cost: SRat,
}

impl RRState {
    /// All components are well-formed.
    pub open spec fn wf(self) -> bool {
        jobs_wf(self.jobs) && self.time.wf() && self.cost.wf()
    }
}

/// One fair round-robin round: every job advances by the smallest remaining
/// work; the clock advances by that amount times the pool size (every job
/// holds an equal `1/n` share of the machine); each finisher adds the new
/// clock to the cost.
pub open spec fn rr_step(s: RRState) -> RRState {
    let step = min_from(s.jobs.drop_first().map_values(|j: SJob| j.rem), s.jobs[0].rem);
    let time2 = rat_add(s.time, rat_mul(step, rat_of_int(s.jobs.len() as int)));
    let processed = s.jobs.map_values(|j: SJob| sjob_process(j, step));
    let jobs2 = live(processed);
    let cost2 = rat_add(s.cost, rat_mul(rat_of_int(processed.len() - jobs2.len()), time2));
    RRState { jobs: jobs2, time: time2, cost: cost2 }
}

/// A round keeps the state well-formed and strictly shrinks the pool.
pub proof fn lemma_rr_step(s: RRState)
    requires
        s.wf(),
        s.jobs.len() > 0,
    ensures
        rr_step(s).wf(),
        rr_step(s).jobs.len() < s.jobs.len(),
{
    let rems = s.jobs.drop_first().map_values(|j: SJob| j.rem);
    assert(rats_wf(rems)) by {
        assert(forall|i: int| 0 <= i < rems.len() ==> #[trigger] rems[i] == s.jobs[i + 1].rem);
    }
    lemma_min_from(rems, s.jobs[0].rem);
    let step = min_from(rems, s.jobs[0].rem);
    let processed = s.jobs.map_values(|j: SJob| sjob_process(j, step));
    assert(jobs_wf(processed)) by {
        assert(forall|i: int|
            0 <= i < s.jobs.len() ==> #[trigger] processed[i] == sjob_process(s.jobs[i], step));
        assert forall|i: int| 0 <= i < processed.len() implies (#[trigger] processed[i]).wf() by {
            lemma_rat_sub_exact(s.jobs[i].rem, step);
        }
    }
    // the job whose remaining work equals the minimum finishes in this round
    let iw: int = if step == s.jobs[0].rem {
        0
    } else {
        (choose|i: int| 0 <= i < rems.len() && step == #[trigger] rems[i]) + 1
    };
    assert(0 <= iw < s.jobs.len() && step == s.jobs[iw].rem) by {
        if step != s.jobs[0].rem {
            let i = choose|i: int| 0 <= i < rems.len() && step == #[trigger] rems[i];
            assert(rems[i] == s.jobs[i + 1].rem);
        }
    }
    assert(processed[iw] == sjob_process(s.jobs[iw], step));
    lemma_rat_sub_eq_zero(s.jobs[iw].rem, step);
    assert(processed[iw].finished());
    lemma_live_shrinks(processed, iw);
    lemma_live(processed);
    lemma_rat_mul_exact(step, rat_of_int(s.jobs.len() as int));
    lemma_rat_add_exact(s.time, rat_mul(step, rat_of_int(s.jobs.len() as int)));
    let time2 = rat_add(s.time, rat_mul(step, rat_of_int(s.jobs.len() as int)));
    lemma_rat_mul_exact(rat_of_int(processed.len() - live(processed).len()), time2);
    lemma_rat_add_exact(s.cost, rat_mul(rat_of_int(processed.len() - live(processed).len()), time2));
}

/// Fair round robin, run to completion; the result is the accumulated flow
/// time.
pub open spec fn rr_run(s: RRState) -> SRat
    decreases s.jobs.len(),
        when s.wf()
        via rr_run_dec
{
    if s.jobs.len() == 0 {
        s.cost
    } else {
        rr_run(rr_step(s))
    }
}

#[via_fn]
proof fn rr_run_dec(s: RRState) {
    if s.jobs.len() > 0 {
        lemma_rr_step(s);
    }
}

/// Every reduced rational that one fair round-robin round computes fits the
/// executable range.
pub open spec fn rr_step_fits(s: RRState) -> bool {
    let step = min_from(s.jobs.drop_first().map_values(|j: SJob| j.rem), s.jobs[0].rem);
    let time2 = rat_add(s.time, rat_mul(step, rat_of_int(s.jobs.len() as int)));
    let processed = s.jobs.map_values(|j: SJob| sjob_process(j, step));
    let jobs2 = live(processed);
    &&& rat_fits(rat_mul(step, rat_of_int(s.jobs.len() as int)))
    &&& rat_fits(time2)
    &&& forall|i: int| 0 <= i < s.jobs.len() ==> rat_fits(rat_sub((#[trigger] s.jobs[i]).rem, step))
    &&& rat_fits(rat_mul(rat_of_int(processed.len() - jobs2.len()), time2))
    &&& rat_fits(rat_add(s.cost, rat_mul(rat_of_int(processed.len() - jobs2.len()), time2)))
}

/// Every reduced rational of the whole drain fits the executable range.
pub open spec fn rr_fits(s: RRState) -> bool
    decreases s.jobs.len(),
        when s.wf()
        via rr_fits_dec
{
    if s.jobs.len() == 0 {
        true
    } else {
        rr_step_fits(s) && rr_fits(rr_step(s))
    }
}

#[via_fn]
proof fn rr_fits_dec(s: RRState) {
    if s.jobs.len() > 0 {
        lemma_rr_step(s);
    }
}

/// Two pools with pairwise equal remaining work (the other fields may
/// differ).
pub open spec fn rems_equiv(s1: Seq<SJob>, s2: Seq<SJob>) -> bool {
    s1.len() == s2.len() && forall|i: int|
        0 <= i < s1.len() ==> rat_eq(#[trigger] s1[i].rem, s2[i].rem)
}

/// The fold over pairwise equal values from equal starts gives equal values.
pub proof fn lemma_min_from_congr(s1: Seq<SRat>, s2: Seq<SRat>, a1: SRat, a2: SRat)
    requires
        rats_wf(s1),
        rats_wf(s2),
        a1.wf(),
        a2.wf(),
        s1.len() == s2.len(),
        forall|i: int| 0 <= i < s1.len() ==> rat_eq(#[trigger] s1[i], s2[i]),
        rat_eq(a1, a2),
    ensures
        rat_eq(min_from(s1, a1), min_from(s2, a2)),
    decreases s1.len(),
{
    if s1.len() > 0 {
        crate::rat::lemma_rat_le_congr(a1, s1[0], a2, s2[0]);
        assert(rat_le(a1, s1[0]) <==> rat_le(a2, s2[0]));
        let b1 = rat_min(a1, s1[0]);
        let b2 = rat_min(a2, s2[0]);
        assert(rat_eq(b1, b2));
        let r1 = s1.drop_first();
        let r2 = s2.drop_first();
        assert(rats_wf(r1) && rats_wf(r2) && forall|i: int|
            0 <= i < r1.len() ==> rat_eq(#[trigger] r1[i], r2[i])) by {
            assert(forall|i: int| 0 <= i < r1.len() ==> #[trigger] r1[i] == s1[i + 1]);
            assert(forall|i: int| 0 <= i < r2.len() ==> #[trigger] r2[i] == s2[i + 1]);
        }
        lemma_min_from_congr(r1, r2, b1, b2);
    }
}

/// A sweep of two pools with pairwise equal remaining work removes the same
/// positions.
pub proof fn lemma_live_congr(p1: Seq<SJob>, p2: Seq<SJob>)
    requires
        jobs_wf(p1),
        jobs_wf(p2),
        rems_equiv(p1, p2),
    ensures
        live(p1).len() == live(p2).len(),
        rems_equiv(live(p1), live(p2)),
    decreases p1.len(),
{
    reveal(Seq::filter);
    if p1.len() > 0 {
        let r1 = p1.drop_last();
        let r2 = p2.drop_last();
        assert(jobs_wf(r1) && jobs_wf(r2) && rems_equiv(r1, r2)) by {
            assert(forall|i: int| 0 <= i < r1.len() ==> #[trigger] r1[i] == p1[i]);
            assert(forall|i: int| 0 <= i < r2.len() ==> #[trigger] r2[i] == p2[i]);
        }
        lemma_live_congr(r1, r2);
        assert(rat_eq(p1.last().rem, p2.last().rem)) by {
            assert(p1.last() == p1[p1.len() - 1] && p2.last() == p2[p2.len() - 1]);
        }
        crate::rat::lemma_rat_le_congr(
            p1.last().rem,
            crate::rat::rat_tolerance(),
            p2.last().rem,
            crate::rat::rat_tolerance(),
        );
        assert(p1.last().finished() <==> p2.last().finished());
        if !p1.last().finished() {
            assert(live(p1) == live(r1).push(p1.last()));
            assert(live(p2) == live(r2).push(p2.last()));
            assert(rems_equiv(live(p1), live(p2))) by {
                assert(forall|i: int|
                    0 <= i < live(r1).len() ==> #[trigger] live(p1)[i] == live(r1)[i]);
                assert(forall|i: int|
                    0 <= i < live(r2).len() ==> #[trigger] live(p2)[i] == live(r2)[i]);
                assert(live(p1)[live(p1).len() - 1] == p1.last());
                assert(live(p2)[live(p2).len() - 1] == p2.last());
            }
        }
    }
}

/// Round robin is indifferent to the representation of its state: pairwise
/// equal pools with equal clock and cost give the equal cost.
pub proof fn lemma_rr_run_congr(s1: RRState, s2: RRState)
    requires
        s1.wf(),
        s2.wf(),
        rems_equiv(s1.jobs, s2.jobs),
        rat_eq(s1.time, s2.time),
        rat_eq(s1.cost, s2.cost),
    ensures
        rat_eq(rr_run(s1), rr_run(s2)),
        rr_run(s1).wf(),
        rr_run(s2).wf(),
    decreases s1.jobs.len(),
{
    if s1.jobs.len() == 0 {
    } else {
        lemma_rr_step(s1);
        lemma_rr_step(s2);
        let n = s1.jobs.len() as int;
        let r1 = s1.jobs.drop_first().map_values(|j: SJob| j.rem);
        let r2 = s2.jobs.drop_first().map_values(|j: SJob| j.rem);
        assert(rats_wf(r1) && rats_wf(r2) && r1.len() == r2.len() && forall|i: int|
            0 <= i < r1.len() ==> rat_eq(#[trigger] r1[i], r2[i])) by {
            assert(forall|i: int| 0 <= i < r1.len() ==> #[trigger] r1[i] == s1.jobs[i + 1].rem);
            assert(forall|i: int| 0 <= i < r2.len() ==> #[trigger] r2[i] == s2.jobs[i + 1].rem);
        }
        assert(rat_eq(s1.jobs[0].rem, s2.jobs[0].rem));
        lemma_min_from_congr(r1, r2, s1.jobs[0].rem, s2.jobs[0].rem);
        lemma_min_from(r1, s1.jobs[0].rem);
        lemma_min_from(r2, s2.jobs[0].rem);
        let m1 = min_from(r1, s1.jobs[0].rem);
        let m2 = min_from(r2, s2.jobs[0].rem);
        crate::rat::lemma_rat_mul_congr2(m1, rat_of_int(n), m2, rat_of_int(n));
        crate::rat::lemma_rat_mul_exact(m1, rat_of_int(n));
        crate::rat::lemma_rat_mul_exact(m2, rat_of_int(n));
        crate::rat::lemma_rat_add_congr2(
            s1.time,
            rat_mul(m1, rat_of_int(n)),
            s2.time,
            rat_mul(m2, rat_of_int(n)),
        );
        let p1 = s1.jobs.map_values(|j: SJob| sjob_process(j, m1));
        let p2 = s2.jobs.map_values(|j: SJob| sjob_process(j, m2));
        assert(jobs_wf(p1) && jobs_wf(p2) && rems_equiv(p1, p2)) by {
            assert(forall|i: int|
                0 <= i < p1.len() ==> #[trigger] p1[i] == sjob_process(s1.jobs[i], m1));
            assert(forall|i: int|
                0 <= i < p2.len() ==> #[trigger] p2[i] == sjob_process(s2.jobs[i], m2));
            assert forall|i: int| 0 <= i < p1.len() implies (#[trigger] p1[i]).wf() && rat_eq(
                p1[i].rem,
                p2[i].rem,
            ) by {
                crate::rat::lemma_rat_sub_exact(s1.jobs[i].rem, m1);
                crate::rat::lemma_rat_sub_exact(s2.jobs[i].rem, m2);
                crate::rat::lemma_rat_sub_congr2(s1.jobs[i].rem, m1, s2.jobs[i].rem, m2);
            }
            assert forall|i: int| 0 <= i < p2.len() implies (#[trigger] p2[i]).wf() by {
                crate::rat::lemma_rat_sub_exact(s2.jobs[i].rem, m2);
            }
        }
        lemma_live_congr(p1, p2);
        let t1 = rr_step(s1);
        let t2 = rr_step(s2);
        assert(t1.jobs == live(p1) && t2.jobs == live(p2));
        let c1 = rat_of_int(p1.len() - live(p1).len());
        crate::rat::lemma_rat_mul_congr2(c1, t1.time, c1, t2.time);
        crate::rat::lemma_rat_mul_exact(c1, t1.time);
        crate::rat::lemma_rat_mul_exact(c1, t2.time);
        crate::rat::lemma_rat_add_congr2(
            s1.cost,
            rat_mul(c1, t1.time),
            s2.cost,
            rat_mul(c1, t2.time),
        );
        lemma_rr_run_congr(t1, t2);
    }
}

/// Insertion lands at the first position whose job is above the new one in
/// the canonical order.
pub proof fn lemma_insert_at(j: SJob, s: Seq<SJob>, k: int)
    requires
        0 <= k <= s.len(),
        forall|i: int| 0 <= i < k ==> job_le(#[trigger] s[i], j),
        k < s.len() ==> !job_le(s[k], j),
    ensures
        insert_by_pred(j, s) == s.subrange(0, k) + seq![j] + s.subrange(k, s.len() as int),
    decreases s.len(),
{
    if s.len() == 0 {
        assert(insert_by_pred(j, s) =~= s.subrange(0, k) + seq![j] + s.subrange(
            k,
            s.len() as int,
        ));
    } else if k == 0 {
        assert(insert_by_pred(j, s) =~= s.subrange(0, 0) + seq![j] + s.subrange(
            0,
            s.len() as int,
        ));
    } else {
        let rest = s.drop_first();
        assert(forall|i: int| 0 <= i < k - 1 ==> #[trigger] rest[i] == s[i + 1]);
        lemma_insert_at(j, rest, k - 1);
        assert(seq![s[0]] + (rest.subrange(0, k - 1) + seq![j] + rest.subrange(
            k - 1,
            rest.len() as int,
        )) =~= s.subrange(0, k) + seq![j] + s.subrange(k, s.len() as int));
    }
}

/// Validates the shared inputs, reporting exactly the fault the model names.
pub(crate) fn validate_inputs(li: &Vec<Rat>, lp: &Vec<Rat>, lambda: &Rat) -> (r: Option<SimError>)
    ensures
        r == input_fault(rats_view(li@), rats_view(lp@), lambda@),
        r is None ==> rats_wf(rats_view(li@)) && rats_wf(rats_view(lp@)) && lambda@.wf(),
{
    let ghost sli = rats_view(li@);
    let ghost slp = rats_view(lp@);
    if li.len() != lp.len() {
        return Some(SimError::LengthMismatch);
    }
    let zero = Rat::from_int(0);
    let one = Rat::from_int(1);
    let mut i: usize = 0;
    while i < li.len()
        invariant
            0 <= i <= li.len(),
            sli == rats_view(li@),
            slp == rats_view(lp@),
            li@.len() == lp@.len(),
            forall|k: int| 0 <= k < i ==> !rat_lt(#[trigger] sli[k], rat_zero()),
            forall|k: int| 0 <= k < i ==> (#[trigger] sli[k]).wf(),
            zero@ == rat_zero(),
        decreases li.len() - i,
    {
        if li[i].lt(&zero) {
            assert(rat_lt(sli[i as int], rat_zero()));
            return Some(SimError::NegativeLength);
        }
        i += 1;
    }
    let mut i: usize = 0;
    while i < lp.len()
        invariant
            0 <= i <= lp.len(),
            slp == rats_view(lp@),
            sli == rats_view(li@),
            li@.len() == lp@.len(),
            forall|k: int| 0 <= k < sli.len() ==> !rat_lt(#[trigger] sli[k], rat_zero()),
            forall|k: int| 0 <= k < sli.len() ==> (#[trigger] sli[k]).wf(),
            forall|k: int| 0 <= k < i ==> !rat_lt(#[trigger] slp[k], rat_zero()),
            forall|k: int| 0 <= k < i ==> (#[trigger] slp[k]).wf(),
            zero@ == rat_zero(),
        decreases lp.len() - i,
    {
        if lp[i].lt(&zero) {
            assert(rat_lt(slp[i as int], rat_zero()));
            return Some(SimError::NegativeLength);
        }
        i += 1;
    }
    if lambda.lt(&zero) || one.lt(lambda) {
        return Some(SimError::LambdaOutOfRange);
    }
    None
}

/// Builds the job list every engine starts from: jobs paired by index and
/// insertion-sorted in the canonical order.
pub(crate) fn build_jobs(li: &Vec<Rat>, lp: &Vec<Rat>) -> (jobs: Vec<Job>)
    requires
        li@.len() == lp@.len(),
    ensures
        jobs_view(jobs@) == init_jobs(rats_view(li@), rats_view(lp@)),
        jobs@.len() == li@.len(),
{
    let ghost sli = rats_view(li@);
    let ghost slp = rats_view(lp@);
    let ghost zipped_s = zip_jobs(sli, slp);
    let mut zipped: Vec<Job> = Vec::new();
    let mut i: usize = 0;
    while i < li.len()
        invariant
            0 <= i <= li.len(),
            li@.len() == lp@.len(),
            sli == rats_view(li@),
            slp == rats_view(lp@),
            zipped_s == zip_jobs(sli, slp),
            zipped@.len() == i,
            forall|k: int| 0 <= k < i ==> (#[trigger] zipped@[k])@ == zipped_s[k],
        decreases li.len() - i,
    {
        zipped.push(Job::new(i, li[i], lp[i]));
        i += 1;
    }
    assert(jobs_view(zipped@) =~= zipped_s);
    let mut sorted: Vec<Job> = Vec::new();
    let mut i: usize = 0;
    while i < zipped.len()
        invariant
            0 <= i <= zipped.len(),
            jobs_view(zipped@) == zipped_s,
            zipped@.len() == zipped_s.len(),
            jobs_view(sorted@) == sort_by_pred(zipped_s.take(i as int)),
            sorted@.len() == i,
        decreases zipped.len() - i,
    {
        let j = zipped[i];
        let jp = j.predicted_length();
        let jt = j.total_length();
        let ghost sorted_s = jobs_view(sorted@);
        let mut k: usize = 0;
        loop
            invariant_except_break
                0 <= k <= sorted.len(),
                forall|t: int| 0 <= t < k ==> job_le(#[trigger] sorted_s[t], j@),
                sorted_s == jobs_view(sorted@),
                sorted@.len() == i,
                jp@ == j@.pred,
                jt@ == j@.total,
            ensures
                0 <= k <= sorted.len(),
                forall|t: int| 0 <= t < k ==> job_le(#[trigger] sorted_s[t], j@),
                k < sorted.len() ==> !job_le(sorted_s[k as int], j@),
                sorted_s == jobs_view(sorted@),
                sorted@.len() == i,
            decreases sorted.len() - k,
        {
            if k == sorted.len() {
                break ;
            }
            let below = sorted[k].predicted_length().lt(&jp) || (sorted[k].predicted_length().eqv(
                &jp,
            ) && sorted[k].total_length().le(&jt));
            proof {
                assert(below == job_le(sorted_s[k as int], j@));
            }
            if !below {
                break ;
            }
            k += 1;
        }
        sorted.insert(k, j);
        proof {
            lemma_insert_at(j@, sorted_s, k as int);
            assert(jobs_view(sorted@) =~= sorted_s.subrange(0, k as int) + seq![j@]
                + sorted_s.subrange(k as int, sorted_s.len() as int));
            assert(zipped_s.take(i as int + 1).drop_last() =~= zipped_s.take(i as int));
            assert(zipped_s.take(i as int + 1).last() == j@);
            assert(jobs_view(sorted@) == sort_by_pred(zipped_s.take(i as int + 1)));
        }
        i += 1;
    }
    assert(zipped_s.take(zipped_s.len() as int) =~= zipped_s);
    sorted
}

/// Inserting a well-formed job into a well-formed pool keeps it well-formed.
pub proof fn lemma_insert_by_pred_wf(j: SJob, s: Seq<SJob>)
    requires
        j.wf(),
        jobs_wf(s),
    ensures
        jobs_wf(insert_by_pred(j, s)),
        insert_by_pred(j, s).len() == s.len() + 1,
    decreases s.len(),
{
    if s.len() == 0 {
    } else if job_le(s[0], j) {
        let rest = s.drop_first();
        assert(jobs_wf(rest)) by {
            assert(forall|i: int| 0 <= i < rest.len() ==> #[trigger] rest[i] == s[i + 1]);
        }
        lemma_insert_by_pred_wf(j, rest);
        let out = insert_by_pred(j, s);
        assert(forall|i: int|
            1 <= i < out.len() ==> #[trigger] out[i] == insert_by_pred(j, rest)[i - 1]);
        assert(forall|i: int| 0 <= i < out.len() ==> (#[trigger] out[i]).wf());
    } else {
        let out = insert_by_pred(j, s);
        assert(forall|i: int| 1 <= i < out.len() ==> #[trigger] out[i] == s[i - 1]);
        assert(forall|i: int| 0 <= i < out.len() ==> (#[trigger] out[i]).wf());
    }
}

/// The initial job list of well-formed inputs is well-formed and has one job
/// per input index.
pub proof fn lemma_sort_by_pred_wf(s: Seq<SJob>)
    requires
        jobs_wf(s),
    ensures
        jobs_wf(sort_by_pred(s)),
        sort_by_pred(s).len() == s.len(),
    decreases s.len(),
{
    if s.len() > 0 {
        let rest = s.drop_last();
        assert(jobs_wf(rest)) by {
            assert(forall|i: int| 0 <= i < rest.len() ==> #[trigger] rest[i] == s[i]);
        }
        lemma_sort_by_pred_wf(rest);
        assert(s.last().wf());
        lemma_insert_by_pred_wf(s.last(), sort_by_pred(rest));
    }
}

/// The initial job list of well-formed inputs is well-formed.
pub proof fn lemma_init_jobs_wf(li: Seq<SRat>, lp: Seq<SRat>)
    requires
        li.len() == lp.len(),
        rats_wf(li),
        rats_wf(lp),
    ensures
        jobs_wf(init_jobs(li, lp)),
        init_jobs(li, lp).len() == li.len(),
{
    let z = zip_jobs(li, lp);
    assert(jobs_wf(z)) by {
        assert(forall|i: int|
            0 <= i < z.len() ==> #[trigger] z[i] == (SJob { total: li[i], pred: lp[i], rem: li[i] }));
    }
    lemma_sort_by_pred_wf(z);
}

/// Applies `amount` of work to every job of the pool; reports a rational out
/// of the executable range, after which the pool must not be used further.
pub(crate) fn process_pool(jobs: &mut Vec<Job>, amount: Rat) -> (ok: bool)
    ensures
        ok ==> jobs_view(final(jobs)@) == jobs_view(old(jobs)@).map_values(
            |j: SJob| sjob_process(j, amount@),
        ),
        ok ==> forall|i: int|
            0 <= i < old(jobs)@.len() ==> rat_fits(
                rat_sub((#[trigger] jobs_view(old(jobs)@)[i]).rem, amount@),
            ),
        !ok ==> exists|i: int|
            0 <= i < old(jobs)@.len() && !rat_fits(
                rat_sub((#[trigger] jobs_view(old(jobs)@)[i]).rem, amount@),
            ),
{
    let ghost orig = jobs_view(jobs@);
    let ghost processed = orig.map_values(|j: SJob| sjob_process(j, amount@));
    let n = jobs.len();
    let mut i: usize = 0;
    while i < n
        invariant
            0 <= i <= n,
            n == jobs@.len(),
            processed == orig.map_values(|j: SJob| sjob_process(j, amount@)),
            orig.len() == n,
            orig == jobs_view(old(jobs)@),
            forall|k: int| 0 <= k < i ==> (#[trigger] jobs@[k])@ == processed[k],
            forall|k: int| i <= k < n ==> (#[trigger] jobs@[k])@ == orig[k],
            forall|k: int| 0 <= k < i ==> rat_fits(rat_sub((#[trigger] orig[k]).rem, amount@)),
        decreases n - i,
    {
        let mut jb = jobs[i];
        let ok = jb.process(amount);
        if !ok {
            assert(orig == jobs_view(old(jobs)@));
            assert(!rat_fits(rat_sub(jobs_view(old(jobs)@)[i as int].rem, amount@)));
            return false;
        }
        jobs[i] = jb;
        i += 1;
    }
    assert(jobs_view(jobs@) =~= processed);
    true
}

/// Removes every finished job from the pool and says how many left.
pub(crate) fn drain_finished(jobs: &mut Vec<Job>) -> (count: usize)
    ensures
        jobs_view(final(jobs)@) == live(jobs_view(old(jobs)@)),
        count == old(jobs)@.len() - final(jobs)@.len(),
        final(jobs)@.len() <= old(jobs)@.len(),
{
    let ghost orig = jobs_view(jobs@);
    let n = jobs.len();
    let mut out: Vec<Job> = Vec::new();
    let mut count: usize = 0;
    let mut i: usize = 0;
    while i < n
        invariant
            0 <= i <= n,
            n == jobs@.len(),
            orig == jobs_view(jobs@),
            orig.len() == n,
            jobs_view(out@) =~= live(orig.take(i as int)),
            count == i - out@.len(),
            out@.len() <= i,
        decreases n - i,
    {
        proof {
            reveal(Seq::filter);
            assert(orig.take(i as int + 1).drop_last() =~= orig.take(i as int));
            assert(orig.take(i as int + 1).last() == orig[i as int]);
        }
        if jobs[i].is_finished() {
            count += 1;
        } else {
            out.push(jobs[i]);
        }
        i += 1;
    }
    assert(orig.take(n as int) =~= orig);
    *jobs = out;
    count
}

/// One executable fair round-robin round; reports a rational out of the
/// executable range, after which the pool must not be used further.
pub(crate) fn rr_round(jobs: &mut Vec<Job>, time: Rat, cost: Rat) -> (r: Option<(Rat, Rat)>)
    requires
        old(jobs)@.len() > 0,
        old(jobs)@.len() <= 0x7fff_ffff_ffff_ffff,
        jobs_wf(jobs_view(old(jobs)@)),
        time@.wf(),
        cost@.wf(),
    ensures
        r matches Some((t2, c2)) ==> {
            let s2 = rr_step(RRState { jobs: jobs_view(old(jobs)@), time: time@, cost: cost@ });
            &&& jobs_view(final(jobs)@) == s2.jobs
            &&& t2@ == s2.time
            &&& c2@ == s2.cost
        },
        r is Some ==> rr_step_fits(RRState { jobs: jobs_view(old(jobs)@), time: time@, cost: cost@ }),
        r is None ==> !rr_step_fits(
            RRState { jobs: jobs_view(old(jobs)@), time: time@, cost: cost@ },
        ),
{
    let ghost s0 = RRState { jobs: jobs_view(jobs@), time: time@, cost: cost@ };
    let ghost rems = s0.jobs.drop_first().map_values(|j: SJob| j.rem);
    let n = jobs.len();
    let mut step: Rat = jobs[0].remaining();
    proof {
        assert(rems.skip(0) =~= rems);
        assert(s0.jobs[0] == jobs@[0]@);
    }
    let mut i: usize = 1;
    while i < n
        invariant
            1 <= i <= n,
            n == jobs@.len(),
            s0.jobs == jobs_view(jobs@),
            rems == s0.jobs.drop_first().map_values(|j: SJob| j.rem),
            rems.len() == n - 1,
            jobs_wf(s0.jobs),
            step@.wf(),
            min_from(rems.skip(i - 1), step@) == min_from(rems, s0.jobs[0].rem),
        decreases n - i,
    {
        let ghost pre = step@;
        step = step.min(jobs[i].remaining());
        proof {
            assert(rems[i - 1] == s0.jobs[i as int].rem);
            assert(rems.skip(i - 1).drop_first() =~= rems.skip(i as int));
            assert(min_from(rems.skip(i - 1), pre) == min_from(
                rems.skip(i as int),
                rat_min(pre, rems[i - 1]),
            ));
        }
        i += 1;
    }
    proof {
        assert(rems.skip(n - 1) =~= Seq::<SRat>::empty());
        assert(step@ == min_from(rems, s0.jobs[0].rem));
    }
    let n_rat = Rat::from_int(n as i64);
    let t1 = match step.checked_mul(n_rat) {
        Some(v) => v,
        None => {
            return None;
        },
    };
    let time2 = match time.checked_add(t1) {
        Some(v) => v,
        None => {
            return None;
        },
    };
    let ghost processed = s0.jobs.map_values(|j: SJob| sjob_process(j, step@));
    let mut i: usize = 0;
    while i < n
        invariant
            0 <= i <= n,
            n == jobs@.len(),
            processed == s0.jobs.map_values(|j: SJob| sjob_process(j, step@)),
            processed.len() == n,
            s0.jobs.len() == n,
            s0.jobs == jobs_view(old(jobs)@),
            s0.time == time@,
            s0.cost == cost@,
            step@ == min_from(s0.jobs.drop_first().map_values(|j: SJob| j.rem), s0.jobs[0].rem),
            forall|k: int| 0 <= k < i ==> (#[trigger] jobs@[k])@ == processed[k],
            forall|k: int| i <= k < n ==> (#[trigger] jobs@[k])@ == s0.jobs[k],
            forall|k: int| 0 <= k < i ==> rat_fits(rat_sub((#[trigger] s0.jobs[k]).rem, step@)),
        decreases n - i,
    {
        let mut jb = jobs[i];
        let ok = jb.process(step);
        if !ok {
            assert(!rat_fits(rat_sub(s0.jobs[i as int].rem, step@)));
            assert(!rr_step_fits(s0));
            return None;
        }
        jobs[i] = jb;
        i += 1;
    }
    assert(jobs_view(jobs@) =~= processed);
    assert(forall|k: int|
        0 <= k < n ==> rat_fits(rat_sub((#[trigger] s0.jobs[k]).rem, step@)));
    let mut out: Vec<Job> = Vec::new();
    let mut finished_count: usize = 0;
    let mut i: usize = 0;
    while i < n
        invariant
            0 <= i <= n,
            n == jobs@.len(),
            jobs_view(jobs@) == processed,
            jobs_view(out@) =~= live(processed.take(i as int)),
            finished_count == i - out@.len(),
            out@.len() <= i,
        decreases n - i,
    {
        proof {
            reveal(Seq::filter);
            assert(processed.take(i as int + 1).drop_last() =~= processed.take(i as int));
            assert(processed.take(i as int + 1).last() == processed[i as int]);
        }
        if jobs[i].is_finished() {
            finished_count += 1;
        } else {
            out.push(jobs[i]);
        }
        i += 1;
    }
    assert(processed.take(n as int) =~= processed);
    let cnt_rat = Rat::from_int(finished_count as i64);
    let c1 = match cnt_rat.checked_mul(time2) {
        Some(v) => v,
        None => {
            return None;
        },
    };
    let cost2 = match cost.checked_add(c1) {
        Some(v) => v,
        None => {
            return None;
        },
    };
    *jobs = out;
    Some((time2, cost2))
}

} // verus!
