//! Laws of the engines, stated and proved against the models.

use vstd::prelude::*;
use crate::rat::{
    SRat, rat_eq, rat_le, rat_lt, rat_add, rat_sub, rat_mul, rat_div, rat_min, rat_of_int,
    rat_tolerance, lemma_rat_int_bounds, lemma_rat_le_congr, lemma_rat_eq_trans,
    lemma_rat_add_exact, lemma_rat_sub_exact, lemma_rat_mul_exact, lemma_rat_div_exact,
    lemma_rat_add_congr2, lemma_rat_mul_congr2, lemma_rat_neutral, lemma_rat_add_assoc,
    lemma_rat_mul_distrib, lemma_rat_mul_succ, lemma_rat_sub_eq_zero,
};

use crate::job::{SJob, sjob_process};
use vstd::multiset::Multiset;
use crate::sim::{
    rat_zero, rat_one, rats_wf, jobs_wf, zip_jobs, insert_by_pred, sort_by_pred, init_jobs, job_le,
    min_from, live, lemma_live, lemma_init_jobs_wf, RRState, rr_run,
};
use crate::instance::{insert_by_val, sort_rats, weighted_total, optimal_flow_spec};

use crate::arr::{ArrState, SBudget, arr_step, arr_run, arr_init, arr_cost, lemma_arr_step};
use crate::two_stage::{TsState, ts_commit, ts_phase_a, mismatch, lemma_ts_phase_a_step};

verus! {

/// The remaining-work values of a job pool.
pub open spec fn rems_of(s: Seq<SJob>) -> Seq<SRat> {
    s.map_values(|j: SJob| j.rem)
}

/// Every job predicts its own remaining work exactly, which is also its true
/// length.
pub open spec fn self_predicting(s: Seq<SJob>) -> bool {
    forall|i: int|
        0 <= i < s.len() ==> (#[trigger] s[i]).pred == s[i].rem && s[i].total == s[i].rem
}

/// Sequential completion in order: each job runs alone to the end; its
/// completion time joins the cost.
pub open spec fn sjf_cost(jobs: Seq<SJob>, time: SRat, cost: SRat) -> SRat
    decreases jobs.len(),
{
    if jobs.len() == 0 {
        cost
    } else {
        let t2 = rat_add(time, jobs[0].rem);
        sjf_cost(jobs.drop_first(), t2, rat_add(cost, t2))
    }
}

proof fn lemma_sjf_wf(jobs: Seq<SJob>, time: SRat, cost: SRat)
    requires
        jobs_wf(jobs),
        time.wf(),
        cost.wf(),
    ensures
        sjf_cost(jobs, time, cost).wf(),
    decreases jobs.len(),
{
    if jobs.len() > 0 {
        let t2 = rat_add(time, jobs[0].rem);
        lemma_rat_add_exact(time, jobs[0].rem);
        lemma_rat_add_exact(cost, t2);
        let rest = jobs.drop_first();
        assert(jobs_wf(rest)) by {
            assert(forall|i: int| 0 <= i < rest.len() ==> #[trigger] rest[i] == jobs[i + 1]);
        }
        lemma_sjf_wf(rest, t2, rat_add(cost, t2));
    }
}

proof fn lemma_sjf_congr(jobs: Seq<SJob>, t: SRat, c: SRat, t2: SRat, c2: SRat)
    requires
        jobs_wf(jobs),
        t.wf(),
        c.wf(),
        t2.wf(),
        c2.wf(),
        rat_eq(t, t2),
        rat_eq(c, c2),
    ensures
        rat_eq(sjf_cost(jobs, t, c), sjf_cost(jobs, t2, c2)),
    decreases jobs.len(),
{
    if jobs.len() > 0 {
        let r0 = jobs[0].rem;
        lemma_rat_add_congr2(t, r0, t2, r0);
        lemma_rat_add_exact(t, r0);
        lemma_rat_add_exact(t2, r0);
        lemma_rat_add_congr2(c, rat_add(t, r0), c2, rat_add(t2, r0));
        lemma_rat_add_exact(c, rat_add(t, r0));
        lemma_rat_add_exact(c2, rat_add(t2, r0));
        let rest = jobs.drop_first();
        assert(jobs_wf(rest)) by {
            assert(forall|i: int| 0 <= i < rest.len() ==> #[trigger] rest[i] == jobs[i + 1]);
        }
        lemma_sjf_congr(
            rest,
            rat_add(t, r0),
            rat_add(c, rat_add(t, r0)),
            rat_add(t2, r0),
            rat_add(c2, rat_add(t2, r0)),
        );
    }
}

proof fn lemma_weighted_total_wf(t: Seq<SRat>)
    requires
        rats_wf(t),
    ensures
        weighted_total(t).wf(),
    decreases t.len(),
{
    if t.len() > 0 {
        lemma_rat_mul_exact(rat_of_int(t.len() as int), t[0]);
        let rest = t.drop_first();
        assert(rats_wf(rest)) by {
            assert(forall|i: int| 0 <= i < rest.len() ==> #[trigger] rest[i] == t[i + 1]);
        }
        lemma_weighted_total_wf(rest);
        lemma_rat_add_exact(rat_mul(rat_of_int(t.len() as int), t[0]), weighted_total(rest));
    }
}

/// Sequential completion sums to `cost + n * time` plus the rank-weighted
/// total of the remaining-work values: the job of rank `i` is counted once
/// in each of the `n - i` completion times from its own on.
proof fn lemma_sjf_weighted(jobs: Seq<SJob>, time: SRat, cost: SRat)
    requires
        jobs_wf(jobs),
        time.wf(),
        cost.wf(),
    ensures
        rat_eq(
            sjf_cost(jobs, time, cost),
            rat_add(
                cost,
                rat_add(
                    rat_mul(rat_of_int(jobs.len() as int), time),
                    weighted_total(rems_of(jobs)),
                ),
            ),
        ),
    decreases jobs.len(),
{
    let t = rems_of(jobs);
    assert(rats_wf(t)) by {
        assert(forall|i: int| 0 <= i < t.len() ==> #[trigger] t[i] == jobs[i].rem);
    }
    lemma_weighted_total_wf(t);
    if jobs.len() == 0 {
        lemma_rat_neutral(time);
        lemma_rat_neutral(cost);
        let z = rat_of_int(0);
        assert(weighted_total(t) == z);
        assert(rat_mul(z, time).wf() && rat_eq(rat_mul(z, time), z)) by {
            lemma_rat_mul_exact(z, time);
            assert(rat_eq(crate::rat::rat_mul_raw(z, time), z)) by (nonlinear_arith)
                requires
                    time.d >= 1,
                    crate::rat::rat_mul_raw(z, time) == (SRat { n: 0 * time.n, d: 1 * time.d }),
                    z == (SRat { n: 0, d: 1 }),
            ;
            lemma_rat_eq_trans(rat_mul(z, time), crate::rat::rat_mul_raw(z, time), z);
        }
        lemma_rat_add_congr2(rat_mul(z, time), z, z, z);
        lemma_rat_add_exact(rat_mul(z, time), z);
        lemma_rat_add_exact(z, z);
        assert(rat_eq(rat_add(z, z), z)) by {
            lemma_rat_neutral(z);
        }
        lemma_rat_eq_trans(rat_add(rat_mul(z, time), z), rat_add(z, z), z);
        lemma_rat_add_congr2(cost, rat_add(rat_mul(z, time), z), cost, z);
        lemma_rat_add_exact(cost, rat_add(rat_mul(z, time), z));
        lemma_rat_add_exact(cost, z);
        lemma_rat_eq_trans(
            cost,
            rat_add(cost, z),
            rat_add(cost, rat_add(rat_mul(z, time), z)),
        );
    } else {
        let n = jobs.len() as int;
        let nn = rat_of_int(n);
        let r0 = jobs[0].rem;
        let tt = rat_add(time, r0);
        let cc = rat_add(cost, tt);
        lemma_rat_add_exact(time, r0);
        lemma_rat_add_exact(cost, tt);
        let rest = jobs.drop_first();
        assert(jobs_wf(rest)) by {
            assert(forall|i: int| 0 <= i < rest.len() ==> #[trigger] rest[i] == jobs[i + 1]);
        }
        lemma_sjf_weighted(rest, tt, cc);
        let wtr = weighted_total(rems_of(rest));
        assert(rems_of(rest) =~= t.drop_first());
        assert(rats_wf(rems_of(rest))) by {
            assert(forall|i: int|
                0 <= i < rems_of(rest).len() ==> #[trigger] rems_of(rest)[i] == rest[i].rem);
        }
        lemma_weighted_total_wf(rems_of(rest));
        let m = rat_mul(rat_of_int(n - 1), tt);
        lemma_rat_mul_exact(rat_of_int(n - 1), tt);
        // the inductive value: cc + ((n-1)*tt + wtr)
        let a1 = rat_add(m, wtr);
        lemma_rat_add_exact(m, wtr);
        let lhs = rat_add(cc, a1);
        lemma_rat_add_exact(cc, a1);
        lemma_sjf_wf(rest, tt, cc);
        // regroup: cc + (m + wtr) ~ (cc + m) + wtr
        lemma_rat_add_assoc(cc, m, wtr);
        let g1 = rat_add(rat_add(cc, m), wtr);
        lemma_rat_add_exact(cc, m);
        lemma_rat_add_exact(rat_add(cc, m), wtr);
        // cc + m = (cost + tt) + m ~ cost + (tt + m)
        lemma_rat_add_assoc(cost, tt, m);
        let tm = rat_add(tt, m);
        lemma_rat_add_exact(tt, m);
        // tt + (n-1)*tt ~ n*tt
        lemma_rat_mul_succ(n - 1, tt);
        let ntt = rat_mul(nn, tt);
        lemma_rat_mul_exact(nn, tt);
        // n*(time + r0) ~ n*time + n*r0
        lemma_rat_mul_distrib(nn, time, r0);
        let ntime = rat_mul(nn, time);
        let nr0 = rat_mul(nn, r0);
        lemma_rat_mul_exact(nn, time);
        lemma_rat_mul_exact(nn, r0);
        lemma_rat_add_exact(ntime, nr0);
        // tm ~ ntime + nr0
        lemma_rat_eq_trans(tm, ntt, rat_add(ntime, nr0));
        // cc + m ~ cost + (ntime + nr0)
        lemma_rat_add_congr2(cost, tm, cost, rat_add(ntime, nr0));
        lemma_rat_add_exact(cost, tm);
        lemma_rat_add_exact(cost, rat_add(ntime, nr0));
        lemma_rat_eq_trans(
            rat_add(cc, m),
            rat_add(cost, tm),
            rat_add(cost, rat_add(ntime, nr0)),
        );
        // g1 ~ (cost + (ntime + nr0)) + wtr ~ cost + ((ntime + nr0) + wtr)
        lemma_rat_add_congr2(rat_add(cc, m), wtr, rat_add(cost, rat_add(ntime, nr0)), wtr);
        lemma_rat_add_exact(rat_add(cost, rat_add(ntime, nr0)), wtr);
        lemma_rat_add_assoc(cost, rat_add(ntime, nr0), wtr);
        let g2 = rat_add(cost, rat_add(rat_add(ntime, nr0), wtr));
        lemma_rat_add_exact(rat_add(ntime, nr0), wtr);
        lemma_rat_add_exact(cost, rat_add(rat_add(ntime, nr0), wtr));
        // (ntime + nr0) + wtr ~ ntime + (nr0 + wtr), and nr0 + wtr == WT(t)
        lemma_rat_add_assoc(ntime, nr0, wtr);
        assert(weighted_total(t) == rat_add(nr0, wtr)) by {
            assert(t[0] == r0);
            assert(t.len() == n);
            assert(t.drop_first() =~= rems_of(rest));
        }
        lemma_rat_add_exact(nr0, wtr);
        lemma_rat_add_exact(ntime, rat_add(nr0, wtr));
        lemma_rat_add_congr2(
            cost,
            rat_add(rat_add(ntime, nr0), wtr),
            cost,
            rat_add(ntime, rat_add(nr0, wtr)),
        );
        lemma_rat_add_exact(cost, rat_add(ntime, rat_add(nr0, wtr)));
        // chain everything
        lemma_rat_eq_trans(lhs, g1, rat_add(rat_add(cost, rat_add(ntime, nr0)), wtr));
        lemma_rat_eq_trans(lhs, rat_add(rat_add(cost, rat_add(ntime, nr0)), wtr), g2);
        lemma_rat_eq_trans(lhs, g2, rat_add(cost, rat_add(ntime, rat_add(nr0, wtr))));
        lemma_rat_eq_trans(sjf_cost(jobs, time, cost), lhs, rat_add(cost, rat_add(ntime, rat_add(nr0, wtr))));
    }
}

/// A job whose remaining work lies in `(0, tolerance]` is finished, exactly
/// as one whose remaining work is zero: the finishing test is tolerance
/// based, never exact.
pub proof fn lemma_tolerance_finished(j: SJob)
    requires
        j.wf(),
        rat_lt(rat_zero(), j.rem),
        rat_le(j.rem, rat_tolerance()),
    ensures
        j.finished(),
        forall|z: SJob| z.wf() && rat_eq(z.rem, rat_zero()) ==> j.finished() == (#[trigger] z.finished()),
{
    assert forall|z: SJob| z.wf() && rat_eq(z.rem, rat_zero()) implies j.finished() == (
    #[trigger] z.finished()) by {
        lemma_rat_le_congr(z.rem, rat_tolerance(), rat_zero(), rat_tolerance());
        lemma_rat_int_bounds(rat_tolerance());
        assert(rat_le(rat_zero(), rat_tolerance())) by (nonlinear_arith);
        assert(z.finished());
    }
}

proof fn lemma_insert_self_predicting(j: SJob, s: Seq<SJob>)
    requires
        j.pred == j.rem,
        j.total == j.rem,
        self_predicting(s),
    ensures
        rems_of(insert_by_pred(j, s)) == insert_by_val(j.rem, rems_of(s)),
        self_predicting(insert_by_pred(j, s)),
        insert_by_pred(j, s).len() == s.len() + 1,
    decreases s.len(),
{
    let out = insert_by_pred(j, s);
    // for self-predicting jobs the canonical order coincides with the value
    // order of the remaining work
    assert(s.len() > 0 ==> (job_le(s[0], j) <==> rat_le(s[0].rem, j.rem))) by {
        if s.len() > 0 {
            assert(s[0].pred == s[0].rem && s[0].total == s[0].rem);
        }
    }
    if s.len() == 0 {
        assert(rems_of(out) =~= insert_by_val(j.rem, rems_of(s)));
        assert(self_predicting(out)) by {
            assert(out[0] == j);
        }
    } else if job_le(s[0], j) {
        let rest = s.drop_first();
        assert(self_predicting(rest)) by {
            assert(forall|i: int| 0 <= i < rest.len() ==> #[trigger] rest[i] == s[i + 1]);
        }
        lemma_insert_self_predicting(j, rest);
        assert(s[0].rem == rems_of(s)[0]);
        assert(rat_le(rems_of(s)[0], j.rem));
        assert(rems_of(s).drop_first() =~= rems_of(rest));
        assert(rems_of(out) =~= seq![rems_of(s)[0]] + insert_by_val(j.rem, rems_of(rest))) by {
            assert(forall|i: int|
                1 <= i < out.len() ==> #[trigger] out[i] == insert_by_pred(j, rest)[i - 1]);
            assert(forall|i: int|
                0 <= i < insert_by_pred(j, rest).len() ==> #[trigger] rems_of(
                    insert_by_pred(j, rest),
                )[i] == insert_by_pred(j, rest)[i].rem);
        }
        assert(rems_of(out) == insert_by_val(j.rem, rems_of(s)));
        assert(self_predicting(out)) by {
            assert(forall|i: int|
                1 <= i < out.len() ==> #[trigger] out[i] == insert_by_pred(j, rest)[i - 1]);
            assert(out[0] == s[0]);
        }
    } else {
        assert(s[0].rem == rems_of(s)[0]);
        assert(!rat_le(rems_of(s)[0], j.rem));
        assert(rems_of(out) =~= insert_by_val(j.rem, rems_of(s)));
        assert(self_predicting(out)) by {
            assert(forall|i: int| 1 <= i < out.len() ==> #[trigger] out[i] == s[i - 1]);
            assert(out[0] == j);
        }
    }
}

proof fn lemma_sort_self_predicting(s: Seq<SJob>)
    requires
        self_predicting(s),
    ensures
        rems_of(sort_by_pred(s)) == sort_rats(rems_of(s)),
        self_predicting(sort_by_pred(s)),
        sort_by_pred(s).len() == s.len(),
    decreases s.len(),
{
    if s.len() == 0 {
        assert(rems_of(sort_by_pred(s)) =~= sort_rats(rems_of(s)));
    } else {
        let rest = s.drop_last();
        assert(self_predicting(rest)) by {
            assert(forall|i: int| 0 <= i < rest.len() ==> #[trigger] rest[i] == s[i]);
        }
        lemma_sort_self_predicting(rest);
        assert(s.last().pred == s.last().rem && s.last().total == s.last().rem);
        lemma_insert_self_predicting(s.last(), sort_by_pred(rest));
        assert(rems_of(rest) =~= rems_of(s).drop_last());
        assert(rems_of(s).last() == s.last().rem);
    }
}

/// With full trust, perfect predictions and the equal-share convention, ARR
/// runs each candidate alone to completion, in order: the fallback pool
/// stays empty and the run is the sequential completion of the candidates.
proof fn lemma_arr_perfect_run(s: ArrState)
    requires
        s.wf(),
        s.rr.len() == 0,
        s.budget is Fresh,
        self_predicting(s.cand),
    ensures
        rat_eq(arr_run(s, rat_of_int(0), true), sjf_cost(s.cand, s.time, s.cost)),
        arr_run(s, rat_of_int(0), true).wf(),
    decreases s.cand.len(),
{
    let zero = rat_of_int(0);
    let one = rat_of_int(1);
    if s.cand.len() == 0 {
        assert(s.done());
    } else {
        lemma_arr_step(s, zero, true);
        let head = s.cand[0];
        // the fresh budget is exactly the (perfect) prediction
        let om = rat_sub(one, zero);
        lemma_rat_sub_exact(one, zero);
        assert(crate::rat::rat_sub_raw(one, zero) == one) by (nonlinear_arith)
            requires
                one == (SRat { n: 1, d: 1 }),
                zero == (SRat { n: 0, d: 1 }),
                crate::rat::rat_sub_raw(one, zero) == (SRat {
                    n: one.n * zero.d - zero.n * one.d,
                    d: one.d * zero.d,
                }),
        ;
        let budget = rat_mul(om, head.pred);
        lemma_rat_mul_exact(om, head.pred);
        lemma_rat_mul_exact(one, head.pred);
        lemma_rat_mul_congr2(om, head.pred, one, head.pred);
        lemma_rat_neutral(head.pred);
        lemma_rat_eq_trans(budget, rat_mul(one, head.pred), head.pred);
        assert(rat_eq(budget, head.rem));
        // so the active job's allowance never cuts it short
        lemma_rat_le_congr(budget, head.rem, head.rem, head.rem);
        assert(rat_le(budget, head.rem));
        assert(rat_min(budget, head.rem) == budget);
        assert(crate::arr::arr_scales(s.cand.len() as int, 0, true) == (rat_one(), rat_one()));
        let cstep = rat_mul(budget, rat_one());
        lemma_rat_mul_exact(budget, rat_one());
        lemma_rat_neutral(budget);
        assert(s.rr.map_values(|j: SJob| rat_mul(j.rem, rat_one())) =~= Seq::<SRat>::empty());
        assert(min_from(Seq::<SRat>::empty(), cstep) == cstep);
        assert(crate::arr::arr_budget(s, zero) == budget);
        // one step finishes the head exactly
        let processed = rat_div(cstep, rat_one());
        lemma_rat_div_exact(cstep, rat_one());
        lemma_rat_neutral(cstep);
        lemma_rat_eq_trans(processed, cstep, budget);
        lemma_rat_eq_trans(processed, budget, head.rem);
        assert(rat_eq(head.rem, processed)) by (nonlinear_arith)
            requires
                rat_eq(processed, head.rem),
        ;
        lemma_rat_sub_eq_zero(head.rem, processed);
        let head2 = SJob { total: head.total, pred: head.pred, rem: rat_sub(head.rem, processed) };
        assert(head2.finished());
        let s2 = arr_step(s, zero, true);
        let rrp = s.rr.map_values(|j: SJob| sjob_process(j, rat_div(cstep, rat_one())));
        assert(rrp =~= Seq::<SJob>::empty());
        assert(jobs_wf(rrp));
        lemma_live(rrp);
        assert(live(rrp) =~= Seq::<SJob>::empty());
        let time2 = rat_add(s.time, rat_mul(cstep, rat_of_int(1)));
        let cost2 = rat_add(s.cost, rat_mul(rat_of_int(0), time2));
        assert(s2 == ArrState {
            cand: s.cand.drop_first(),
            rr: live(rrp),
            time: time2,
            cost: rat_add(cost2, time2),
            budget: SBudget::Fresh,
        });
        // the clock and cost advance exactly as sequential completion says
        lemma_rat_mul_exact(cstep, rat_of_int(1));
        lemma_rat_add_exact(s.time, rat_mul(cstep, rat_of_int(1)));
        lemma_rat_neutral(cstep);
        lemma_rat_eq_trans(rat_mul(cstep, rat_of_int(1)), cstep, budget);
        lemma_rat_eq_trans(rat_mul(cstep, rat_of_int(1)), budget, head.rem);
        let tideal = rat_add(s.time, head.rem);
        lemma_rat_add_exact(s.time, head.rem);
        lemma_rat_add_congr2(s.time, rat_mul(cstep, rat_of_int(1)), s.time, head.rem);
        assert(rat_eq(time2, tideal));
        lemma_rat_mul_exact(rat_of_int(0), time2);
        assert(rat_eq(rat_mul(rat_of_int(0), time2), zero)) by {
            assert(rat_eq(crate::rat::rat_mul_raw(rat_of_int(0), time2), zero)) by (nonlinear_arith)
                requires
                    time2.d >= 1,
                    crate::rat::rat_mul_raw(rat_of_int(0), time2) == (SRat {
                        n: 0 * time2.n,
                        d: 1 * time2.d,
                    }),
                    zero == (SRat { n: 0, d: 1 }),
            ;
            lemma_rat_eq_trans(
                rat_mul(rat_of_int(0), time2),
                crate::rat::rat_mul_raw(rat_of_int(0), time2),
                zero,
            );
        }
        lemma_rat_add_exact(s.cost, rat_mul(rat_of_int(0), time2));
        lemma_rat_add_exact(s.cost, zero);
        lemma_rat_add_congr2(s.cost, rat_mul(rat_of_int(0), time2), s.cost, zero);
        lemma_rat_neutral(s.cost);
        lemma_rat_eq_trans(cost2, rat_add(s.cost, zero), s.cost);
        let cideal = rat_add(s.cost, tideal);
        lemma_rat_add_exact(s.cost, tideal);
        lemma_rat_add_exact(cost2, time2);
        lemma_rat_add_congr2(cost2, time2, s.cost, tideal);
        assert(rat_eq(rat_add(cost2, time2), cideal));
        // recurse on the rest
        assert(self_predicting(s2.cand)) by {
            assert(forall|i: int| 0 <= i < s2.cand.len() ==> #[trigger] s2.cand[i] == s.cand[i + 1]);
        }
        lemma_arr_perfect_run(s2);
        assert(arr_run(s, zero, true) == arr_run(s2, zero, true));
        // line the two accounts up
        assert(jobs_wf(s2.cand));
        lemma_sjf_wf(s2.cand, s2.time, s2.cost);
        lemma_sjf_wf(s2.cand, tideal, cideal);
        lemma_sjf_congr(s2.cand, s2.time, s2.cost, tideal, cideal);
        assert(sjf_cost(s.cand, s.time, s.cost) == sjf_cost(s2.cand, tideal, cideal));
        lemma_rat_eq_trans(
            arr_run(s2, zero, true),
            sjf_cost(s2.cand, s2.time, s2.cost),
            sjf_cost(s2.cand, tideal, cideal),
        );
    }
}

/// Perfect predictions under full trust reduce ARR to the offline optimum:
/// with the prediction equal to the instance, zero trust parameter and the
/// equal-share convention, the ARR cost is the optimal total flow time.
pub proof fn lemma_arr_perfect_predictions(li: Seq<SRat>)
    requires
        rats_wf(li),
        forall|i: int| 0 <= i < li.len() ==> rat_le(rat_zero(), #[trigger] li[i]),
    ensures
        rat_eq(arr_cost(li, li, rat_of_int(0), true), optimal_flow_spec(li)),
{
    lemma_init_jobs_wf(li, li);
    let z = zip_jobs(li, li);
    assert(self_predicting(z)) by {
        assert(forall|i: int|
            0 <= i < z.len() ==> #[trigger] z[i] == (SJob { total: li[i], pred: li[i], rem: li[i] }));
    }
    lemma_sort_self_predicting(z);
    assert(rems_of(z) =~= li);
    let cand = init_jobs(li, li);
    let s0 = arr_init(li, li);
    assert(s0.cand == cand && s0.rr.len() == 0 && s0.budget is Fresh);
    assert(rat_zero() == rat_of_int(0));
    lemma_arr_perfect_run(s0);
    lemma_sjf_weighted(cand, rat_of_int(0), rat_of_int(0));
    let zero = rat_of_int(0);
    let wt = weighted_total(rems_of(cand));
    assert(rems_of(cand) == sort_rats(li));
    assert(rats_wf(rems_of(cand))) by {
        assert(forall|i: int|
            0 <= i < rems_of(cand).len() ==> #[trigger] rems_of(cand)[i] == cand[i].rem);
    }
    lemma_weighted_total_wf(rems_of(cand));
    // the zero start collapses: 0 + (n * 0 + wt) has the value wt
    let nn = rat_of_int(cand.len() as int);
    let nz = rat_mul(nn, zero);
    lemma_rat_mul_exact(nn, zero);
    lemma_rat_neutral(nn);
    assert(rat_eq(nz, zero));
    lemma_rat_add_exact(nz, wt);
    lemma_rat_add_exact(zero, wt);
    lemma_rat_add_congr2(nz, wt, zero, wt);
    lemma_rat_neutral(wt);
    assert(rat_eq(rat_add(zero, wt), wt)) by {
        lemma_rat_eq_trans(rat_add(zero, wt), rat_add(zero, wt), wt);
    }
    lemma_rat_eq_trans(rat_add(nz, wt), rat_add(zero, wt), wt);
    lemma_rat_add_exact(zero, rat_add(nz, wt));
    lemma_rat_add_congr2(zero, rat_add(nz, wt), zero, wt);
    lemma_rat_eq_trans(rat_add(zero, rat_add(nz, wt)), rat_add(zero, wt), wt);
    lemma_sjf_wf(cand, zero, zero);
    lemma_rat_eq_trans(
        sjf_cost(cand, zero, zero),
        rat_add(zero, rat_add(nz, wt)),
        wt,
    );
    lemma_rat_eq_trans(arr_cost(li, li, zero, true), sjf_cost(cand, zero, zero), wt);
}

proof fn lemma_insert_preserves(j: SJob, s: Seq<SJob>, p: spec_fn(SJob) -> bool)
    requires
        p(j),
        forall|i: int| 0 <= i < s.len() ==> p(#[trigger] s[i]),
    ensures
        forall|i: int|
            0 <= i < insert_by_pred(j, s).len() ==> p(#[trigger] insert_by_pred(j, s)[i]),
        insert_by_pred(j, s).len() == s.len() + 1,
    decreases s.len(),
{
    let out = insert_by_pred(j, s);
    if s.len() == 0 {
        assert(out[0] == j);
    } else if job_le(s[0], j) {
        let rest = s.drop_first();
        assert(forall|i: int| 0 <= i < rest.len() ==> #[trigger] rest[i] == s[i + 1]);
        lemma_insert_preserves(j, rest, p);
        assert(forall|i: int|
            1 <= i < out.len() ==> #[trigger] out[i] == insert_by_pred(j, rest)[i - 1]);
        assert(out[0] == s[0]);
    } else {
        assert(forall|i: int| 1 <= i < out.len() ==> #[trigger] out[i] == s[i - 1]);
        assert(out[0] == j);
    }
}

proof fn lemma_sort_preserves(s: Seq<SJob>, p: spec_fn(SJob) -> bool)
    requires
        forall|i: int| 0 <= i < s.len() ==> p(#[trigger] s[i]),
    ensures
        forall|i: int| 0 <= i < sort_by_pred(s).len() ==> p(#[trigger] sort_by_pred(s)[i]),
        sort_by_pred(s).len() == s.len(),
    decreases s.len(),
{
    if s.len() > 0 {
        let rest = s.drop_last();
        assert(forall|i: int| 0 <= i < rest.len() ==> #[trigger] rest[i] == s[i]);
        lemma_sort_preserves(rest, p);
        assert(p(s.last()));
        lemma_insert_preserves(s.last(), sort_by_pred(rest), p);
    }
}

/// Once the candidates are gone, ARR is exactly the fair round-robin drain
/// of its fallback pool.
proof fn lemma_arr_drain(s: ArrState, lambda: SRat, es: bool)
    requires
        s.wf(),
        lambda.wf(),
        s.cand.len() == 0,
    ensures
        arr_run(s, lambda, es) == rr_run(RRState { jobs: s.rr, time: s.time, cost: s.cost }),
    decreases s.rr.len(),
{
    if s.rr.len() > 0 {
        lemma_arr_step(s, lambda, es);
        crate::sim::lemma_rr_step(RRState { jobs: s.rr, time: s.time, cost: s.cost });
        let s2 = arr_step(s, lambda, es);
        lemma_arr_drain(s2, lambda, es);
    }
}

/// With full trust the fresh budget is always zero: each step demotes the
/// head candidate, untouched, to the fallback pool at virtual time zero;
/// what remains is fair round robin over all jobs in prediction order.
proof fn lemma_arr_full_trust_run(s: ArrState, es: bool)
    requires
        s.wf(),
        s.budget is Fresh,
        forall|i: int| 0 <= i < s.cand.len() ==> rat_lt(rat_tolerance(), (#[trigger] s.cand[i]).rem),
        forall|i: int| 0 <= i < s.rr.len() ==> rat_lt(rat_tolerance(), (#[trigger] s.rr[i]).rem),
    ensures
        rat_eq(
            arr_run(s, rat_of_int(1), es),
            rr_run(RRState { jobs: s.rr + s.cand, time: s.time, cost: s.cost }),
        ),
        arr_run(s, rat_of_int(1), es).wf(),
    decreases s.cand.len(),
{
    let one = rat_of_int(1);
    let zero = rat_of_int(0);
    let lam = one;
    if s.cand.len() == 0 {
        lemma_arr_drain(s, lam, es);
        assert(s.rr + s.cand =~= s.rr);
        crate::sim::lemma_rr_run_congr(
            RRState { jobs: s.rr, time: s.time, cost: s.cost },
            RRState { jobs: s.rr + s.cand, time: s.time, cost: s.cost },
        );
    } else {
        lemma_arr_step(s, lam, es);
        let c = s.cand.len() as int;
        let r = s.rr.len() as int;
        crate::arr::lemma_arr_scales(c, r, es);
        let scales = crate::arr::arr_scales(c, r, es);
        let ascale = scales.0;
        let rscale = scales.1;
        let head = s.cand[0];
        // the fresh budget is zero
        let om = rat_sub(one, one);
        lemma_rat_sub_exact(one, one);
        assert(crate::rat::rat_sub_raw(one, one) == zero) by (nonlinear_arith)
            requires
                one == (SRat { n: 1, d: 1 }),
                zero == (SRat { n: 0, d: 1 }),
                crate::rat::rat_sub_raw(one, one) == (SRat {
                    n: one.n * one.d - one.n * one.d,
                    d: one.d * one.d,
                }),
        ;
        let budget = rat_mul(om, head.pred);
        lemma_rat_mul_exact(om, head.pred);
        lemma_rat_mul_congr2(om, head.pred, zero, head.pred);
        lemma_rat_neutral(head.pred);
        lemma_rat_mul_exact(zero, head.pred);
        lemma_rat_eq_trans(budget, rat_mul(zero, head.pred), zero);
        // the head cannot be cut short by a zero budget
        lemma_rat_int_bounds(rat_tolerance());
        lemma_rat_int_bounds(head.rem);
        assert(rat_le(zero, rat_tolerance()));
        crate::rat::lemma_rat_le_lt_trans(zero, rat_tolerance(), head.rem);
        assert(rat_le(zero, head.rem));
        lemma_rat_le_congr(budget, head.rem, zero, head.rem);
        assert(rat_min(budget, head.rem) == budget);
        let cstep = rat_mul(budget, ascale);
        lemma_rat_mul_exact(budget, ascale);
        lemma_rat_mul_congr2(budget, ascale, zero, ascale);
        lemma_rat_neutral(ascale);
        lemma_rat_mul_exact(zero, ascale);
        lemma_rat_eq_trans(cstep, rat_mul(zero, ascale), zero);
        // every scaled fallback amount is at least the zero candidate step
        let scaled = s.rr.map_values(|j: SJob| rat_mul(j.rem, rscale));
        assert(rats_wf(scaled) && forall|i: int|
            0 <= i < scaled.len() ==> rat_le(cstep, #[trigger] scaled[i])) by {
            assert(forall|i: int|
                0 <= i < scaled.len() ==> #[trigger] scaled[i] == rat_mul(s.rr[i].rem, rscale));
            assert forall|i: int| 0 <= i < scaled.len() implies (#[trigger] scaled[i]).wf()
                && rat_le(cstep, scaled[i]) by {
                lemma_rat_mul_exact(s.rr[i].rem, rscale);
                lemma_rat_int_bounds(s.rr[i].rem);
                crate::rat::lemma_rat_le_lt_trans(zero, rat_tolerance(), s.rr[i].rem);
                crate::rat::lemma_rat_zero_misc(s.rr[i].rem, rscale);
                lemma_rat_int_bounds(rat_mul(s.rr[i].rem, rscale));
                assert(rat_le(zero, rat_mul(s.rr[i].rem, rscale)));
                lemma_rat_le_congr(cstep, scaled[i], zero, scaled[i]);
            }
        }
        crate::sim::lemma_min_from_acc(scaled, cstep);
        let step = min_from(scaled, cstep);
        assert(step == cstep);
        // nothing is processed in this step
        lemma_rat_div_exact(step, ascale);
        crate::rat::lemma_rat_zero_misc(step, ascale);
        let processed = rat_div(step, ascale);
        assert(rat_eq(processed, zero)) by {
            crate::rat::lemma_rat_zero_eq(step);
            crate::rat::lemma_rat_zero_eq(processed);
            crate::rat::lemma_rat_eq_sign(processed, crate::rat::rat_div_raw(step, ascale));
        }
        crate::rat::lemma_rat_zero_misc(head.rem, processed);
        lemma_rat_sub_exact(head.rem, processed);
        let head2 = SJob { total: head.total, pred: head.pred, rem: rat_sub(head.rem, processed) };
        assert(rat_eq(head2.rem, head.rem)) by (nonlinear_arith)
            requires
                rat_eq(head.rem, head2.rem),
        ;
        assert(rat_lt(rat_tolerance(), head2.rem)) by {
            lemma_rat_le_congr(head2.rem, rat_tolerance(), head.rem, rat_tolerance());
        }
        assert(!head2.finished());
        let rr_amount = rat_div(step, rscale);
        lemma_rat_div_exact(step, rscale);
        crate::rat::lemma_rat_zero_misc(step, rscale);
        assert(rat_eq(rr_amount, zero)) by {
            crate::rat::lemma_rat_zero_eq(step);
        }
        assert(rat_eq(processed, budget)) by {
            lemma_rat_eq_trans(processed, zero, budget);
        }
        // so the step demotes, and the fallback pool only drifts in
        // representation
        let rrp = s.rr.map_values(|j: SJob| sjob_process(j, rr_amount));
        assert(jobs_wf(rrp) && forall|i: int|
            0 <= i < rrp.len() ==> rat_eq((#[trigger] rrp[i]).rem, s.rr[i].rem) && rat_lt(
                rat_tolerance(),
                rrp[i].rem,
            ) && !rrp[i].finished()) by {
            assert(forall|i: int|
                0 <= i < rrp.len() ==> #[trigger] rrp[i] == sjob_process(s.rr[i], rr_amount));
            assert forall|i: int| 0 <= i < rrp.len() implies (#[trigger] rrp[i]).wf() && rat_eq(
                rrp[i].rem,
                s.rr[i].rem,
            ) && rat_lt(rat_tolerance(), rrp[i].rem) && !rrp[i].finished() by {
                lemma_rat_sub_exact(s.rr[i].rem, rr_amount);
                crate::rat::lemma_rat_zero_misc(s.rr[i].rem, rr_amount);
                assert(rat_eq(rat_sub(s.rr[i].rem, rr_amount), s.rr[i].rem)) by {
                    lemma_rat_sub_exact(s.rr[i].rem, zero);
                    crate::rat::lemma_rat_sub_congr2(
                        s.rr[i].rem,
                        rr_amount,
                        s.rr[i].rem,
                        zero,
                    );
                    lemma_rat_eq_trans(
                        rat_sub(s.rr[i].rem, rr_amount),
                        rat_sub(s.rr[i].rem, zero),
                        s.rr[i].rem,
                    );
                }
                lemma_rat_le_congr(
                    rat_tolerance(),
                    rrp[i].rem,
                    rat_tolerance(),
                    s.rr[i].rem,
                );
                lemma_rat_le_congr(rrp[i].rem, rat_tolerance(), s.rr[i].rem, rat_tolerance());
            }
        }
        crate::sim::lemma_live_all(rrp);
        let s2 = arr_step(s, lam, es);
        let time2 = if es {
            rat_add(s.time, rat_mul(step, rat_of_int(r + 1)))
        } else {
            rat_add(s.time, step)
        };
        assert(s2 == ArrState {
            cand: s.cand.drop_first(),
            rr: rrp.push(head2),
            time: time2,
            cost: rat_add(s.cost, rat_mul(rat_of_int(0), time2)),
            budget: SBudget::Fresh,
        });
        // the clock and the cost do not move
        assert(time2.wf() && rat_eq(time2, s.time)) by {
            if es {
                lemma_rat_mul_exact(step, rat_of_int(r + 1));
                lemma_rat_mul_congr2(step, rat_of_int(r + 1), zero, rat_of_int(r + 1));
                lemma_rat_neutral(rat_of_int(r + 1));
                lemma_rat_mul_exact(zero, rat_of_int(r + 1));
                lemma_rat_eq_trans(
                    rat_mul(step, rat_of_int(r + 1)),
                    rat_mul(zero, rat_of_int(r + 1)),
                    zero,
                );
                lemma_rat_add_exact(s.time, rat_mul(step, rat_of_int(r + 1)));
                lemma_rat_add_congr2(s.time, rat_mul(step, rat_of_int(r + 1)), s.time, zero);
                lemma_rat_add_exact(s.time, zero);
                lemma_rat_neutral(s.time);
                lemma_rat_eq_trans(time2, rat_add(s.time, zero), s.time);
            } else {
                lemma_rat_add_exact(s.time, step);
                lemma_rat_add_congr2(s.time, step, s.time, zero);
                lemma_rat_add_exact(s.time, zero);
                lemma_rat_neutral(s.time);
                lemma_rat_eq_trans(time2, rat_add(s.time, zero), s.time);
            }
        }
        let cost2 = rat_add(s.cost, rat_mul(rat_of_int(0), time2));
        assert(cost2.wf() && rat_eq(cost2, s.cost)) by {
            lemma_rat_mul_exact(rat_of_int(0), time2);
            lemma_rat_neutral(time2);
            lemma_rat_add_exact(s.cost, rat_mul(rat_of_int(0), time2));
            lemma_rat_add_congr2(s.cost, rat_mul(rat_of_int(0), time2), s.cost, zero);
            lemma_rat_add_exact(s.cost, zero);
            lemma_rat_neutral(s.cost);
            lemma_rat_eq_trans(cost2, rat_add(s.cost, zero), s.cost);
        }
        // recurse, then line the pools up pointwise
        assert(forall|i: int|
            0 <= i < s2.cand.len() ==> rat_lt(rat_tolerance(), (#[trigger] s2.cand[i]).rem)) by {
            assert(forall|i: int| 0 <= i < s2.cand.len() ==> #[trigger] s2.cand[i] == s.cand[i + 1]);
        }
        assert(forall|i: int|
            0 <= i < s2.rr.len() ==> rat_lt(rat_tolerance(), (#[trigger] s2.rr[i]).rem)) by {
            assert(forall|i: int| 0 <= i < rrp.len() ==> #[trigger] s2.rr[i] == rrp[i]);
            assert(s2.rr[rrp.len() as int] == head2);
        }
        lemma_arr_full_trust_run(s2, es);
        assert(arr_run(s, lam, es) == arr_run(s2, lam, es));
        let d2 = RRState { jobs: s2.rr + s2.cand, time: time2, cost: cost2 };
        let d1 = RRState { jobs: s.rr + s.cand, time: s.time, cost: s.cost };
        assert(d2.wf()) by {
            assert(forall|i: int|
                0 <= i < s2.rr.len() ==> #[trigger] d2.jobs[i] == s2.rr[i]);
            assert(forall|i: int|
                s2.rr.len() <= i < d2.jobs.len() ==> #[trigger] d2.jobs[i] == s2.cand[i
                    - s2.rr.len()]);
        }
        assert(d1.wf()) by {
            assert(forall|i: int| 0 <= i < s.rr.len() ==> #[trigger] d1.jobs[i] == s.rr[i]);
            assert(forall|i: int|
                s.rr.len() <= i < d1.jobs.len() ==> #[trigger] d1.jobs[i] == s.cand[i
                    - s.rr.len()]);
        }
        assert(crate::sim::rems_equiv(d2.jobs, d1.jobs)) by {
            assert(d2.jobs.len() == r + 1 + (c - 1) && d1.jobs.len() == r + c);
            assert(forall|i: int| 0 <= i < r ==> #[trigger] d2.jobs[i] == rrp[i]);
            assert(d2.jobs[r] == head2);
            assert(forall|i: int|
                r + 1 <= i < d2.jobs.len() ==> #[trigger] d2.jobs[i] == s.cand[i - r]);
            assert(forall|i: int| 0 <= i < r ==> #[trigger] d1.jobs[i] == s.rr[i]);
            assert(forall|i: int| r <= i < d1.jobs.len() ==> #[trigger] d1.jobs[i] == s.cand[i - r]);
            assert forall|i: int| 0 <= i < d2.jobs.len() implies rat_eq(
                (#[trigger] d2.jobs[i]).rem,
                d1.jobs[i].rem,
            ) by {
                if r + 1 <= i {
                    assert(d2.jobs[i] == d1.jobs[i]);
                }
            }
        }
        crate::sim::lemma_rr_run_congr(d2, d1);
        lemma_rat_eq_trans(arr_run(s2, lam, es), rr_run(d2), rr_run(d1));
    }
}

/// With full trust, ARR is exactly fair round robin over the jobs in
/// prediction order, under either virtual-time convention, whenever every
/// length exceeds the finishing tolerance (a job at most the tolerance long
/// is retired by ARR at virtual time zero, which fair round robin does not
/// imitate).
pub proof fn lemma_arr_full_trust_is_round_robin(li: Seq<SRat>, lp: Seq<SRat>, es: bool)
    requires
        rats_wf(li),
        rats_wf(lp),
        li.len() == lp.len(),
        forall|i: int| 0 <= i < li.len() ==> rat_lt(rat_tolerance(), #[trigger] li[i]),
    ensures
        rat_eq(
            arr_cost(li, lp, rat_of_int(1), es),
            rr_run(RRState { jobs: init_jobs(li, lp), time: rat_zero(), cost: rat_zero() }),
        ),
{
    lemma_init_jobs_wf(li, lp);
    let z = zip_jobs(li, lp);
    let p = |j: SJob| rat_lt(rat_tolerance(), j.rem);
    assert(forall|i: int| 0 <= i < z.len() ==> p(#[trigger] z[i])) by {
        assert(forall|i: int|
            0 <= i < z.len() ==> #[trigger] z[i] == (SJob { total: li[i], pred: lp[i], rem: li[i] }));
    }
    lemma_sort_preserves(z, p);
    let s0 = arr_init(li, lp);
    assert(forall|i: int|
        0 <= i < s0.cand.len() ==> rat_lt(rat_tolerance(), (#[trigger] s0.cand[i]).rem)) by {
        assert(forall|i: int| 0 <= i < s0.cand.len() ==> p(#[trigger] s0.cand[i]));
    }
    lemma_arr_full_trust_run(s0, es);
    assert(s0.rr + s0.cand =~= init_jobs(li, lp));
}

/// Ascending in the canonical job order.
pub open spec fn sorted_by_pred_order(s: Seq<SJob>) -> bool {
    forall|i: int, j: int| 0 <= i <= j < s.len() ==> job_le(#[trigger] s[i], #[trigger] s[j])
}

proof fn lemma_insert_sorted_multiset(j: SJob, s: Seq<SJob>)
    requires
        j.wf(),
        jobs_wf(s),
        sorted_by_pred_order(s),
    ensures
        insert_by_pred(j, s).to_multiset() == s.to_multiset().insert(j),
        sorted_by_pred_order(insert_by_pred(j, s)),
        jobs_wf(insert_by_pred(j, s)),
        insert_by_pred(j, s).len() == s.len() + 1,
    decreases s.len(),
{
    broadcast use vstd::seq_lib::group_to_multiset_ensures;
    broadcast use vstd::multiset::group_multiset_axioms;

    let out = insert_by_pred(j, s);
    crate::sim::lemma_insert_by_pred_wf(j, s);
    if s.len() == 0 {
        assert(seq![j] =~= s.push(j));
        assert(out[0] == j);
    } else if job_le(s[0], j) {
        let rest = s.drop_first();
        assert(jobs_wf(rest) && sorted_by_pred_order(rest)) by {
            assert(forall|i: int| 0 <= i < rest.len() ==> #[trigger] rest[i] == s[i + 1]);
        }
        lemma_insert_sorted_multiset(j, rest);
        let ins = insert_by_pred(j, rest);
        vstd::seq_lib::lemma_multiset_commutative(seq![s[0]], ins);
        vstd::seq_lib::lemma_multiset_commutative(seq![s[0]], rest);
        assert(seq![s[0]] + rest =~= s);
        assert(seq![s[0]].to_multiset() =~= Multiset::<SJob>::empty().insert(s[0])) by {
            assert(seq![s[0]] =~= Seq::<SJob>::empty().push(s[0]));
        }
        assert(out.to_multiset() =~= s.to_multiset().insert(j));
        // the head is a lower bound of everything inserted behind it
        assert(sorted_by_pred_order(out)) by {
            assert(forall|k: int| 1 <= k < out.len() ==> #[trigger] out[k] == ins[k - 1]);
            assert(out[0] == s[0]);
            assert forall|k: int| 1 <= k < out.len() implies job_le(out[0], #[trigger] out[k]) by {
                assert(ins.to_multiset().contains(ins[k - 1]));
                assert(rest.to_multiset().insert(j).contains(ins[k - 1]));
                if ins[k - 1] == j {
                } else {
                    assert(rest.to_multiset().contains(ins[k - 1]));
                    assert(rest.contains(ins[k - 1]));
                    let t = choose|t: int| 0 <= t < rest.len() && rest[t] == ins[k - 1];
                    assert(rest[t] == s[t + 1]);
                    assert(job_le(s[0], s[t + 1]));
                }
            }
        }
    } else {
        crate::sim::lemma_job_le_props(s[0], j, j);
        assert(job_le(j, s[0]));
        vstd::seq_lib::lemma_multiset_commutative(seq![j], s);
        assert(seq![j].to_multiset() =~= Multiset::<SJob>::empty().insert(j)) by {
            assert(seq![j] =~= Seq::<SJob>::empty().push(j));
        }
        assert(out.to_multiset() =~= s.to_multiset().insert(j));
        assert(sorted_by_pred_order(out)) by {
            assert(forall|k: int| 1 <= k < out.len() ==> #[trigger] out[k] == s[k - 1]);
            assert(out[0] == j);
            assert forall|k: int| 1 <= k < out.len() implies job_le(out[0], #[trigger] out[k]) by {
                crate::sim::lemma_job_le_props(j, s[0], s[k - 1]);
            }
        }
    }
}

proof fn lemma_sort_sorted_multiset(s: Seq<SJob>)
    requires
        jobs_wf(s),
    ensures
        sort_by_pred(s).to_multiset() == s.to_multiset(),
        sorted_by_pred_order(sort_by_pred(s)),
        jobs_wf(sort_by_pred(s)),
        sort_by_pred(s).len() == s.len(),
    decreases s.len(),
{
    broadcast use vstd::seq_lib::group_to_multiset_ensures;

    if s.len() > 0 {
        let rest = s.drop_last();
        assert(jobs_wf(rest)) by {
            assert(forall|i: int| 0 <= i < rest.len() ==> #[trigger] rest[i] == s[i]);
        }
        lemma_sort_sorted_multiset(rest);
        assert(s.last().wf());
        lemma_insert_sorted_multiset(s.last(), sort_by_pred(rest));
        assert(rest.push(s.last()) =~= s);
        assert(sort_by_pred(s).to_multiset() =~= s.to_multiset());
    } else {
        assert(sort_by_pred(s).to_multiset() =~= s.to_multiset());
    }
}

/// Ascending lengths.
pub open spec fn sorted_rats_order(s: Seq<SRat>) -> bool {
    forall|i: int, j: int| 0 <= i <= j < s.len() ==> rat_le(#[trigger] s[i], #[trigger] s[j])
}

proof fn lemma_insert_val_sorted_multiset(x: SRat, s: Seq<SRat>)
    requires
        x.wf(),
        rats_wf(s),
        sorted_rats_order(s),
    ensures
        insert_by_val(x, s).to_multiset() == s.to_multiset().insert(x),
        sorted_rats_order(insert_by_val(x, s)),
        rats_wf(insert_by_val(x, s)),
        insert_by_val(x, s).len() == s.len() + 1,
    decreases s.len(),
{
    broadcast use vstd::seq_lib::group_to_multiset_ensures;
    broadcast use vstd::multiset::group_multiset_axioms;

    let out = insert_by_val(x, s);
    if s.len() == 0 {
        assert(seq![x] =~= s.push(x));
        assert(out[0] == x);
    } else if rat_le(s[0], x) {
        let rest = s.drop_first();
        assert(rats_wf(rest) && sorted_rats_order(rest)) by {
            assert(forall|i: int| 0 <= i < rest.len() ==> #[trigger] rest[i] == s[i + 1]);
        }
        lemma_insert_val_sorted_multiset(x, rest);
        let ins = insert_by_val(x, rest);
        vstd::seq_lib::lemma_multiset_commutative(seq![s[0]], ins);
        vstd::seq_lib::lemma_multiset_commutative(seq![s[0]], rest);
        assert(seq![s[0]] + rest =~= s);
        assert(seq![s[0]].to_multiset() =~= Multiset::<SRat>::empty().insert(s[0])) by {
            assert(seq![s[0]] =~= Seq::<SRat>::empty().push(s[0]));
        }
        assert(out.to_multiset() =~= s.to_multiset().insert(x));
        assert(rats_wf(out) && out.len() == s.len() + 1) by {
            assert(forall|k: int| 1 <= k < out.len() ==> #[trigger] out[k] == ins[k - 1]);
            assert(out[0] == s[0]);
        }
        assert(sorted_rats_order(out)) by {
            assert(forall|k: int| 1 <= k < out.len() ==> #[trigger] out[k] == ins[k - 1]);
            assert(out[0] == s[0]);
            assert forall|k: int| 1 <= k < out.len() implies rat_le(out[0], #[trigger] out[k]) by {
                assert(ins.to_multiset().contains(ins[k - 1]));
                assert(rest.to_multiset().insert(x).contains(ins[k - 1]));
                if ins[k - 1] == x {
                } else {
                    assert(rest.to_multiset().contains(ins[k - 1]));
                    assert(rest.contains(ins[k - 1]));
                    let t = choose|t: int| 0 <= t < rest.len() && rest[t] == ins[k - 1];
                    assert(rest[t] == s[t + 1]);
                    assert(rat_le(s[0], s[t + 1]));
                }
            }
        }
    } else {
        assert(rat_le(x, s[0]));
        vstd::seq_lib::lemma_multiset_commutative(seq![x], s);
        assert(seq![x].to_multiset() =~= Multiset::<SRat>::empty().insert(x)) by {
            assert(seq![x] =~= Seq::<SRat>::empty().push(x));
        }
        assert(out.to_multiset() =~= s.to_multiset().insert(x));
        assert(rats_wf(out) && out.len() == s.len() + 1) by {
            assert(forall|k: int| 1 <= k < out.len() ==> #[trigger] out[k] == s[k - 1]);
            assert(out[0] == x);
        }
        assert(sorted_rats_order(out)) by {
            assert(forall|k: int| 1 <= k < out.len() ==> #[trigger] out[k] == s[k - 1]);
            assert(out[0] == x);
            assert forall|k: int| 1 <= k < out.len() implies rat_le(out[0], #[trigger] out[k]) by {
                crate::rat::lemma_rat_le_trans(x, s[0], s[k - 1]);
            }
        }
    }
}

proof fn lemma_sort_rats_sorted_multiset(s: Seq<SRat>)
    requires
        rats_wf(s),
    ensures
        sort_rats(s).to_multiset() == s.to_multiset(),
        sorted_rats_order(sort_rats(s)),
        rats_wf(sort_rats(s)),
        sort_rats(s).len() == s.len(),
    decreases s.len(),
{
    broadcast use vstd::seq_lib::group_to_multiset_ensures;

    if s.len() > 0 {
        let rest = s.drop_last();
        assert(rats_wf(rest)) by {
            assert(forall|i: int| 0 <= i < rest.len() ==> #[trigger] rest[i] == s[i]);
        }
        lemma_sort_rats_sorted_multiset(rest);
        assert(s.last().wf());
        lemma_insert_val_sorted_multiset(s.last(), sort_rats(rest));
        assert(rest.push(s.last()) =~= s);
        assert(sort_rats(s).to_multiset() =~= s.to_multiset());
    } else {
        assert(sort_rats(s).to_multiset() =~= s.to_multiset());
    }
}

/// Whenever two lengths of the sequence agree by value, they are the same
/// representation.
pub open spec fn rat_ties_consistent(s: Seq<SRat>) -> bool {
    forall|i: int, j: int|
        0 <= i < s.len() && 0 <= j < s.len() && rat_eq(#[trigger] s[i], #[trigger] s[j]) ==> s[i]
            == s[j]
}

/// Two ascending sequences holding the same lengths are the same sequence.
proof fn lemma_sorted_rats_unique(s1: Seq<SRat>, s2: Seq<SRat>)
    requires
        rats_wf(s1),
        rats_wf(s2),
        sorted_rats_order(s1),
        sorted_rats_order(s2),
        s1.to_multiset() == s2.to_multiset(),
        rat_ties_consistent(s1),
    ensures
        s1 == s2,
    decreases s1.len(),
{
    broadcast use vstd::seq_lib::group_to_multiset_ensures;

    assert(s1.len() == s1.to_multiset().len() && s2.len() == s2.to_multiset().len());
    assert(s1.len() == s2.len());
    if s1.len() == 0 {
        assert(s1 =~= s2);
    } else {
        assert(s2.contains(s2[0]) && s1.contains(s1[0]));
        assert(s1.to_multiset().contains(s2[0]));
        assert(s1.contains(s2[0]));
        let a = choose|a: int| 0 <= a < s1.len() && s1[a] == s2[0];
        assert(s2.to_multiset().contains(s1[0]));
        assert(s2.contains(s1[0]));
        let b = choose|b: int| 0 <= b < s2.len() && s2[b] == s1[0];
        assert(rat_le(s1[0], s1[a]) && rat_le(s2[0], s2[b]));
        assert(rat_eq(s1[0], s2[0]));
        assert(rat_eq(s1[0], s1[a]));
        assert(s1[0] == s1[a]);
        assert(s1[0] == s2[0]);
        let r1 = s1.drop_first();
        let r2 = s2.drop_first();
        assert(r1 =~= s1.remove(0));
        assert(r2 =~= s2.remove(0));
        assert(r1.to_multiset() == r2.to_multiset()) by {
            assert(s1.remove(0).to_multiset() =~= s1.to_multiset().remove(s1[0]));
            assert(s2.remove(0).to_multiset() =~= s2.to_multiset().remove(s2[0]));
        }
        assert(forall|i: int| 0 <= i < r1.len() ==> #[trigger] r1[i] == s1[i + 1]);
        assert(forall|i: int| 0 <= i < r2.len() ==> #[trigger] r2[i] == s2[i + 1]);
        assert(rats_wf(r1) && rats_wf(r2));
        assert(sorted_rats_order(r1)) by {
            assert forall|i: int, j: int| 0 <= i <= j < r1.len() implies rat_le(
                #[trigger] r1[i],
                #[trigger] r1[j],
            ) by {
                assert(r1[i] == s1[i + 1] && r1[j] == s1[j + 1]);
            }
        }
        assert(sorted_rats_order(r2)) by {
            assert forall|i: int, j: int| 0 <= i <= j < r2.len() implies rat_le(
                #[trigger] r2[i],
                #[trigger] r2[j],
            ) by {
                assert(r2[i] == s2[i + 1] && r2[j] == s2[j + 1]);
            }
        }
        assert(rat_ties_consistent(r1)) by {
            assert forall|i: int, j: int|
                0 <= i < r1.len() && 0 <= j < r1.len() && rat_eq(
                    #[trigger] r1[i],
                    #[trigger] r1[j],
                ) implies r1[i] == r1[j] by {
                assert(r1[i] == s1[i + 1] && r1[j] == s1[j + 1]);
            }
        }
        lemma_sorted_rats_unique(r1, r2);
        assert forall|k: int| 0 <= k < s1.len() implies s1[k] == s2[k] by {
            if k > 0 {
                assert(r1[k - 1] == s1[k] && r2[k - 1] == s2[k]);
            }
        }
        assert(s1 =~= s2);
    }
}

/// Whenever two jobs of the pool agree in prediction and true length by
/// value, they are the same job (in particular their representations agree).
pub open spec fn ties_consistent(s: Seq<SJob>) -> bool {
    forall|i: int, j: int|
        0 <= i < s.len() && 0 <= j < s.len() && rat_eq((#[trigger] s[i]).pred, (#[trigger] s[j]).pred)
            && rat_eq(s[i].total, s[j].total) ==> s[i] == s[j]
}

/// Two pools sorted in the canonical order and holding the same jobs are the
/// same sequence: the tie-break by true length leaves no freedom.
proof fn lemma_sorted_unique(s1: Seq<SJob>, s2: Seq<SJob>)
    requires
        jobs_wf(s1),
        jobs_wf(s2),
        sorted_by_pred_order(s1),
        sorted_by_pred_order(s2),
        s1.to_multiset() == s2.to_multiset(),
        ties_consistent(s1),
    ensures
        s1 == s2,
    decreases s1.len(),
{
    broadcast use vstd::seq_lib::group_to_multiset_ensures;

    assert(s1.len() == s1.to_multiset().len() && s2.len() == s2.to_multiset().len());
    assert(s1.len() == s2.len());
    if s1.len() == 0 {
        assert(s1 =~= s2);
    } else {
        assert(s2.contains(s2[0]) && s1.contains(s1[0]));
        assert(s1.to_multiset().contains(s2[0]));
        assert(s1.contains(s2[0]));
        let a = choose|a: int| 0 <= a < s1.len() && s1[a] == s2[0];
        assert(s2.to_multiset().contains(s1[0]));
        assert(s2.contains(s1[0]));
        let b = choose|b: int| 0 <= b < s2.len() && s2[b] == s1[0];
        // the heads are below each other in the canonical order
        assert(job_le(s1[0], s1[a]) && job_le(s2[0], s2[b]));
        assert(job_le(s1[0], s2[0]) && job_le(s2[0], s1[0]));
        crate::sim::lemma_job_le_props(s1[0], s2[0], s2[0]);
        assert(rat_eq(s1[0].pred, s2[0].pred) && rat_eq(s1[0].total, s2[0].total));
        assert(rat_eq(s1[0].pred, s1[a].pred) && rat_eq(s1[0].total, s1[a].total));
        assert(s1[0] == s1[a]);
        assert(s1[0] == s2[0]);
        let r1 = s1.drop_first();
        let r2 = s2.drop_first();
        assert(r1 =~= s1.remove(0));
        assert(r2 =~= s2.remove(0));
        assert(r1.to_multiset() == r2.to_multiset()) by {
            assert(s1.remove(0).to_multiset() =~= s1.to_multiset().remove(s1[0]));
            assert(s2.remove(0).to_multiset() =~= s2.to_multiset().remove(s2[0]));
        }
        assert(forall|i: int| 0 <= i < r1.len() ==> #[trigger] r1[i] == s1[i + 1]);
        assert(forall|i: int| 0 <= i < r2.len() ==> #[trigger] r2[i] == s2[i + 1]);
        assert(jobs_wf(r1) && jobs_wf(r2));
        assert(sorted_by_pred_order(r1)) by {
            assert forall|i: int, j: int| 0 <= i <= j < r1.len() implies job_le(
                #[trigger] r1[i],
                #[trigger] r1[j],
            ) by {
                assert(r1[i] == s1[i + 1] && r1[j] == s1[j + 1]);
            }
        }
        assert(sorted_by_pred_order(r2)) by {
            assert forall|i: int, j: int| 0 <= i <= j < r2.len() implies job_le(
                #[trigger] r2[i],
                #[trigger] r2[j],
            ) by {
                assert(r2[i] == s2[i + 1] && r2[j] == s2[j + 1]);
            }
        }
        assert(ties_consistent(r1)) by {
            assert forall|i: int, j: int|
                0 <= i < r1.len() && 0 <= j < r1.len() && rat_eq(
                    (#[trigger] r1[i]).pred,
                    (#[trigger] r1[j]).pred,
                ) && rat_eq(r1[i].total, r1[j].total) implies r1[i] == r1[j] by {
                assert(r1[i] == s1[i + 1] && r1[j] == s1[j + 1]);
            }
        }
        lemma_sorted_unique(r1, r2);
        assert forall|k: int| 0 <= k < s1.len() implies s1[k] == s2[k] by {
            if k > 0 {
                assert(r1[k - 1] == s1[k] && r2[k - 1] == s2[k]);
            }
        }
        assert(s1 =~= s2);
    }
}

/// Permutation invariance: applying one and the same index permutation to
/// the instance and the prediction (stated here as the paired jobs and the
/// predictions forming the same multisets) leaves the starting job list and
/// the probe budget, and with them every engine's behavior, unchanged.
/// Values that tie must carry the same representation — which reduced
/// executable rationals always do.
pub proof fn lemma_permutation_invariance(li: Seq<SRat>, lp: Seq<SRat>, li2: Seq<SRat>, lp2: Seq<SRat>)
    requires
        rats_wf(li),
        rats_wf(lp),
        rats_wf(li2),
        rats_wf(lp2),
        li.len() == lp.len(),
        li2.len() == lp2.len(),
        zip_jobs(li, lp).to_multiset() == zip_jobs(li2, lp2).to_multiset(),
        lp.to_multiset() == lp2.to_multiset(),
        rat_ties_consistent(lp),
        forall|i: int, j: int|
            0 <= i < li.len() && 0 <= j < li.len() && rat_eq(#[trigger] lp[i], #[trigger] lp[j])
                && rat_eq(li[i], li[j]) ==> lp[i] == lp[j] && li[i] == li[j],
    ensures
        init_jobs(li, lp) == init_jobs(li2, lp2),
        sort_rats(lp) == sort_rats(lp2),
        forall|lambda: SRat| #[trigger] crate::two_stage::ts_cost(li, lp, lambda)
            == crate::two_stage::ts_cost(li2, lp2, lambda),
        forall|lambda: SRat, es: bool| #[trigger] arr_cost(li, lp, lambda, es) == arr_cost(
            li2,
            lp2,
            lambda,
            es,
        ),
        forall|lambda: SRat| #[trigger] crate::prr::prr_cost(li, lp, lambda) == crate::prr::prr_cost(
            li2,
            lp2,
            lambda,
        ),
        forall|lambda: SRat, step: SRat, k: nat| #[trigger] crate::prr::quant_iter(
            crate::prr::prr_init(li, lp),
            lambda,
            step,
            k,
        ) == crate::prr::quant_iter(crate::prr::prr_init(li2, lp2), lambda, step, k),
{
    broadcast use vstd::seq_lib::group_to_multiset_ensures;

    let z1 = zip_jobs(li, lp);
    let z2 = zip_jobs(li2, lp2);
    assert(jobs_wf(z1)) by {
        assert(forall|i: int|
            0 <= i < z1.len() ==> #[trigger] z1[i] == (SJob { total: li[i], pred: lp[i], rem: li[i] }));
    }
    assert(jobs_wf(z2)) by {
        assert(forall|i: int|
            0 <= i < z2.len() ==> #[trigger] z2[i] == (SJob {
                total: li2[i],
                pred: lp2[i],
                rem: li2[i],
            }));
    }
    lemma_sort_sorted_multiset(z1);
    lemma_sort_sorted_multiset(z2);
    let s1 = sort_by_pred(z1);
    let s2 = sort_by_pred(z2);
    // jobs that tie in both coordinates agree in the paired pool, hence also
    // in its sorted order
    assert(ties_consistent(z1)) by {
        assert forall|i: int, j: int|
            0 <= i < z1.len() && 0 <= j < z1.len() && rat_eq(
                (#[trigger] z1[i]).pred,
                (#[trigger] z1[j]).pred,
            ) && rat_eq(z1[i].total, z1[j].total) implies z1[i] == z1[j] by {
            assert(z1[i] == (SJob { total: li[i], pred: lp[i], rem: li[i] }));
            assert(z1[j] == (SJob { total: li[j], pred: lp[j], rem: li[j] }));
        }
    }
    assert(ties_consistent(s1)) by {
        assert forall|i: int, j: int|
            0 <= i < s1.len() && 0 <= j < s1.len() && rat_eq(
                (#[trigger] s1[i]).pred,
                (#[trigger] s1[j]).pred,
            ) && rat_eq(s1[i].total, s1[j].total) implies s1[i] == s1[j] by {
            assert(s1.contains(s1[i]) && s1.contains(s1[j]));
            assert(z1.to_multiset().contains(s1[i]) && z1.to_multiset().contains(s1[j]));
            assert(z1.contains(s1[i]) && z1.contains(s1[j]));
            let a = choose|a: int| 0 <= a < z1.len() && z1[a] == s1[i];
            let b = choose|b: int| 0 <= b < z1.len() && z1[b] == s1[j];
            assert(rat_eq(z1[a].pred, z1[b].pred) && rat_eq(z1[a].total, z1[b].total));
        }
    }
    lemma_sorted_unique(s1, s2);
    // the probe budget sorts the predictions on their own
    lemma_sort_rats_sorted_multiset(lp);
    lemma_sort_rats_sorted_multiset(lp2);
    let q1 = sort_rats(lp);
    assert(rat_ties_consistent(q1)) by {
        assert forall|i: int, j: int|
            0 <= i < q1.len() && 0 <= j < q1.len() && rat_eq(
                #[trigger] q1[i],
                #[trigger] q1[j],
            ) implies q1[i] == q1[j] by {
            assert(q1.contains(q1[i]) && q1.contains(q1[j]));
            assert(lp.to_multiset().contains(q1[i]) && lp.to_multiset().contains(q1[j]));
            assert(lp.contains(q1[i]) && lp.contains(q1[j]));
            let a = choose|a: int| 0 <= a < lp.len() && lp[a] == q1[i];
            let b = choose|b: int| 0 <= b < lp.len() && lp[b] == q1[j];
            assert(rat_eq(lp[a], lp[b]));
        }
    }
    lemma_sorted_rats_unique(q1, sort_rats(lp2));
    assert(li.len() == li2.len()) by {
        assert(z1.len() == z1.to_multiset().len() && z2.len() == z2.to_multiset().len());
    }
    assert forall|lambda: SRat| #[trigger] crate::two_stage::ts_cost(li, lp, lambda)
        == crate::two_stage::ts_cost(li2, lp2, lambda) by {
        assert(crate::instance::optimal_flow_spec(lp) == crate::instance::optimal_flow_spec(lp2));
        assert(crate::two_stage::ts_budget(li, lp, lambda) == crate::two_stage::ts_budget(
            li2,
            lp2,
            lambda,
        ));
    }
}

/// Once a misprediction has been observed, the sequential commit phase never
/// runs: it leaves the state untouched, so the remaining jobs go to the fair
/// round-robin drain instead.
pub proof fn lemma_no_commit_after_misprediction(s: TsState)
    requires
        s.flag,
    ensures
        ts_commit(s) == s,
{
}

/// The probe phase never clears the flag: a detected misprediction is
/// permanent for the run.
pub proof fn lemma_phase_a_keeps_flag(s: TsState, maxrr: SRat)
    requires
        s.wf(),
        maxrr.wf(),
        s.flag,
    ensures
        ts_phase_a(s, maxrr).flag,
    decreases s.jobs.len(), crate::two_stage::ts_clock(s, maxrr),
{
    if s.jobs.len() == 0 || !(rat_lt(s.time, maxrr) || s.flag) {
    } else {
        let ss = crate::two_stage::ts_stepsize(s, maxrr);
        if rat_eq(ss, rat_zero()) {
        } else {
            lemma_ts_phase_a_step(s, maxrr);
            let s2 = crate::two_stage::ts_round(s, ss);
            assert(s2.flag);
            lemma_phase_a_keeps_flag(s2, maxrr);
        }
    }
}

/// The commit phase halts at the first mismatch it completes: exactly the
/// jobs up to and including the first mismatched one are committed, the flag
/// goes up, and everything after it is left for the drain.
pub proof fn lemma_commit_halts_at_first_mismatch(s: TsState, i: int)
    requires
        !s.flag,
        0 <= i < s.jobs.len(),
        mismatch(s.jobs[i]),
        forall|k: int| 0 <= k < i ==> !mismatch(#[trigger] s.jobs[k]),
    ensures
        ts_commit(s).jobs == s.jobs.skip(i + 1),
        ts_commit(s).flag,
    decreases s.jobs.len(),
{
    let j = s.jobs[0];
    let s2 = TsState {
        jobs: s.jobs.drop_first(),
        time: crate::rat::rat_add(s.time, j.rem),
        cost: crate::rat::rat_add(s.cost, crate::rat::rat_add(s.time, j.rem)),
        flag: s.flag || mismatch(j),
    };
    if i == 0 {
        assert(s2.flag);
        assert(ts_commit(s2) == s2);
        assert(s.jobs.drop_first() =~= s.jobs.skip(1));
    } else {
        assert(!mismatch(j));
        assert(!s2.flag);
        assert(forall|k: int| 0 <= k < i - 1 ==> s2.jobs[k] == s.jobs[k + 1]);
        assert(s2.jobs[i - 1] == s.jobs[i]);
        lemma_commit_halts_at_first_mismatch(s2, i - 1);
        assert(s2.jobs.skip(i) =~= s.jobs.skip(i + 1));
    }
}

/// With the flag down and no mismatch anywhere, the commit phase completes
/// every job and the flag stays down.
pub proof fn lemma_commit_all_match(s: TsState)
    requires
        !s.flag,
        forall|k: int| 0 <= k < s.jobs.len() ==> !mismatch(#[trigger] s.jobs[k]),
    ensures
        ts_commit(s).jobs.len() == 0,
        !ts_commit(s).flag,
    decreases s.jobs.len(),
{
    if s.jobs.len() > 0 {
        let j = s.jobs[0];
        let s2 = TsState {
            jobs: s.jobs.drop_first(),
            time: crate::rat::rat_add(s.time, j.rem),
            cost: crate::rat::rat_add(s.cost, crate::rat::rat_add(s.time, j.rem)),
            flag: s.flag || mismatch(j),
        };
        assert(forall|k: int| 0 <= k < s2.jobs.len() ==> s2.jobs[k] == s.jobs[k + 1]);
        lemma_commit_all_match(s2);
    }
}

} // verus!
