//! The Two-Stage schedule.
//!
//! Phase A probes by fair round robin within a time budget derived from the
//! predicted-optimal cost.  Every completed job whose true length differs
//! from its prediction beyond the tolerance raises a permanent misprediction
//! flag; once raised,
//! the probe ignores the budget and runs all jobs to completion.  Phase B,
//! entered only with the flag down, commits the remaining jobs one at a time
//! in prediction order, halting at the first mismatch it completes.  Phase C
//! drains whatever is left by fair round robin.

use vstd::prelude::*;
use crate::rat::{
    Rat, SRat, rat_eq, rat_lt, rat_le, rat_add, rat_sub, rat_mul, rat_div, rat_of_int, rat_fits,
    rat_tolerance, lemma_rat_zero_eq, lemma_rat_add_exact, lemma_rat_sub_exact, lemma_rat_mul_exact, lemma_rat_div_exact,
    lemma_rat_sub_eq_zero, lemma_rat_div_mul_cancel, lemma_rat_add_congr, lemma_rat_add_sub_cancel,
    lemma_rat_le_congr, lemma_rat_eq_trans,
};
use crate::job::{Job, SJob, sjob_process};
use crate::sim::{
    SimError, rat_zero, rat_one, rats_view, jobs_view, rats_wf, jobs_wf, input_fault, init_jobs,
    min_from, lemma_min_from, live, lemma_live, lemma_live_shrinks, RRState, rr_step, rr_run,
    rr_step_fits, rr_fits, lemma_rr_step, validate_inputs, build_jobs, rr_round, process_pool,
    lemma_init_jobs_wf,
};
use crate::instance::{Instance, optimal_flow_spec, optimal_flow_time, length_fault, opt_fits};
use crate::pred::Prediction;

verus! {

/// A completed job contradicts its prediction: the two lengths differ by
/// more than the named tolerance (never an exact comparison).
pub open spec fn mismatch(j: SJob) -> bool {
    rat_lt(rat_tolerance(), rat_sub(j.pred, j.total)) || rat_lt(
        rat_tolerance(),
        rat_sub(j.total, j.pred),
    )
}

/// One Two-Stage state: the remaining jobs (ascending by prediction), the
/// virtual clock, the accumulated flow time, and the permanent misprediction
/// flag.
pub struct TsState {
    pub jobs: Seq<SJob>,
    pub time: SRat,
    pub cost: SRat,
    pub flag: bool,
}

impl TsState {
    /// All components are well-formed.
    pub open spec fn wf(self) -> bool {
        jobs_wf(self.jobs) && self.time.wf() && self.cost.wf()
    }
}

/// The probe budget: `lambda * n * opt(prediction) / (n choose 2)`; zero when
/// fewer than two jobs exist (the pair count would vanish).
pub open spec fn ts_budget(li: Seq<SRat>, lp: Seq<SRat>, lambda: SRat) -> SRat {
    let n = li.len() as int;
    if n < 2 {
        rat_zero()
    } else {
        rat_div(
            rat_mul(rat_mul(lambda, rat_of_int(n)), optimal_flow_spec(lp)),
            rat_of_int(n * (n - 1) / 2),
        )
    }
}

/// The probe's step: the smallest remaining work, clamped (while the flag is
/// down) so that the clock does not pass the budget.
pub open spec fn ts_stepsize(s: TsState, maxrr: SRat) -> SRat {
    let m = min_from(s.jobs.drop_first().map_values(|j: SJob| j.rem), s.jobs[0].rem);
    if !s.flag && rat_lt(maxrr, rat_add(s.time, rat_mul(m, rat_of_int(s.jobs.len() as int)))) {
        rat_div(rat_sub(maxrr, s.time), rat_of_int(s.jobs.len() as int))
    } else {
        m
    }
}

/// One probe round at step `ss`: fair-share clock advance, processing,
/// removal of finishers, cost accrual, and misprediction detection on the
/// finishers.
pub open spec fn ts_round(s: TsState, ss: SRat) -> TsState {
    let time2 = rat_add(s.time, rat_mul(ss, rat_of_int(s.jobs.len() as int)));
    let processed = s.jobs.map_values(|j: SJob| sjob_process(j, ss));
    let jobs2 = live(processed);
    let cost2 = rat_add(s.cost, rat_mul(rat_of_int(processed.len() - jobs2.len()), time2));
    let flag2 = s.flag || exists|i: int|
        0 <= i < processed.len() && (#[trigger] processed[i]).finished() && mismatch(processed[i]);
    TsState { jobs: jobs2, time: time2, cost: cost2, flag: flag2 }
}

/// Whether the clock is still below the budget (the part of the probe's
/// continuation that the flag can override).
pub open spec fn ts_clock(s: TsState, maxrr: SRat) -> int {
    if rat_lt(s.time, maxrr) {
        1
    } else {
        0
    }
}

/// A probe round with a non-zero step keeps the state well-formed and
/// strictly shrinks `(jobs, clock-headroom)` lexicographically.
pub proof fn lemma_ts_phase_a_step(s: TsState, maxrr: SRat)
    requires
        s.wf(),
        maxrr.wf(),
        s.jobs.len() > 0,
        rat_lt(s.time, maxrr) || s.flag,
        !rat_eq(ts_stepsize(s, maxrr), rat_zero()),
    ensures
        ts_stepsize(s, maxrr).wf(),
        ts_round(s, ts_stepsize(s, maxrr)).wf(),
        ts_round(s, ts_stepsize(s, maxrr)).jobs.len() < s.jobs.len() || (ts_round(
            s,
            ts_stepsize(s, maxrr),
        ).jobs.len() == s.jobs.len() && ts_clock(ts_round(s, ts_stepsize(s, maxrr)), maxrr)
            < ts_clock(s, maxrr)),
{
    let n = rat_of_int(s.jobs.len() as int);
    let rems = s.jobs.drop_first().map_values(|j: SJob| j.rem);
    assert(rats_wf(rems)) by {
        assert(forall|i: int| 0 <= i < rems.len() ==> #[trigger] rems[i] == s.jobs[i + 1].rem);
    }
    lemma_min_from(rems, s.jobs[0].rem);
    let m = min_from(rems, s.jobs[0].rem);
    let clamped = !s.flag && rat_lt(maxrr, rat_add(s.time, rat_mul(m, n)));
    let ss = ts_stepsize(s, maxrr);
    assert(ss.wf()) by {
        if clamped {
            lemma_rat_sub_exact(maxrr, s.time);
            lemma_rat_div_exact(rat_sub(maxrr, s.time), n);
        }
    }
    let processed = s.jobs.map_values(|j: SJob| sjob_process(j, ss));
    assert(jobs_wf(processed)) by {
        assert(forall|i: int|
            0 <= i < processed.len() ==> #[trigger] processed[i] == sjob_process(s.jobs[i], ss));
        assert forall|i: int| 0 <= i < processed.len() implies (#[trigger] processed[i]).wf() by {
            lemma_rat_sub_exact(s.jobs[i].rem, ss);
        }
    }
    lemma_live(processed);
    let time2 = rat_add(s.time, rat_mul(ss, n));
    lemma_rat_mul_exact(ss, n);
    lemma_rat_add_exact(s.time, rat_mul(ss, n));
    lemma_rat_mul_exact(rat_of_int(processed.len() - live(processed).len()), time2);
    lemma_rat_add_exact(s.cost, rat_mul(rat_of_int(processed.len() - live(processed).len()), time2));
    if clamped {
        // the round ends exactly at the budget: the clock headroom is spent
        assert(rat_lt(s.time, maxrr));
        let d = rat_sub(maxrr, s.time);
        lemma_rat_sub_exact(maxrr, s.time);
        lemma_rat_div_mul_cancel(d, n);
        lemma_rat_add_exact(s.time, d);
        lemma_rat_add_congr(s.time, rat_mul(ss, n), d);
        lemma_rat_add_sub_cancel(s.time, maxrr);
        lemma_rat_eq_trans(time2, rat_add(s.time, d), maxrr);
        lemma_rat_le_congr(maxrr, time2, maxrr, maxrr);
        assert(!rat_lt(time2, maxrr));
        assert(ts_clock(ts_round(s, ss), maxrr) == 0);
    } else {
        // the smallest job is processed by exactly its remaining work
        assert(ss == m);
        let iw: int = if m == s.jobs[0].rem {
            0
        } else {
            (choose|i: int| 0 <= i < rems.len() && m == #[trigger] rems[i]) + 1
        };
        assert(0 <= iw < s.jobs.len() && m == s.jobs[iw].rem) by {
            if m != s.jobs[0].rem {
                let i = choose|i: int| 0 <= i < rems.len() && m == #[trigger] rems[i];
                assert(rems[i] == s.jobs[i + 1].rem);
            }
        }
        assert(processed[iw] == sjob_process(s.jobs[iw], ss));
        lemma_rat_sub_eq_zero(s.jobs[iw].rem, ss);
        assert(processed[iw].finished());
        lemma_live_shrinks(processed, iw);
    }
}

/// Phase A: fair round robin while the clock is below the budget or the flag
/// is up; a zero step ends the phase at once.
pub open spec fn ts_phase_a(s: TsState, maxrr: SRat) -> TsState
    decreases s.jobs.len(), ts_clock(s, maxrr),
        when s.wf() && maxrr.wf()
        via ts_phase_a_dec
{
    if s.jobs.len() == 0 || !(rat_lt(s.time, maxrr) || s.flag) {
        s
    } else {
        let ss = ts_stepsize(s, maxrr);
        if rat_eq(ss, rat_zero()) {
            s
        } else {
            ts_phase_a(ts_round(s, ss), maxrr)
        }
    }
}

#[via_fn]
proof fn ts_phase_a_dec(s: TsState, maxrr: SRat) {
    if s.jobs.len() > 0 && (rat_lt(s.time, maxrr) || s.flag) && !rat_eq(
        ts_stepsize(s, maxrr),
        rat_zero(),
    ) {
        lemma_ts_phase_a_step(s, maxrr);
    }
}

/// Phase B: with the flag down, commit the head job to completion,
/// non-preemptively; a completed mismatch raises the flag and halts the
/// phase.
pub open spec fn ts_commit(s: TsState) -> TsState
    decreases s.jobs.len(),
{
    if s.flag || s.jobs.len() == 0 {
        s
    } else {
        let j = s.jobs[0];
        let time2 = rat_add(s.time, j.rem);
        let cost2 = rat_add(s.cost, time2);
        ts_commit(
            TsState {
                jobs: s.jobs.drop_first(),
                time: time2,
                cost: cost2,
                flag: s.flag || mismatch(j),
            },
        )
    }
}

/// The cost the Two-Stage schedule assigns to a validated input pair: the
/// probe, then the commit phase, then a fair round-robin drain of the rest.
pub open spec fn ts_cost(li: Seq<SRat>, lp: Seq<SRat>, lambda: SRat) -> SRat {
    let maxrr = ts_budget(li, lp, lambda);
    let s0 = TsState { jobs: init_jobs(li, lp), time: rat_zero(), cost: rat_zero(), flag: false };
    let sa = ts_phase_a(s0, maxrr);
    let sb = ts_commit(sa);
    rr_run(RRState { jobs: sb.jobs, time: sb.time, cost: sb.cost })
}

/// The probe budget's computation fits the executable range (trivially so
/// with fewer than two jobs, where no arithmetic runs).
pub open spec fn ts_budget_fits(li: Seq<SRat>, lp: Seq<SRat>, lambda: SRat) -> bool {
    let n = li.len() as int;
    if n < 2 {
        true
    } else {
        &&& opt_fits(lp)
        &&& rat_fits(rat_mul(lambda, rat_of_int(n)))
        &&& rat_fits(rat_mul(rat_mul(lambda, rat_of_int(n)), optimal_flow_spec(lp)))
        &&& rat_fits(ts_budget(li, lp, lambda))
    }
}

/// The step-choice arithmetic of one probe round fits the executable range
/// (it runs even when the chosen step turns out to be zero).
pub open spec fn ts_pre_fits(s: TsState, maxrr: SRat) -> bool {
    let n = rat_of_int(s.jobs.len() as int);
    let m = min_from(s.jobs.drop_first().map_values(|j: SJob| j.rem), s.jobs[0].rem);
    let clamped = !s.flag && rat_lt(maxrr, rat_add(s.time, rat_mul(m, n)));
    &&& rat_fits(rat_mul(m, n))
    &&& rat_fits(rat_add(s.time, rat_mul(m, n)))
    &&& (clamped ==> rat_fits(rat_sub(maxrr, s.time)) && rat_fits(ts_stepsize(s, maxrr)))
}

/// The rest of one probe round fits the executable range: the clock, the
/// processing, the misprediction comparisons on the finishers, and the cost.
pub open spec fn ts_round_fits(s: TsState, maxrr: SRat) -> bool {
    let n = rat_of_int(s.jobs.len() as int);
    let ss = ts_stepsize(s, maxrr);
    let time2 = rat_add(s.time, rat_mul(ss, n));
    let processed = s.jobs.map_values(|j: SJob| sjob_process(j, ss));
    let jobs2 = live(processed);
    &&& rat_fits(rat_mul(ss, n))
    &&& rat_fits(time2)
    &&& (forall|i: int|
        0 <= i < s.jobs.len() ==> rat_fits(rat_sub((#[trigger] s.jobs[i]).rem, ss)))
    &&& (forall|i: int|
        0 <= i < processed.len() && (#[trigger] processed[i]).finished() ==> rat_fits(
            rat_sub(processed[i].pred, processed[i].total),
        ) && rat_fits(rat_sub(processed[i].total, processed[i].pred)))
    &&& rat_fits(rat_mul(rat_of_int(processed.len() - jobs2.len()), time2))
    &&& rat_fits(rat_add(s.cost, rat_mul(rat_of_int(processed.len() - jobs2.len()), time2)))
}

/// Every reduced rational of the whole probe fits the executable range.
pub open spec fn ts_phase_a_fits(s: TsState, maxrr: SRat) -> bool
    decreases s.jobs.len(), ts_clock(s, maxrr),
        when s.wf() && maxrr.wf()
        via ts_phase_a_fits_dec
{
    if s.jobs.len() == 0 || !(rat_lt(s.time, maxrr) || s.flag) {
        true
    } else {
        let ss = ts_stepsize(s, maxrr);
        &&& ts_pre_fits(s, maxrr)
        &&& (if rat_eq(ss, rat_zero()) {
            true
        } else {
            ts_round_fits(s, maxrr) && ts_phase_a_fits(ts_round(s, ss), maxrr)
        })
    }
}

#[via_fn]
proof fn ts_phase_a_fits_dec(s: TsState, maxrr: SRat) {
    if s.jobs.len() > 0 && (rat_lt(s.time, maxrr) || s.flag) && !rat_eq(
        ts_stepsize(s, maxrr),
        rat_zero(),
    ) {
        lemma_ts_phase_a_step(s, maxrr);
    }
}

/// Every reduced rational of the whole commit phase fits the executable
/// range, misprediction comparisons included.
pub open spec fn ts_commit_fits(s: TsState) -> bool
    decreases s.jobs.len(),
{
    if s.flag || s.jobs.len() == 0 {
        true
    } else {
        let j = s.jobs[0];
        let time2 = rat_add(s.time, j.rem);
        &&& rat_fits(time2)
        &&& rat_fits(rat_add(s.cost, time2))
        &&& rat_fits(rat_sub(j.pred, j.total))
        &&& rat_fits(rat_sub(j.total, j.pred))
        &&& ts_commit_fits(
            TsState {
                jobs: s.jobs.drop_first(),
                time: time2,
                cost: rat_add(s.cost, time2),
                flag: s.flag || mismatch(j),
            },
        )
    }
}

/// The Two-Stage run stays within the executable range on this input: the
/// job count, the budget, and all three phases fit.
pub open spec fn ts_fits(li: Seq<SRat>, lp: Seq<SRat>, lambda: SRat) -> bool {
    let maxrr = ts_budget(li, lp, lambda);
    let s0 = TsState { jobs: init_jobs(li, lp), time: rat_zero(), cost: rat_zero(), flag: false };
    let sa = ts_phase_a(s0, maxrr);
    let sb = ts_commit(sa);
    &&& li.len() <= 0xffff_ffff
    &&& ts_budget_fits(li, lp, lambda)
    &&& ts_phase_a_fits(s0, maxrr)
    &&& ts_commit_fits(sa)
    &&& rr_fits(RRState { jobs: sb.jobs, time: sb.time, cost: sb.cost })
}

/// Relies on `num_integer::binomial`: the binomial coefficient, which for
/// pairs equals `n * (n - 1) / 2`.
#[verifier::external_body]
fn choose_two(n: u64) -> (r: u64)
    requires
        n * (n - 1) / 2 <= u64::MAX,
    ensures
        r == n * (n - 1) / 2,
{
    num_integer::binomial(n, 2)
}

/// Runs the Two-Stage schedule.  An input fault is rejected exactly as the
/// shared validation names it; otherwise the result is exactly the model's
/// cost, and `Overflow` can come back only when the run does not fit the
/// executable range (`ts_fits` fails).
pub fn two_stage_schedule(instance: &Instance, pred: &Prediction, lambda: Rat) -> (r: Result<
    Rat,
    SimError,
>)
    ensures
        match input_fault(instance@, pred@, lambda@) {
            Some(e) => r == Err::<Rat, SimError>(e),
            None => {
                &&& (r matches Ok(v) ==> v@ == ts_cost(instance@, pred@, lambda@))
                &&& (r is Err ==> r == Err::<Rat, SimError>(SimError::Overflow) && !ts_fits(
                    instance@,
                    pred@,
                    lambda@,
                ))
                &&& (r is Ok || r == Err::<Rat, SimError>(SimError::Overflow))
            },
        },
{
    let ghost li = instance@;
    let ghost lp = pred@;
    match validate_inputs(&instance.jobs, &pred.jobs, &lambda) {
        Some(e) => {
            return Err(e);
        },
        None => {},
    }
    if instance.jobs.len() as u64 > 0xffff_ffff {
        return Err(SimError::Overflow);
    }
    proof {
        lemma_init_jobs_wf(li, lp);
    }
    let mut jobs = build_jobs(&instance.jobs, &pred.jobs);
    let mut time = Rat::from_int(0);
    let mut cost = Rat::from_int(0);
    let mut flag = false;
    let n = jobs.len();
    let ghost nmax = li.len();
    let maxrr = if n < 2 {
        Rat::from_int(0)
    } else {
        let optp = match optimal_flow_time(&pred.jobs) {
            Ok(v) => v,
            Err(_) => {
                proof {
                    assert(!opt_fits(lp));
                    assert(!ts_budget_fits(li, lp, lambda@));
                }
                return Err(SimError::Overflow);
            },
        };
        proof {
            assert((n as u64) * ((n as u64) - 1) / 2 <= u64::MAX) by (nonlinear_arith)
                requires
                    2 <= n as u64 <= 0xffff_ffff,
            ;
        }
        let bin = choose_two(n as u64);
        proof {
            assert(bin <= 0x7fff_ffff_ffff_ffff && bin >= 1) by (nonlinear_arith)
                requires
                    2 <= n as u64 <= 0xffff_ffff,
                    bin == (n as u64) * ((n as u64) - 1) / 2,
            ;
        }
        let bin_rat = Rat::from_int(bin as i64);
        let n_rat = Rat::from_int(n as i64);
        let t1 = match lambda.checked_mul(n_rat) {
            Some(v) => v,
            None => {
                proof {
                    assert(!ts_budget_fits(li, lp, lambda@));
                }
                return Err(SimError::Overflow);
            },
        };
        let t2 = match t1.checked_mul(optp) {
            Some(v) => v,
            None => {
                proof {
                    assert(!ts_budget_fits(li, lp, lambda@));
                }
                return Err(SimError::Overflow);
            },
        };
        match t2.checked_div(bin_rat) {
            Some(v) => v,
            None => {
                proof {
                    assert(!rat_fits(ts_budget(li, lp, lambda@)));
                    assert(!ts_budget_fits(li, lp, lambda@));
                }
                return Err(SimError::Overflow);
            },
        }
    };
    assert(maxrr@ == ts_budget(li, lp, lambda@));
    let ghost s0 = TsState {
        jobs: jobs_view(jobs@),
        time: rat_zero(),
        cost: rat_zero(),
        flag: false,
    };
    loop
        invariant_except_break
            ({
                let st = TsState { jobs: jobs_view(jobs@), time: time@, cost: cost@, flag };
                &&& st.wf()
                &&& ts_phase_a(st, maxrr@) == ts_phase_a(s0, maxrr@)
                &&& ts_phase_a_fits(st, maxrr@) == ts_phase_a_fits(s0, maxrr@)
            }),
            maxrr@.wf(),
            s0.wf(),
            s0 == (TsState {
                jobs: init_jobs(li, lp),
                time: rat_zero(),
                cost: rat_zero(),
                flag: false,
            }),
            maxrr@ == ts_budget(li, lp, lambda@),
            jobs@.len() <= nmax,
            nmax <= 0xffff_ffff,
            input_fault(li, lp, lambda@) is None,
            li == instance@,
            lp == pred@,
        ensures
            ({
                let st = TsState { jobs: jobs_view(jobs@), time: time@, cost: cost@, flag };
                &&& st.wf()
                &&& st == ts_phase_a(s0, maxrr@)
            }),
            jobs@.len() <= nmax,
        decreases jobs@.len(), ts_clock(
            TsState { jobs: jobs_view(jobs@), time: time@, cost: cost@, flag },
            maxrr@,
        ),
    {
        let ghost st = TsState { jobs: jobs_view(jobs@), time: time@, cost: cost@, flag };
        if jobs.len() == 0 {
            break ;
        }
        if !(time.lt(&maxrr) || flag) {
            break ;
        }
        let nj = jobs.len();
        let ghost rems = st.jobs.drop_first().map_values(|j: SJob| j.rem);
        let mut m = jobs[0].remaining();
        proof {
            assert(rems.skip(0) =~= rems);
            assert(st.jobs[0] == jobs@[0]@);
        }
        let mut i: usize = 1;
        while i < nj
            invariant
                1 <= i <= nj,
                nj == jobs@.len(),
                st.jobs == jobs_view(jobs@),
                rems == st.jobs.drop_first().map_values(|j: SJob| j.rem),
                rems.len() == nj - 1,
                jobs_wf(st.jobs),
                m@.wf(),
                min_from(rems.skip(i - 1), m@) == min_from(rems, st.jobs[0].rem),
            decreases nj - i,
        {
            let ghost pre = m@;
            m = m.min(jobs[i].remaining());
            proof {
                assert(rems[i - 1] == st.jobs[i as int].rem);
                assert(rems.skip(i - 1).drop_first() =~= rems.skip(i as int));
            }
            i += 1;
        }
        proof {
            assert(rems.skip(nj - 1) =~= Seq::<SRat>::empty());
            assert(m@ == min_from(rems, st.jobs[0].rem));
        }
        let n_rat = Rat::from_int(nj as i64);
        let mt = match m.checked_mul(n_rat) {
            Some(v) => v,
            None => {
                proof {
                    assert(!ts_pre_fits(st, maxrr@));
                    assert(!ts_phase_a_fits(st, maxrr@));
                }
                return Err(SimError::Overflow);
            },
        };
        let cand_t = match time.checked_add(mt) {
            Some(v) => v,
            None => {
                proof {
                    assert(!ts_pre_fits(st, maxrr@));
                    assert(!ts_phase_a_fits(st, maxrr@));
                }
                return Err(SimError::Overflow);
            },
        };
        let ss = if !flag && maxrr.lt(&cand_t) {
            let d = match maxrr.checked_sub(time) {
                Some(v) => v,
                None => {
                    proof {
                        assert(!ts_pre_fits(st, maxrr@));
                        assert(!ts_phase_a_fits(st, maxrr@));
                    }
                    return Err(SimError::Overflow);
                },
            };
            match d.checked_div(n_rat) {
                Some(v) => v,
                None => {
                    proof {
                        assert(!rat_fits(ts_stepsize(st, maxrr@)));
                        assert(!ts_pre_fits(st, maxrr@));
                        assert(!ts_phase_a_fits(st, maxrr@));
                    }
                    return Err(SimError::Overflow);
                },
            }
        } else {
            m
        };
        assert(ss@ == ts_stepsize(st, maxrr@));
        if ss.num() == 0 {
            proof {
                lemma_rat_zero_eq(ss@);
                assert(rat_eq(ss@, rat_zero()));
            }
            break ;
        }
        proof {
            lemma_rat_zero_eq(ss@);
            assert(!rat_eq(ss@, rat_zero()));
            lemma_ts_phase_a_step(st, maxrr@);
        }
        let t3 = match ss.checked_mul(n_rat) {
            Some(v) => v,
            None => {
                proof {
                    assert(!ts_round_fits(st, maxrr@));
                    assert(!ts_phase_a_fits(st, maxrr@));
                }
                return Err(SimError::Overflow);
            },
        };
        let time2 = match time.checked_add(t3) {
            Some(v) => v,
            None => {
                proof {
                    assert(!ts_round_fits(st, maxrr@));
                    assert(!ts_phase_a_fits(st, maxrr@));
                }
                return Err(SimError::Overflow);
            },
        };
        let ghost pool_view = jobs_view(jobs@);
        if !process_pool(&mut jobs, ss) {
            proof {
                let iw = choose|iw: int|
                    0 <= iw < pool_view.len() && !rat_fits(
                        rat_sub((#[trigger] pool_view[iw]).rem, ss@),
                    );
                assert(pool_view[iw] == st.jobs[iw]);
                assert(!ts_round_fits(st, maxrr@));
                assert(!ts_phase_a_fits(st, maxrr@));
            }
            return Err(SimError::Overflow);
        }
        let ghost processed = st.jobs.map_values(|j: SJob| sjob_process(j, ss@));
        assert(jobs_view(jobs@) == processed);
        let mut out: Vec<Job> = Vec::new();
        let mut count: usize = 0;
        let mut mm = false;
        let mut i: usize = 0;
        while i < nj
            invariant
                0 <= i <= nj,
                nj == jobs@.len(),
                jobs_view(jobs@) == processed,
                processed.len() == nj,
                jobs_view(out@) =~= live(processed.take(i as int)),
                count == i - out@.len(),
                out@.len() <= i,
                mm == exists|k: int|
                    0 <= k < i && (#[trigger] processed[k]).finished() && mismatch(processed[k]),
                forall|k: int|
                    0 <= k < i && (#[trigger] processed[k]).finished() ==> rat_fits(
                        rat_sub(processed[k].pred, processed[k].total),
                    ) && rat_fits(rat_sub(processed[k].total, processed[k].pred)),
                st.wf(),
                maxrr@.wf(),
                st.jobs.len() == nj,
                nj > 0,
                rat_lt(st.time, maxrr@) || st.flag,
                ss@ == ts_stepsize(st, maxrr@),
                !rat_eq(ss@, rat_zero()),
                processed == st.jobs.map_values(|j: SJob| sjob_process(j, ss@)),
                ts_phase_a_fits(st, maxrr@) == ts_phase_a_fits(s0, maxrr@),
                s0.wf(),
                s0 == (TsState {
                    jobs: init_jobs(li, lp),
                    time: rat_zero(),
                    cost: rat_zero(),
                    flag: false,
                }),
                maxrr@ == ts_budget(li, lp, lambda@),
                input_fault(li, lp, lambda@) is None,
                li == instance@,
                lp == pred@,
            decreases nj - i,
        {
            proof {
                reveal(Seq::filter);
                assert(processed.take(i as int + 1).drop_last() =~= processed.take(i as int));
                assert(processed.take(i as int + 1).last() == processed[i as int]);
            }
            let jb = jobs[i];
            assert(jb@ == processed[i as int]);
            if jb.is_finished() {
                count += 1;
                let tol = Rat::tolerance();
                let d1 = match jb.predicted_length().checked_sub(jb.total_length()) {
                    Some(v) => v,
                    None => {
                        proof {
                            assert(!rat_fits(
                                rat_sub(processed[i as int].pred, processed[i as int].total),
                            ));
                            assert(!ts_round_fits(st, maxrr@));
                            assert(!ts_phase_a_fits(st, maxrr@));
                        }
                        return Err(SimError::Overflow);
                    },
                };
                let d2 = match jb.total_length().checked_sub(jb.predicted_length()) {
                    Some(v) => v,
                    None => {
                        proof {
                            assert(!rat_fits(
                                rat_sub(processed[i as int].total, processed[i as int].pred),
                            ));
                            assert(!ts_round_fits(st, maxrr@));
                            assert(!ts_phase_a_fits(st, maxrr@));
                        }
                        return Err(SimError::Overflow);
                    },
                };
                if tol.lt(&d1) || tol.lt(&d2) {
                    mm = true;
                    assert(processed[i as int].finished() && mismatch(processed[i as int]));
                } else {
                    assert(!mismatch(processed[i as int]));
                }
                assert(rat_fits(rat_sub(processed[i as int].pred, processed[i as int].total))
                    && rat_fits(rat_sub(processed[i as int].total, processed[i as int].pred)));
            } else {
                out.push(jb);
            }
            i += 1;
        }
        proof {
            assert(processed.take(nj as int) =~= processed);
        }
        jobs = out;
        flag = flag || mm;
        let cnt = Rat::from_int(count as i64);
        let c1 = match cnt.checked_mul(time2) {
            Some(v) => v,
            None => {
                proof {
                    assert(!ts_round_fits(st, maxrr@));
                    assert(!ts_phase_a_fits(st, maxrr@));
                }
                return Err(SimError::Overflow);
            },
        };
        let cost2 = match cost.checked_add(c1) {
            Some(v) => v,
            None => {
                proof {
                    assert(!ts_round_fits(st, maxrr@));
                    assert(!ts_phase_a_fits(st, maxrr@));
                }
                return Err(SimError::Overflow);
            },
        };
        cost = cost2;
        time = time2;
        proof {
            let st2 = TsState { jobs: jobs_view(jobs@), time: time@, cost: cost@, flag };
            assert(st2 == ts_round(st, ss@));
            assert(ts_pre_fits(st, maxrr@));
            assert forall|t: int| 0 <= t < st.jobs.len() implies rat_fits(
                rat_sub((#[trigger] st.jobs[t]).rem, ss@),
            ) by {
                assert(pool_view[t] == st.jobs[t]);
                assert(rat_fits(rat_sub(pool_view[t].rem, ss@)));
            }
            assert(ts_round_fits(st, maxrr@));
            assert(ts_phase_a_fits(st, maxrr@) == ts_phase_a_fits(st2, maxrr@));
        }
    }
    let ghost sa = TsState { jobs: jobs_view(jobs@), time: time@, cost: cost@, flag };
    loop
        invariant_except_break
            ({
                let st = TsState { jobs: jobs_view(jobs@), time: time@, cost: cost@, flag };
                &&& st.wf()
                &&& ts_commit(st) == ts_commit(sa)
                &&& ts_commit_fits(st) == ts_commit_fits(sa)
            }),
            sa == ts_phase_a(s0, maxrr@),
            s0 == (TsState {
                jobs: init_jobs(li, lp),
                time: rat_zero(),
                cost: rat_zero(),
                flag: false,
            }),
            maxrr@ == ts_budget(li, lp, lambda@),
            jobs@.len() <= nmax,
            nmax <= 0xffff_ffff,
            input_fault(li, lp, lambda@) is None,
            li == instance@,
            lp == pred@,
        ensures
            ({
                let st = TsState { jobs: jobs_view(jobs@), time: time@, cost: cost@, flag };
                &&& st.wf()
                &&& st == ts_commit(sa)
            }),
            jobs@.len() <= nmax,
        decreases jobs@.len(),
    {
        let ghost st = TsState { jobs: jobs_view(jobs@), time: time@, cost: cost@, flag };
        if flag {
            break ;
        }
        if jobs.len() == 0 {
            break ;
        }
        let j = jobs.remove(0);
        assert(j@ == st.jobs[0]);
        let time2 = match time.checked_add(j.remaining()) {
            Some(v) => v,
            None => {
                proof {
                    assert(!ts_commit_fits(st));
                }
                return Err(SimError::Overflow);
            },
        };
        let cost2 = match cost.checked_add(time2) {
            Some(v) => v,
            None => {
                proof {
                    assert(!ts_commit_fits(st));
                }
                return Err(SimError::Overflow);
            },
        };
        time = time2;
        cost = cost2;
        let tol = Rat::tolerance();
        let d1 = match j.predicted_length().checked_sub(j.total_length()) {
            Some(v) => v,
            None => {
                proof {
                    assert(!rat_fits(rat_sub(st.jobs[0].pred, st.jobs[0].total)));
                    assert(!ts_commit_fits(st));
                }
                return Err(SimError::Overflow);
            },
        };
        let d2 = match j.total_length().checked_sub(j.predicted_length()) {
            Some(v) => v,
            None => {
                proof {
                    assert(!rat_fits(rat_sub(st.jobs[0].total, st.jobs[0].pred)));
                    assert(!ts_commit_fits(st));
                }
                return Err(SimError::Overflow);
            },
        };
        if tol.lt(&d1) || tol.lt(&d2) {
            flag = true;
        }
        proof {
            let st2 = TsState { jobs: jobs_view(jobs@), time: time@, cost: cost@, flag };
            assert(jobs_view(jobs@) =~= st.jobs.drop_first());
            assert(st2 == (TsState {
                jobs: st.jobs.drop_first(),
                time: rat_add(st.time, st.jobs[0].rem),
                cost: rat_add(st.cost, rat_add(st.time, st.jobs[0].rem)),
                flag: st.flag || mismatch(st.jobs[0]),
            }));
            assert(ts_commit_fits(st) == ts_commit_fits(st2));
        }
    }
    let ghost sb = TsState { jobs: jobs_view(jobs@), time: time@, cost: cost@, flag };
    while jobs.len() > 0
        invariant
            ({
                let dr = RRState { jobs: jobs_view(jobs@), time: time@, cost: cost@ };
                &&& dr.wf()
                &&& rr_run(dr) == rr_run(RRState { jobs: sb.jobs, time: sb.time, cost: sb.cost })
                &&& rr_fits(dr) == rr_fits(RRState { jobs: sb.jobs, time: sb.time, cost: sb.cost })
            }),
            (RRState { jobs: sb.jobs, time: sb.time, cost: sb.cost }).wf(),
            sb == ts_commit(sa),
            sa == ts_phase_a(s0, maxrr@),
            s0 == (TsState {
                jobs: init_jobs(li, lp),
                time: rat_zero(),
                cost: rat_zero(),
                flag: false,
            }),
            maxrr@ == ts_budget(li, lp, lambda@),
            jobs@.len() <= nmax,
            nmax <= 0xffff_ffff,
            input_fault(li, lp, lambda@) is None,
            li == instance@,
            lp == pred@,
        decreases jobs@.len(),
    {
        let ghost dr = RRState { jobs: jobs_view(jobs@), time: time@, cost: cost@ };
        proof {
            crate::sim::lemma_rr_step(dr);
        }
        match rr_round(&mut jobs, time, cost) {
            Some(tc) => {
                time = tc.0;
                cost = tc.1;
            },
            None => {
                proof {
                    assert(!rr_step_fits(dr));
                    assert(!rr_fits(dr));
                }
                return Err(SimError::Overflow);
            },
        }
        proof {
            let dr2 = RRState { jobs: jobs_view(jobs@), time: time@, cost: cost@ };
            assert(dr2 == rr_step(dr));
            assert(rr_fits(dr) == rr_fits(dr2));
        }
    }
    Ok(cost)
}

} // verus!
