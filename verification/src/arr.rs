//! Adaptive Round Robin (ARR).
//!
//! Jobs sorted by ascending prediction form the candidate pool; its head is
//! the active job, holding an algorithmic budget of `(1 - lambda)` times its
//! predicted length.  Work advances by the smallest amount that changes some
//! job's state: the active job finishing for real, the active job exhausting
//! its budget (it is then demoted to the tail of the fair round-robin
//! fallback pool), or a fallback job finishing.  A partly used budget is
//! carried over as an explicit `Resuming` state.  Once the candidates are
//! gone, the fallback pool is drained by fair round robin.

use vstd::prelude::*;
use crate::rat::{
    Rat, SRat, rat_eq, rat_le, rat_add, rat_sub, rat_mul, rat_div, rat_min, rat_of_int, rat_fits,
    lemma_rat_add_exact, lemma_rat_sub_exact, lemma_rat_mul_exact, lemma_rat_div_exact,
    lemma_rat_sub_eq_zero, lemma_rat_mul_div_cancel, lemma_rat_eq_sign,
};
use crate::job::{Job, SJob, sjob_process};
use crate::sim::{
    SimError, rat_zero, rat_one, rats_view, jobs_view, rats_wf, jobs_wf, input_fault, init_jobs,
    min_from, lemma_min_from, live, lemma_live, lemma_live_shrinks, RRState, rr_step, rr_run,
    rr_step_fits, lemma_rr_step, validate_inputs, build_jobs, rr_round, process_pool,
    drain_finished, lemma_init_jobs_wf,
};
use crate::instance::Instance;
use crate::pred::Prediction;

verus! {

/// The budget state of the active job: a fresh allowance, or the unused
/// remainder carried over from the previous step.
pub enum SBudget {
    Fresh,
    Resuming(SRat),
}

impl SBudget {
    /// A carried-over remainder is a well-formed rational.
    pub open spec fn wf(self) -> bool {
        match self {
            SBudget::Fresh => true,
            SBudget::Resuming(b) => b.wf(),
        }
    }
}

/// Executable budget state.
#[derive(Clone, Copy, Debug)]
pub enum BudgetState {
    Fresh,
    Resuming(Rat),
}

impl View for BudgetState {
    type V = SBudget;

    open spec fn view(&self) -> SBudget {
        match *self {
            BudgetState::Fresh => SBudget::Fresh,
            BudgetState::Resuming(b) => SBudget::Resuming(b@),
        }
    }
}

/// One ARR state: the candidates (ascending by prediction, head active), the
/// fallback round-robin pool, the virtual clock, the accumulated flow time,
/// and the active job's budget state.
pub struct ArrState {
    pub cand: Seq<SJob>,
    pub rr: Seq<SJob>,
    pub time: SRat,
    pub cost: SRat,
    pub budget: SBudget,
}

impl ArrState {
    /// All components are well-formed.
    pub open spec fn wf(self) -> bool {
        jobs_wf(self.cand) && jobs_wf(self.rr) && self.time.wf() && self.cost.wf()
            && self.budget.wf()
    }

    /// Both pools are empty: the run is over.
    pub open spec fn done(self) -> bool {
        self.cand.len() == 0 && self.rr.len() == 0
    }
}

/// The capacity scales: under equal share both are one; otherwise the active
/// job's share is scaled by `(c + r) / c` and a fallback job's by `(c + r)`,
/// where `c` candidates and `r` fallback jobs remain.
pub open spec fn arr_scales(c: int, r: int, equal_share: bool) -> (SRat, SRat) {
    if equal_share {
        (rat_one(), rat_one())
    } else {
        (rat_div(rat_of_int(c + r), rat_of_int(c)), rat_of_int(c + r))
    }
}

/// The active job's algorithmic budget: `(1 - lambda)` times its predicted
/// length when fresh, else the carried-over remainder.
pub open spec fn arr_budget(s: ArrState, lambda: SRat) -> SRat {
    match s.budget {
        SBudget::Fresh => rat_mul(rat_sub(rat_one(), lambda), s.cand[0].pred),
        SBudget::Resuming(b) => b,
    }
}

/// One ARR step (meaningful when the state is not done).
pub open spec fn arr_step(s: ArrState, lambda: SRat, equal_share: bool) -> ArrState {
    if s.cand.len() > 0 {
        let c = s.cand.len() as int;
        let r = s.rr.len() as int;
        let scales = arr_scales(c, r, equal_share);
        let ascale = scales.0;
        let rscale = scales.1;
        let head = s.cand[0];
        let budget = arr_budget(s, lambda);
        let cand_step = rat_mul(rat_min(budget, head.rem), ascale);
        let step = min_from(s.rr.map_values(|j: SJob| rat_mul(j.rem, rscale)), cand_step);
        let time2 = if equal_share {
            rat_add(s.time, rat_mul(step, rat_of_int(r + 1)))
        } else {
            rat_add(s.time, step)
        };
        let processed = rat_div(step, ascale);
        let head2 = SJob { total: head.total, pred: head.pred, rem: rat_sub(head.rem, processed) };
        let rr_amount = rat_div(step, rscale);
        let rrp = s.rr.map_values(|j: SJob| sjob_process(j, rr_amount));
        let rr_live = live(rrp);
        let cost2 = rat_add(s.cost, rat_mul(rat_of_int(rrp.len() - rr_live.len()), time2));
        if head2.finished() {
            ArrState {
                cand: s.cand.drop_first(),
                rr: rr_live,
                time: time2,
                cost: rat_add(cost2, time2),
                budget: SBudget::Fresh,
            }
        } else if rat_eq(processed, budget) {
            ArrState {
                cand: s.cand.drop_first(),
                rr: rr_live.push(head2),
                time: time2,
                cost: cost2,
                budget: SBudget::Fresh,
            }
        } else {
            ArrState {
                cand: s.cand.update(0, head2),
                rr: rr_live,
                time: time2,
                cost: cost2,
                budget: SBudget::Resuming(rat_sub(budget, processed)),
            }
        }
    } else {
        let d = rr_step(RRState { jobs: s.rr, time: s.time, cost: s.cost });
        ArrState { cand: s.cand, rr: d.jobs, time: d.time, cost: d.cost, budget: s.budget }
    }
}

/// The scales are well-formed and positive.
pub proof fn lemma_arr_scales(c: int, r: int, equal_share: bool)
    requires
        c >= 1,
        r >= 0,
    ensures
        arr_scales(c, r, equal_share).0.wf(),
        arr_scales(c, r, equal_share).0.n > 0,
        arr_scales(c, r, equal_share).1.wf(),
        arr_scales(c, r, equal_share).1.n > 0,
{
    if !equal_share {
        lemma_rat_div_exact(rat_of_int(c + r), rat_of_int(c));
        lemma_rat_eq_sign(rat_div(rat_of_int(c + r), rat_of_int(c)), rat_div_raw_pos(c, r));
    }
}

/// The raw quotient of the two pool counts (a helper for sign reasoning).
spec fn rat_div_raw_pos(c: int, r: int) -> SRat {
    crate::rat::rat_div_raw(rat_of_int(c + r), rat_of_int(c))
}

/// One step keeps the state well-formed and strictly shrinks the pair
/// `(candidates, fallback)` lexicographically.
pub proof fn lemma_arr_step(s: ArrState, lambda: SRat, equal_share: bool)
    requires
        s.wf(),
        lambda.wf(),
        !s.done(),
    ensures
        arr_step(s, lambda, equal_share).wf(),
        arr_step(s, lambda, equal_share).cand.len() < s.cand.len() || (arr_step(
            s,
            lambda,
            equal_share,
        ).cand.len() == s.cand.len() && arr_step(s, lambda, equal_share).rr.len() < s.rr.len()),
        arr_step(s, lambda, equal_share).cand.len() + arr_step(s, lambda, equal_share).rr.len()
            <= s.cand.len() + s.rr.len(),
{
    if s.cand.len() > 0 {
        let c = s.cand.len() as int;
        let r = s.rr.len() as int;
        lemma_arr_scales(c, r, equal_share);
        let scales = arr_scales(c, r, equal_share);
        let ascale = scales.0;
        let rscale = scales.1;
        let head = s.cand[0];
        let budget = arr_budget(s, lambda);
        assert(budget.wf()) by {
            if s.budget is Fresh {
                lemma_rat_sub_exact(rat_one(), lambda);
                lemma_rat_mul_exact(rat_sub(rat_one(), lambda), head.pred);
            }
        }
        let m = rat_min(budget, head.rem);
        lemma_rat_mul_exact(m, ascale);
        let cand_step = rat_mul(m, ascale);
        let scaled = s.rr.map_values(|j: SJob| rat_mul(j.rem, rscale));
        assert(rats_wf(scaled)) by {
            assert(forall|i: int|
                0 <= i < scaled.len() ==> #[trigger] scaled[i] == rat_mul(s.rr[i].rem, rscale));
            assert forall|i: int| 0 <= i < scaled.len() implies (#[trigger] scaled[i]).wf() by {
                lemma_rat_mul_exact(s.rr[i].rem, rscale);
            }
        }
        lemma_min_from(scaled, cand_step);
        let step = min_from(scaled, cand_step);
        lemma_rat_div_exact(step, ascale);
        let processed = rat_div(step, ascale);
        lemma_rat_sub_exact(head.rem, processed);
        let head2 = SJob { total: head.total, pred: head.pred, rem: rat_sub(head.rem, processed) };
        lemma_rat_div_exact(step, rscale);
        let rr_amount = rat_div(step, rscale);
        let rrp = s.rr.map_values(|j: SJob| sjob_process(j, rr_amount));
        assert(jobs_wf(rrp)) by {
            assert(forall|i: int|
                0 <= i < rrp.len() ==> #[trigger] rrp[i] == sjob_process(s.rr[i], rr_amount));
            assert forall|i: int| 0 <= i < rrp.len() implies (#[trigger] rrp[i]).wf() by {
                lemma_rat_sub_exact(s.rr[i].rem, rr_amount);
            }
        }
        lemma_live(rrp);
        let rr_live = live(rrp);
        let time2 = if equal_share {
            rat_add(s.time, rat_mul(step, rat_of_int(r + 1)))
        } else {
            rat_add(s.time, step)
        };
        assert(time2.wf()) by {
            if equal_share {
                lemma_rat_mul_exact(step, rat_of_int(r + 1));
                lemma_rat_add_exact(s.time, rat_mul(step, rat_of_int(r + 1)));
            } else {
                lemma_rat_add_exact(s.time, step);
            }
        }
        lemma_rat_mul_exact(rat_of_int(rrp.len() - rr_live.len()), time2);
        lemma_rat_add_exact(s.cost, rat_mul(rat_of_int(rrp.len() - rr_live.len()), time2));
        let cost2 = rat_add(s.cost, rat_mul(rat_of_int(rrp.len() - rr_live.len()), time2));
        lemma_rat_add_exact(cost2, time2);
        lemma_rat_sub_exact(budget, processed);
        // the pools: whichever branch is taken, the measure shrinks
        if head2.finished() {
        } else if rat_eq(processed, budget) {
            assert(jobs_wf(rr_live.push(head2))) by {
                assert(forall|i: int|
                    0 <= i < rr_live.len() ==> #[trigger] rr_live.push(head2)[i] == rr_live[i]);
                assert(rr_live.push(head2)[rr_live.len() as int] == head2);
            }
        } else {
            // neither branch fired, so the minimum was some fallback job's
            // scaled remaining work; that job finishes in this step
            if step == cand_step {
                lemma_rat_mul_div_cancel(m, ascale);
                assert(rat_eq(processed, m));
                if rat_le(budget, head.rem) {
                    assert(m == budget);
                    assert(rat_eq(processed, budget));
                    assert(false);
                } else {
                    assert(m == head.rem);
                    assert(rat_eq(head.rem, processed));
                    lemma_rat_sub_eq_zero(head.rem, processed);
                    assert(head2.finished());
                    assert(false);
                }
            }
            let iw = choose|i: int| 0 <= i < scaled.len() && step == #[trigger] scaled[i];
            assert(scaled[iw] == rat_mul(s.rr[iw].rem, rscale));
            lemma_rat_mul_div_cancel(s.rr[iw].rem, rscale);
            assert(rat_eq(rat_div(rat_mul(s.rr[iw].rem, rscale), rscale), s.rr[iw].rem));
            assert(rat_eq(s.rr[iw].rem, rr_amount));
            lemma_rat_sub_eq_zero(s.rr[iw].rem, rr_amount);
            assert(rrp[iw] == sjob_process(s.rr[iw], rr_amount));
            assert(rrp[iw].finished());
            lemma_live_shrinks(rrp, iw);
            assert(jobs_wf(s.cand.update(0, head2))) by {
                let upd = s.cand.update(0, head2);
                assert(forall|i: int| 1 <= i < upd.len() ==> #[trigger] upd[i] == s.cand[i]);
                assert(upd[0] == head2);
            }
        }
        assert(jobs_wf(s.cand.drop_first())) by {
            let rest = s.cand.drop_first();
            assert(forall|i: int| 0 <= i < rest.len() ==> #[trigger] rest[i] == s.cand[i + 1]);
        }
    } else {
        lemma_rr_step(RRState { jobs: s.rr, time: s.time, cost: s.cost });
    }
}

/// Every reduced rational that one ARR step computes fits the executable
/// range, conjunct by conjunct in the order the step computes them.
pub open spec fn arr_step_fits(s: ArrState, lambda: SRat, equal_share: bool) -> bool {
    if s.cand.len() > 0 {
        let c = s.cand.len() as int;
        let r = s.rr.len() as int;
        let scales = arr_scales(c, r, equal_share);
        let ascale = scales.0;
        let rscale = scales.1;
        let head = s.cand[0];
        let budget = arr_budget(s, lambda);
        let cand_step = rat_mul(rat_min(budget, head.rem), ascale);
        let step = min_from(s.rr.map_values(|j: SJob| rat_mul(j.rem, rscale)), cand_step);
        let time2 = if equal_share {
            rat_add(s.time, rat_mul(step, rat_of_int(r + 1)))
        } else {
            rat_add(s.time, step)
        };
        let processed = rat_div(step, ascale);
        let rr_amount = rat_div(step, rscale);
        let rrp = s.rr.map_values(|j: SJob| sjob_process(j, rr_amount));
        let rr_live = live(rrp);
        let cost2 = rat_add(s.cost, rat_mul(rat_of_int(rrp.len() - rr_live.len()), time2));
        let head2 = SJob { total: head.total, pred: head.pred, rem: rat_sub(head.rem, processed) };
        &&& (!equal_share ==> rat_fits(rat_div(rat_of_int(c + r), rat_of_int(c))))
        &&& (s.budget is Fresh ==> rat_fits(rat_sub(rat_one(), lambda)) && rat_fits(
            rat_mul(rat_sub(rat_one(), lambda), head.pred),
        ))
        &&& rat_fits(cand_step)
        &&& (forall|i: int|
            0 <= i < s.rr.len() ==> rat_fits(rat_mul((#[trigger] s.rr[i]).rem, rscale)))
        &&& (equal_share ==> rat_fits(rat_mul(step, rat_of_int(r + 1))))
        &&& rat_fits(time2)
        &&& rat_fits(processed)
        &&& rat_fits(rat_sub(head.rem, processed))
        &&& rat_fits(rr_amount)
        &&& (forall|i: int|
            0 <= i < s.rr.len() ==> rat_fits(rat_sub((#[trigger] s.rr[i]).rem, rr_amount)))
        &&& rat_fits(rat_mul(rat_of_int(rrp.len() - rr_live.len()), time2))
        &&& rat_fits(cost2)
        &&& (if head2.finished() {
            rat_fits(rat_add(cost2, time2))
        } else if rat_eq(processed, budget) {
            true
        } else {
            rat_fits(rat_sub(budget, processed))
        })
    } else {
        rr_step_fits(RRState { jobs: s.rr, time: s.time, cost: s.cost })
    }
}

/// Every reduced rational of the whole ARR run fits the executable range.
pub open spec fn arr_fits_from(s: ArrState, lambda: SRat, equal_share: bool) -> bool
    decreases s.cand.len(), s.rr.len(),
        when s.wf() && lambda.wf()
        via arr_fits_from_dec
{
    if s.done() {
        true
    } else {
        arr_step_fits(s, lambda, equal_share) && arr_fits_from(
            arr_step(s, lambda, equal_share),
            lambda,
            equal_share,
        )
    }
}

#[via_fn]
proof fn arr_fits_from_dec(s: ArrState, lambda: SRat, equal_share: bool) {
    if !s.done() {
        lemma_arr_step(s, lambda, equal_share);
    }
}

/// ARR stays within the executable range on this input: the job count and
/// every reduced rational of the run fit.
pub open spec fn arr_fits(li: Seq<SRat>, lp: Seq<SRat>, lambda: SRat, equal_share: bool) -> bool {
    li.len() <= 0x7fff_ffff_ffff_fffe && arr_fits_from(arr_init(li, lp), lambda, equal_share)
}

/// ARR run to completion: the accumulated flow time once both pools are
/// empty.
pub open spec fn arr_run(s: ArrState, lambda: SRat, equal_share: bool) -> SRat
    decreases s.cand.len(), s.rr.len(),
        when s.wf() && lambda.wf()
        via arr_run_dec
{
    if s.done() {
        s.cost
    } else {
        arr_run(arr_step(s, lambda, equal_share), lambda, equal_share)
    }
}

#[via_fn]
proof fn arr_run_dec(s: ArrState, lambda: SRat, equal_share: bool) {
    if !s.done() {
        lemma_arr_step(s, lambda, equal_share);
    }
}

/// The initial ARR state of a validated input pair.
pub open spec fn arr_init(li: Seq<SRat>, lp: Seq<SRat>) -> ArrState {
    ArrState {
        cand: init_jobs(li, lp),
        rr: Seq::<SJob>::empty(),
        time: rat_zero(),
        cost: rat_zero(),
        budget: SBudget::Fresh,
    }
}

/// The cost ARR assigns to a validated input pair.
pub open spec fn arr_cost(li: Seq<SRat>, lp: Seq<SRat>, lambda: SRat, equal_share: bool) -> SRat {
    arr_run(arr_init(li, lp), lambda, equal_share)
}

/// Runs Adaptive Round Robin.  An input fault is rejected exactly as the
/// shared validation names it; otherwise the result is exactly the model's
/// cost, and `Overflow` can come back only when the run does not fit the
/// executable range (`arr_fits` fails).
pub fn adaptive_round_robin(
    instance: &Instance,
    pred: &Prediction,
    lambda: Rat,
    equal_share: bool,
) -> (r: Result<Rat, SimError>)
    ensures
        match input_fault(instance@, pred@, lambda@) {
            Some(e) => r == Err::<Rat, SimError>(e),
            None => {
                &&& (r matches Ok(v) ==> v@ == arr_cost(instance@, pred@, lambda@, equal_share))
                &&& (r is Err ==> r == Err::<Rat, SimError>(SimError::Overflow) && !arr_fits(
                    instance@,
                    pred@,
                    lambda@,
                    equal_share,
                ))
                &&& (r is Ok || r == Err::<Rat, SimError>(SimError::Overflow))
            },
        },
{
    let ghost li = instance@;
    let ghost lp = pred@;
    match validate_inputs(&instance.jobs, &pred.jobs, &lambda) {
        Some(e) => {
            return Err(e);
        },
        None => {},
    }
    if instance.jobs.len() as u64 > 0x7fff_ffff_ffff_fffe {
        return Err(SimError::Overflow);
    }
    proof {
        lemma_init_jobs_wf(li, lp);
    }
    let mut cand = build_jobs(&instance.jobs, &pred.jobs);
    let mut rr: Vec<Job> = Vec::new();
    let mut time = Rat::from_int(0);
    let mut cost = Rat::from_int(0);
    let mut budget = BudgetState::Fresh;
    let ghost init = arr_init(li, lp);
    let ghost nmax = instance.jobs@.len();
    assert(jobs_view(rr@) =~= Seq::<SJob>::empty());
    loop
        invariant_except_break
            ({
                let st = ArrState {
                    cand: jobs_view(cand@),
                    rr: jobs_view(rr@),
                    time: time@,
                    cost: cost@,
                    budget: budget@,
                };
                &&& st.wf()
                &&& arr_run(st, lambda@, equal_share) == arr_run(init, lambda@, equal_share)
                &&& arr_fits_from(st, lambda@, equal_share) == arr_fits_from(
                    init,
                    lambda@,
                    equal_share,
                )
            }),
            lambda@.wf(),
            cand@.len() + rr@.len() <= nmax,
            nmax <= 0x7fff_ffff_ffff_fffe,
            input_fault(li, lp, lambda@) is None,
            li == instance@,
            lp == pred@,
            init == arr_init(li, lp),
            init.wf(),
        ensures
            cost@ == arr_run(init, lambda@, equal_share),
        decreases cand@.len(), rr@.len(),
    {
        let ghost st = ArrState {
            cand: jobs_view(cand@),
            rr: jobs_view(rr@),
            time: time@,
            cost: cost@,
            budget: budget@,
        };
        if cand.len() > 0 {
            proof {
                lemma_arr_step(st, lambda@, equal_share);
                assert(st.cand[0] == cand@[0]@);
            }
            let c = cand.len();
            let r = rr.len();
            let ghost sc_spec = arr_scales(c as int, r as int, equal_share);
            proof {
                lemma_arr_scales(c as int, r as int, equal_share);
            }
            let one = Rat::from_int(1);
            let (ascale, rscale) = if equal_share {
                (one, one)
            } else {
                let tot = Rat::from_int(c as i64 + r as i64);
                let cr = Rat::from_int(c as i64);
                let asc = match tot.checked_div(cr) {
                    Some(v) => v,
                    None => {
                        proof {
                            assert(!arr_step_fits(st, lambda@, equal_share));
                        }
                        return Err(SimError::Overflow);
                    },
                };
                (asc, tot)
            };
            assert(ascale@ == sc_spec.0 && rscale@ == sc_spec.1);
            let budget_rat = match budget {
                BudgetState::Fresh => {
                    let om = match one.checked_sub(lambda) {
                        Some(v) => v,
                        None => {
                            proof {
                                assert(!arr_step_fits(st, lambda@, equal_share));
                            }
                            return Err(SimError::Overflow);
                        },
                    };
                    let b = match om.checked_mul(cand[0].predicted_length()) {
                        Some(v) => v,
                        None => {
                            proof {
                                assert(!arr_step_fits(st, lambda@, equal_share));
                            }
                            return Err(SimError::Overflow);
                        },
                    };
                    assert(rat_fits(rat_sub(rat_one(), lambda@)) && rat_fits(
                        rat_mul(rat_sub(rat_one(), lambda@), st.cand[0].pred),
                    ));
                    b
                },
                BudgetState::Resuming(b) => b,
            };
            assert(budget_rat@ == arr_budget(st, lambda@));
            let m = budget_rat.min(cand[0].remaining());
            assert(m@ == rat_min(arr_budget(st, lambda@), st.cand[0].rem));
            let cand_step = match m.checked_mul(ascale) {
                Some(v) => v,
                None => {
                    proof {
                        assert(!arr_step_fits(st, lambda@, equal_share));
                    }
                    return Err(SimError::Overflow);
                },
            };
            let ghost scaled = st.rr.map_values(|j: SJob| rat_mul(j.rem, rscale@));
            let mut step = cand_step;
            proof {
                assert(scaled.skip(0) =~= scaled);
            }
            let mut i: usize = 0;
            while i < r
                invariant
                    0 <= i <= r,
                    r == rr@.len(),
                    scaled == jobs_view(rr@).map_values(|j: SJob| rat_mul(j.rem, rscale@)),
                    scaled.len() == r,
                    min_from(scaled.skip(i as int), step@) == min_from(scaled, cand_step@),
                    st.rr == jobs_view(rr@),
                    st.cand.len() > 0,
                    st.wf(),
                    lambda@.wf(),
                    rscale@ == arr_scales(st.cand.len() as int, st.rr.len() as int, equal_share).1,
                    arr_fits_from(st, lambda@, equal_share) == arr_fits_from(
                        init,
                        lambda@,
                        equal_share,
                    ),
                    init == arr_init(li, lp),
                    forall|t: int| 0 <= t < i ==> rat_fits(rat_mul((#[trigger] st.rr[t]).rem, rscale@)),
                    input_fault(li, lp, lambda@) is None,
                    li == instance@,
                    lp == pred@,
                decreases r - i,
            {
                let sc = match rr[i].remaining().checked_mul(rscale) {
                    Some(v) => v,
                    None => {
                        proof {
                            assert(jobs_view(rr@)[i as int] == rr@[i as int]@);
                            assert(!rat_fits(rat_mul(st.rr[i as int].rem, rscale@)));
                            assert(!arr_step_fits(st, lambda@, equal_share));
                            assert(!arr_fits_from(st, lambda@, equal_share));
                        }
                        return Err(SimError::Overflow);
                    },
                };
                proof {
                    assert(jobs_view(rr@)[i as int] == rr@[i as int]@);
                    assert(sc@ == scaled[i as int]);
                    assert(scaled.skip(i as int).drop_first() =~= scaled.skip(i as int + 1));
                }
                step = step.min(sc);
                i += 1;
            }
            proof {
                assert(scaled.skip(r as int) =~= Seq::<SRat>::empty());
                assert(forall|t: int|
                    0 <= t < st.rr.len() ==> rat_fits(
                        rat_mul((#[trigger] st.rr[t]).rem, sc_spec.1),
                    ));
            }
            let ghost step_spec = min_from(scaled, rat_mul(rat_min(arr_budget(st, lambda@), st.cand[0].rem), sc_spec.0));
            assert(step@ == step_spec);
            let time2 = if equal_share {
                let k = Rat::from_int(r as i64 + 1);
                let t1 = match step.checked_mul(k) {
                    Some(v) => v,
                    None => {
                        proof {
                            assert(!arr_step_fits(st, lambda@, equal_share));
                        }
                        return Err(SimError::Overflow);
                    },
                };
                match time.checked_add(t1) {
                    Some(v) => v,
                    None => {
                        proof {
                            assert(!arr_step_fits(st, lambda@, equal_share));
                        }
                        return Err(SimError::Overflow);
                    },
                }
            } else {
                match time.checked_add(step) {
                    Some(v) => v,
                    None => {
                        proof {
                            assert(!arr_step_fits(st, lambda@, equal_share));
                        }
                        return Err(SimError::Overflow);
                    },
                }
            };
            let processed = match step.checked_div(ascale) {
                Some(v) => v,
                None => {
                    proof {
                        assert(!arr_step_fits(st, lambda@, equal_share));
                    }
                    return Err(SimError::Overflow);
                },
            };
            let mut head = cand[0];
            if !head.process(processed) {
                proof {
                    assert(!rat_fits(rat_sub(st.cand[0].rem, processed@)));
                    assert(!arr_step_fits(st, lambda@, equal_share));
                }
                return Err(SimError::Overflow);
            }
            let rr_amount = match step.checked_div(rscale) {
                Some(v) => v,
                None => {
                    proof {
                        assert(!arr_step_fits(st, lambda@, equal_share));
                    }
                    return Err(SimError::Overflow);
                },
            };
            if !process_pool(&mut rr, rr_amount) {
                proof {
                    let iw = choose|iw: int|
                        0 <= iw < st.rr.len() && !rat_fits(
                            rat_sub((#[trigger] st.rr[iw]).rem, rr_amount@),
                        );
                    assert(!arr_step_fits(st, lambda@, equal_share));
                }
                return Err(SimError::Overflow);
            }
            let ghost rrp = st.rr.map_values(|j: SJob| sjob_process(j, rr_amount@));
            assert(jobs_view(rr@) == rrp);
            let ndead = drain_finished(&mut rr);
            assert(jobs_view(rr@) == live(rrp));
            let cnt = Rat::from_int(ndead as i64);
            let c1 = match cnt.checked_mul(time2) {
                Some(v) => v,
                None => {
                    proof {
                        assert(!arr_step_fits(st, lambda@, equal_share));
                    }
                    return Err(SimError::Overflow);
                },
            };
            let cost2 = match cost.checked_add(c1) {
                Some(v) => v,
                None => {
                    proof {
                        assert(!arr_step_fits(st, lambda@, equal_share));
                    }
                    return Err(SimError::Overflow);
                },
            };
            let ghost s2 = arr_step(st, lambda@, equal_share);
            if head.is_finished() {
                let cost3 = match cost2.checked_add(time2) {
                    Some(v) => v,
                    None => {
                        proof {
                            assert(!arr_step_fits(st, lambda@, equal_share));
                        }
                        return Err(SimError::Overflow);
                    },
                };
                cost = cost3;
                time = time2;
                cand.remove(0);
                budget = BudgetState::Fresh;
                proof {
                    assert(jobs_view(cand@) =~= st.cand.drop_first());
                }
            } else if processed.eqv(&budget_rat) {
                cost = cost2;
                time = time2;
                cand.remove(0);
                rr.push(head);
                budget = BudgetState::Fresh;
                proof {
                    assert(jobs_view(cand@) =~= st.cand.drop_first());
                    assert(jobs_view(rr@) =~= live(rrp).push(head@));
                }
            } else {
                let resid = match budget_rat.checked_sub(processed) {
                    Some(v) => v,
                    None => {
                        proof {
                            assert(!arr_step_fits(st, lambda@, equal_share));
                        }
                        return Err(SimError::Overflow);
                    },
                };
                cost = cost2;
                time = time2;
                cand[0] = head;
                budget = BudgetState::Resuming(resid);
                proof {
                    assert(jobs_view(cand@) =~= st.cand.update(0, head@));
                }
            }
            proof {
                let st2 = ArrState {
                    cand: jobs_view(cand@),
                    rr: jobs_view(rr@),
                    time: time@,
                    cost: cost@,
                    budget: budget@,
                };
                assert(st2 == s2);
                assert(arr_step_fits(st, lambda@, equal_share));
                assert(arr_fits_from(st, lambda@, equal_share) == arr_fits_from(
                    st2,
                    lambda@,
                    equal_share,
                ));
            }
        } else if rr.len() > 0 {
            proof {
                lemma_arr_step(st, lambda@, equal_share);
            }
            match rr_round(&mut rr, time, cost) {
                Some(tc) => {
                    time = tc.0;
                    cost = tc.1;
                },
                None => {
                    proof {
                        assert(!arr_step_fits(st, lambda@, equal_share));
                    }
                    return Err(SimError::Overflow);
                },
            }
            proof {
                let st2 = ArrState {
                    cand: jobs_view(cand@),
                    rr: jobs_view(rr@),
                    time: time@,
                    cost: cost@,
                    budget: budget@,
                };
                assert(st.cand.len() == 0);
                assert(st2 == arr_step(st, lambda@, equal_share));
                assert(arr_step_fits(st, lambda@, equal_share));
                assert(arr_fits_from(st, lambda@, equal_share) == arr_fits_from(
                    st2,
                    lambda@,
                    equal_share,
                ));
            }
        } else {
            assert(st.done());
            assert(arr_run(st, lambda@, equal_share) == st.cost);
            break ;
        }
    }
    Ok(cost)
}

} // verus!
