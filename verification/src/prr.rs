//! Preferential Round Robin (PRR).
//!
//! The head job (smallest prediction) holds a preferred capacity share of
//! `(1 - lambda) + lambda / n`; every other job holds `lambda / n`.  The
//! continuous variant solves for the exact virtual time at which the next
//! job finishes and advances by that step.  The quantized variant advances by
//! a fixed external tick instead: per tick the head exclusively receives
//! `(1 - lambda)` of the tick, and every still-unfinished job (the head
//! again included) receives a pooled `lambda / n` share of it.

use vstd::prelude::*;
use crate::rat::{
    Rat, SRat, rat_eq, rat_le, rat_lt, rat_add, rat_sub, rat_mul, rat_div, rat_of_int, rat_fits,
    lemma_rat_zero_eq, lemma_rat_int_bounds, lemma_rat_add_exact, lemma_rat_sub_exact,
    lemma_rat_mul_exact, lemma_rat_div_exact, lemma_rat_sub_eq_zero, lemma_rat_div_mul_cancel,
    lemma_rat_eq_sign,
};
use crate::job::{Job, SJob, sjob_process};
use crate::sim::{
    SimError, rat_zero, rat_one, rats_view, jobs_view, rats_wf, jobs_wf, input_fault, init_jobs,
    min_from, lemma_min_from, live, lemma_live, lemma_live_shrinks, RRState, validate_inputs,
    build_jobs, process_pool, drain_finished, lemma_init_jobs_wf,
};
use crate::instance::Instance;
use crate::pred::Prediction;

verus! {

/// The continuous capacity shares: `(1 - lambda) + lambda / n` for the head,
/// `lambda / n` for every other job.
pub open spec fn prr_scales(lambda: SRat, n: int) -> (SRat, SRat) {
    let pool = rat_div(lambda, rat_of_int(n));
    (rat_add(rat_sub(rat_one(), lambda), pool), pool)
}

/// The shares are well-formed; the head's is positive, and the pooled one is
/// positive exactly when the trust parameter is.
pub proof fn lemma_prr_scales(lambda: SRat, n: int)
    requires
        lambda.wf(),
        rat_le(rat_zero(), lambda),
        rat_le(lambda, rat_one()),
        n >= 1,
    ensures
        prr_scales(lambda, n).0.wf(),
        prr_scales(lambda, n).0.n > 0,
        prr_scales(lambda, n).1.wf(),
        lambda.n > 0 ==> prr_scales(lambda, n).1.n > 0,
        lambda.n == 0 ==> prr_scales(lambda, n).1.n == 0,
        lambda.n >= 0,
{
    lemma_rat_int_bounds(lambda);
    let nn = rat_of_int(n);
    lemma_rat_div_exact(lambda, nn);
    let pool = rat_div(lambda, nn);
    let raw_p = crate::rat::rat_div_raw(lambda, nn);
    assert(raw_p.n == lambda.n && raw_p.d == lambda.d * n && raw_p.d >= 1) by (nonlinear_arith)
        requires
            raw_p == crate::rat::rat_div_raw(lambda, nn),
            nn == rat_of_int(n),
            n >= 1,
            lambda.d >= 1,
            crate::rat::rat_div_raw(lambda, nn) == (SRat { n: lambda.n * nn.d, d: lambda.d * nn.n }),
    ;
    lemma_rat_eq_sign(pool, raw_p);
    lemma_rat_sub_exact(rat_one(), lambda);
    let sub = rat_sub(rat_one(), lambda);
    let raw_s = crate::rat::rat_sub_raw(rat_one(), lambda);
    assert(raw_s.n == lambda.d - lambda.n && raw_s.d == lambda.d) by (nonlinear_arith)
        requires
            raw_s == crate::rat::rat_sub_raw(rat_one(), lambda),
            raw_s == (SRat { n: 1 * lambda.d - lambda.n * 1, d: 1 * lambda.d }),
    ;
    lemma_rat_eq_sign(sub, raw_s);
    lemma_rat_add_exact(sub, pool);
    let asc = rat_add(sub, pool);
    let raw_a = crate::rat::rat_add_raw(sub, pool);
    assert(raw_a.n > 0) by (nonlinear_arith)
        requires
            raw_a == (SRat { n: sub.n * pool.d + pool.n * sub.d, d: sub.d * pool.d }),
            sub.n >= 0,
            sub.d >= 1,
            pool.d >= 1,
            pool.n >= 0,
            lambda.n > 0 ==> pool.n > 0,
            lambda.n == 0 ==> sub.n > 0 && pool.n == 0,
            lambda.n >= 0,
    ;
    lemma_rat_eq_sign(asc, raw_a);
}

/// The virtual time to the next completion if the current shares held: the
/// minimum over the head's remaining work at its share and every other job's
/// at the pooled share.  With zero trust the pooled share is zero, so only
/// the head counts.
pub open spec fn prr_stepsize(s: RRState, lambda: SRat, ascale: SRat, pscale: SRat) -> SRat {
    let head_step = rat_div(s.jobs[0].rem, ascale);
    if rat_eq(lambda, rat_zero()) {
        head_step
    } else {
        min_from(s.jobs.drop_first().map_values(|j: SJob| rat_div(j.rem, pscale)), head_step)
    }
}

/// One continuous PRR step (meaningful when jobs remain).
pub open spec fn prr_step(s: RRState, lambda: SRat) -> RRState {
    let n = s.jobs.len() as int;
    let scales = prr_scales(lambda, n);
    let ascale = scales.0;
    let pscale = scales.1;
    let step = prr_stepsize(s, lambda, ascale, pscale);
    let time2 = rat_add(s.time, step);
    let head = s.jobs[0];
    let head2 = SJob { total: head.total, pred: head.pred, rem: rat_sub(head.rem, rat_mul(step, ascale)) };
    let pool_amt = rat_mul(step, pscale);
    let rest = s.jobs.drop_first().map_values(|j: SJob| sjob_process(j, pool_amt));
    if head2.finished() {
        let jobs2 = live(rest);
        let cost2 = rat_add(
            rat_add(s.cost, time2),
            rat_mul(rat_of_int(rest.len() - jobs2.len()), time2),
        );
        RRState { jobs: jobs2, time: time2, cost: cost2 }
    } else {
        let processed = seq![head2] + rest;
        let jobs2 = live(processed);
        let cost2 = rat_add(s.cost, rat_mul(rat_of_int(processed.len() - jobs2.len()), time2));
        RRState { jobs: jobs2, time: time2, cost: cost2 }
    }
}

/// A continuous step keeps the state well-formed and finishes at least one
/// job.
pub proof fn lemma_prr_step(s: RRState, lambda: SRat)
    requires
        s.wf(),
        lambda.wf(),
        rat_le(rat_zero(), lambda),
        rat_le(lambda, rat_one()),
        s.jobs.len() > 0,
    ensures
        prr_step(s, lambda).wf(),
        prr_step(s, lambda).jobs.len() < s.jobs.len(),
{
    let n = s.jobs.len() as int;
    lemma_prr_scales(lambda, n);
    let scales = prr_scales(lambda, n);
    let ascale = scales.0;
    let pscale = scales.1;
    let head = s.jobs[0];
    lemma_rat_div_exact(head.rem, ascale);
    let head_step = rat_div(head.rem, ascale);
    lemma_rat_zero_eq(lambda);
    let cands = s.jobs.drop_first().map_values(|j: SJob| rat_div(j.rem, pscale));
    if lambda.n != 0 {
        assert(rats_wf(cands)) by {
            assert(forall|i: int|
                0 <= i < cands.len() ==> #[trigger] cands[i] == rat_div(s.jobs[i + 1].rem, pscale));
            assert forall|i: int| 0 <= i < cands.len() implies (#[trigger] cands[i]).wf() by {
                lemma_rat_div_exact(s.jobs[i + 1].rem, pscale);
            }
        }
        lemma_min_from(cands, head_step);
    }
    let step = prr_stepsize(s, lambda, ascale, pscale);
    lemma_rat_mul_exact(step, ascale);
    lemma_rat_sub_exact(head.rem, rat_mul(step, ascale));
    let head2 = SJob { total: head.total, pred: head.pred, rem: rat_sub(head.rem, rat_mul(step, ascale)) };
    lemma_rat_mul_exact(step, pscale);
    let pool_amt = rat_mul(step, pscale);
    let rest = s.jobs.drop_first().map_values(|j: SJob| sjob_process(j, pool_amt));
    assert(jobs_wf(rest)) by {
        assert(forall|i: int|
            0 <= i < rest.len() ==> #[trigger] rest[i] == sjob_process(s.jobs[i + 1], pool_amt));
        assert forall|i: int| 0 <= i < rest.len() implies (#[trigger] rest[i]).wf() by {
            lemma_rat_sub_exact(s.jobs[i + 1].rem, pool_amt);
        }
    }
    lemma_live(rest);
    let time2 = rat_add(s.time, step);
    lemma_rat_add_exact(s.time, step);
    if head2.finished() {
        lemma_rat_add_exact(s.cost, time2);
        lemma_rat_mul_exact(rat_of_int(rest.len() - live(rest).len()), time2);
        lemma_rat_add_exact(
            rat_add(s.cost, time2),
            rat_mul(rat_of_int(rest.len() - live(rest).len()), time2),
        );
    } else {
        // the head did not finish, so the step was some other job's candidate
        // time, and that job finishes now
        if step == head_step {
            lemma_rat_div_mul_cancel(head.rem, ascale);
            assert(rat_eq(rat_mul(rat_div(head.rem, ascale), ascale), head.rem));
            assert(rat_eq(head.rem, rat_mul(step, ascale)));
            lemma_rat_sub_eq_zero(head.rem, rat_mul(step, ascale));
            assert(head2.finished());
            assert(false);
        }
        assert(lambda.n != 0);
        let iw = choose|i: int| 0 <= i < cands.len() && step == #[trigger] cands[i];
        assert(cands[iw] == rat_div(s.jobs[iw + 1].rem, pscale));
        lemma_rat_div_mul_cancel(s.jobs[iw + 1].rem, pscale);
        assert(rat_eq(s.jobs[iw + 1].rem, pool_amt));
        lemma_rat_sub_eq_zero(s.jobs[iw + 1].rem, pool_amt);
        assert(rest[iw] == sjob_process(s.jobs[iw + 1], pool_amt));
        assert(rest[iw].finished());
        let processed = seq![head2] + rest;
        assert(jobs_wf(processed)) by {
            assert(forall|i: int|
                1 <= i < processed.len() ==> #[trigger] processed[i] == rest[i - 1]);
            assert(processed[0] == head2);
        }
        assert(processed[iw + 1] == rest[iw]);
        lemma_live_shrinks(processed, iw + 1);
        lemma_live(processed);
        lemma_rat_mul_exact(rat_of_int(processed.len() - live(processed).len()), time2);
        lemma_rat_add_exact(
            s.cost,
            rat_mul(rat_of_int(processed.len() - live(processed).len()), time2),
        );
    }
}

/// Continuous PRR run to completion.
pub open spec fn prr_run(s: RRState, lambda: SRat) -> SRat
    decreases s.jobs.len(),
        when s.wf() && lambda.wf() && rat_le(rat_zero(), lambda) && rat_le(lambda, rat_one())
        via prr_run_dec
{
    if s.jobs.len() == 0 {
        s.cost
    } else {
        prr_run(prr_step(s, lambda), lambda)
    }
}

#[via_fn]
proof fn prr_run_dec(s: RRState, lambda: SRat) {
    if s.jobs.len() > 0 {
        lemma_prr_step(s, lambda);
    }
}

/// Every reduced rational that one continuous PRR step computes fits the
/// executable range.
pub open spec fn prr_step_fits(s: RRState, lambda: SRat) -> bool {
    let n = s.jobs.len() as int;
    let scales = prr_scales(lambda, n);
    let ascale = scales.0;
    let pscale = scales.1;
    let step = prr_stepsize(s, lambda, ascale, pscale);
    let time2 = rat_add(s.time, step);
    let head = s.jobs[0];
    let head2 = SJob {
        total: head.total,
        pred: head.pred,
        rem: rat_sub(head.rem, rat_mul(step, ascale)),
    };
    let pool_amt = rat_mul(step, pscale);
    let rest = s.jobs.drop_first().map_values(|j: SJob| sjob_process(j, pool_amt));
    &&& rat_fits(pscale)
    &&& rat_fits(rat_sub(rat_one(), lambda))
    &&& rat_fits(ascale)
    &&& rat_fits(rat_div(head.rem, ascale))
    &&& (!rat_eq(lambda, rat_zero()) ==> forall|i: int|
        1 <= i < s.jobs.len() ==> rat_fits(rat_div((#[trigger] s.jobs[i]).rem, pscale)))
    &&& rat_fits(time2)
    &&& rat_fits(rat_mul(step, ascale))
    &&& rat_fits(rat_sub(head.rem, rat_mul(step, ascale)))
    &&& rat_fits(pool_amt)
    &&& (forall|i: int|
        1 <= i < s.jobs.len() ==> rat_fits(rat_sub((#[trigger] s.jobs[i]).rem, pool_amt)))
    &&& (if head2.finished() {
        let jobs2 = live(rest);
        &&& rat_fits(rat_add(s.cost, time2))
        &&& rat_fits(rat_mul(rat_of_int(rest.len() - jobs2.len()), time2))
        &&& rat_fits(
            rat_add(
                rat_add(s.cost, time2),
                rat_mul(rat_of_int(rest.len() - jobs2.len()), time2),
            ),
        )
    } else {
        let processed = seq![head2] + rest;
        let jobs2 = live(processed);
        &&& rat_fits(rat_mul(rat_of_int(processed.len() - jobs2.len()), time2))
        &&& rat_fits(rat_add(s.cost, rat_mul(rat_of_int(processed.len() - jobs2.len()), time2)))
    })
}

/// Every reduced rational of the whole continuous run fits the executable
/// range.
pub open spec fn prr_fits_from(s: RRState, lambda: SRat) -> bool
    decreases s.jobs.len(),
        when s.wf() && lambda.wf() && rat_le(rat_zero(), lambda) && rat_le(lambda, rat_one())
        via prr_fits_from_dec
{
    if s.jobs.len() == 0 {
        true
    } else {
        prr_step_fits(s, lambda) && prr_fits_from(prr_step(s, lambda), lambda)
    }
}

#[via_fn]
proof fn prr_fits_from_dec(s: RRState, lambda: SRat) {
    if s.jobs.len() > 0 {
        lemma_prr_step(s, lambda);
    }
}

/// Continuous PRR stays within the executable range on this input.
pub open spec fn prr_fits(li: Seq<SRat>, lp: Seq<SRat>, lambda: SRat) -> bool {
    li.len() <= 0x7fff_ffff_ffff_fffe && prr_fits_from(prr_init(li, lp), lambda)
}

/// The cost continuous PRR assigns to a validated input pair.
pub open spec fn prr_cost(li: Seq<SRat>, lp: Seq<SRat>, lambda: SRat) -> SRat {
    prr_run(RRState { jobs: init_jobs(li, lp), time: rat_zero(), cost: rat_zero() }, lambda)
}

/// One quantized tick: the clock advances by the fixed tick; the head
/// exclusively receives `(1 - lambda)` of it, then every still-unfinished
/// job (the head again, unless it just finished) receives the pooled
/// `lambda / n` share; each finisher adds the new clock to the cost.
pub open spec fn quant_tick(s: RRState, lambda: SRat, step: SRat) -> RRState {
    let n = s.jobs.len() as int;
    let time2 = rat_add(s.time, step);
    let excl = rat_mul(rat_sub(rat_one(), lambda), step);
    let head2 = sjob_process(s.jobs[0], excl);
    let share = rat_mul(rat_div(lambda, rat_of_int(n)), step);
    let rest = s.jobs.drop_first().map_values(|j: SJob| sjob_process(j, share));
    if head2.finished() {
        let jobs2 = live(rest);
        let cost2 = rat_add(
            rat_add(s.cost, time2),
            rat_mul(rat_of_int(rest.len() - jobs2.len()), time2),
        );
        RRState { jobs: jobs2, time: time2, cost: cost2 }
    } else {
        let head3 = sjob_process(head2, share);
        let processed = seq![head3] + rest;
        let jobs2 = live(processed);
        let cost2 = rat_add(s.cost, rat_mul(rat_of_int(processed.len() - jobs2.len()), time2));
        RRState { jobs: jobs2, time: time2, cost: cost2 }
    }
}

/// A tick keeps the state well-formed and never grows the pool.
pub proof fn lemma_quant_tick(s: RRState, lambda: SRat, step: SRat)
    requires
        s.wf(),
        lambda.wf(),
        step.wf(),
        s.jobs.len() > 0,
    ensures
        quant_tick(s, lambda, step).wf(),
        quant_tick(s, lambda, step).jobs.len() <= s.jobs.len(),
{
    let n = s.jobs.len() as int;
    lemma_rat_add_exact(s.time, step);
    let time2 = rat_add(s.time, step);
    lemma_rat_sub_exact(rat_one(), lambda);
    lemma_rat_mul_exact(rat_sub(rat_one(), lambda), step);
    let excl = rat_mul(rat_sub(rat_one(), lambda), step);
    lemma_rat_sub_exact(s.jobs[0].rem, excl);
    let head2 = sjob_process(s.jobs[0], excl);
    lemma_rat_div_exact(lambda, rat_of_int(n));
    lemma_rat_mul_exact(rat_div(lambda, rat_of_int(n)), step);
    let share = rat_mul(rat_div(lambda, rat_of_int(n)), step);
    let rest = s.jobs.drop_first().map_values(|j: SJob| sjob_process(j, share));
    assert(jobs_wf(rest)) by {
        assert(forall|i: int|
            0 <= i < rest.len() ==> #[trigger] rest[i] == sjob_process(s.jobs[i + 1], share));
        assert forall|i: int| 0 <= i < rest.len() implies (#[trigger] rest[i]).wf() by {
            lemma_rat_sub_exact(s.jobs[i + 1].rem, share);
        }
    }
    lemma_live(rest);
    if head2.finished() {
        lemma_rat_add_exact(s.cost, time2);
        lemma_rat_mul_exact(rat_of_int(rest.len() - live(rest).len()), time2);
        lemma_rat_add_exact(
            rat_add(s.cost, time2),
            rat_mul(rat_of_int(rest.len() - live(rest).len()), time2),
        );
    } else {
        lemma_rat_sub_exact(head2.rem, share);
        let head3 = sjob_process(head2, share);
        let processed = seq![head3] + rest;
        assert(jobs_wf(processed)) by {
            assert(forall|i: int|
                1 <= i < processed.len() ==> #[trigger] processed[i] == rest[i - 1]);
            assert(processed[0] == head3);
        }
        lemma_live(processed);
        lemma_rat_mul_exact(rat_of_int(processed.len() - live(processed).len()), time2);
        lemma_rat_add_exact(
            s.cost,
            rat_mul(rat_of_int(processed.len() - live(processed).len()), time2),
        );
    }
}

/// Every reduced rational that one quantized tick computes fits the
/// executable range.
pub open spec fn quant_tick_fits(s: RRState, lambda: SRat, step: SRat) -> bool {
    let n = s.jobs.len() as int;
    let time2 = rat_add(s.time, step);
    let excl = rat_mul(rat_sub(rat_one(), lambda), step);
    let head2 = sjob_process(s.jobs[0], excl);
    let share = rat_mul(rat_div(lambda, rat_of_int(n)), step);
    let rest = s.jobs.drop_first().map_values(|j: SJob| sjob_process(j, share));
    &&& rat_fits(time2)
    &&& rat_fits(rat_sub(rat_one(), lambda))
    &&& rat_fits(excl)
    &&& rat_fits(rat_sub(s.jobs[0].rem, excl))
    &&& rat_fits(rat_div(lambda, rat_of_int(n)))
    &&& rat_fits(share)
    &&& (forall|i: int|
        1 <= i < s.jobs.len() ==> rat_fits(rat_sub((#[trigger] s.jobs[i]).rem, share)))
    &&& (if head2.finished() {
        let jobs2 = live(rest);
        &&& rat_fits(rat_add(s.cost, time2))
        &&& rat_fits(rat_mul(rat_of_int(rest.len() - jobs2.len()), time2))
        &&& rat_fits(
            rat_add(
                rat_add(s.cost, time2),
                rat_mul(rat_of_int(rest.len() - jobs2.len()), time2),
            ),
        )
    } else {
        let head3 = sjob_process(head2, share);
        let processed = seq![head3] + rest;
        let jobs2 = live(processed);
        &&& rat_fits(rat_sub(head2.rem, share))
        &&& rat_fits(rat_mul(rat_of_int(processed.len() - jobs2.len()), time2))
        &&& rat_fits(rat_add(s.cost, rat_mul(rat_of_int(processed.len() - jobs2.len()), time2)))
    })
}

/// The run empties the pool within `k` ticks, and every reduced rational
/// along the way fits the executable range.
pub open spec fn quant_fits_steps(s: RRState, lambda: SRat, step: SRat, k: nat) -> bool
    decreases k,
{
    if s.jobs.len() == 0 {
        true
    } else if k == 0 {
        false
    } else {
        quant_tick_fits(s, lambda, step) && quant_fits_steps(
            quant_tick(s, lambda, step),
            lambda,
            step,
            (k - 1) as nat,
        )
    }
}

/// Quantized PRR stays within the executable range on this input: the job
/// count fits, the run finishes within the executable tick budget, and every
/// reduced rational of every tick fits.
pub open spec fn quant_fits(li: Seq<SRat>, lp: Seq<SRat>, lambda: SRat, step: SRat) -> bool {
    li.len() <= 0x7fff_ffff_ffff_fffe && quant_fits_steps(
        prr_init(li, lp),
        lambda,
        step,
        0xffff_ffff_ffff_ffff as nat,
    )
}

/// The state after `k` quantized ticks; ticking stops once the pool is
/// empty.
pub open spec fn quant_iter(s: RRState, lambda: SRat, step: SRat, k: nat) -> RRState
    decreases k,
{
    if k == 0 {
        s
    } else {
        let p = quant_iter(s, lambda, step, (k - 1) as nat);
        if p.jobs.len() == 0 {
            p
        } else {
            quant_tick(p, lambda, step)
        }
    }
}

/// The initial state shared by both PRR variants.
pub open spec fn prr_init(li: Seq<SRat>, lp: Seq<SRat>) -> RRState {
    RRState { jobs: init_jobs(li, lp), time: rat_zero(), cost: rat_zero() }
}

/// The fault quantized PRR rejects: the shared validation's, or a
/// non-positive tick length.
pub open spec fn quant_fault(li: Seq<SRat>, lp: Seq<SRat>, lambda: SRat, step: SRat) -> Option<
    SimError,
> {
    match input_fault(li, lp, lambda) {
        Some(e) => Some(e),
        None => if !rat_lt(rat_zero(), step) {
            Some(SimError::NonPositiveStepsize)
        } else {
            None
        },
    }
}

/// Runs continuous PRR.  An input fault is rejected exactly as the shared
/// validation names it; otherwise the result is exactly the model's cost,
/// and `Overflow` can come back only when the run does not fit the
/// executable range (`prr_fits` fails).
pub fn preferential_round_robin(instance: &Instance, pred: &Prediction, lambda: Rat) -> (r: Result<
    Rat,
    SimError,
>)
    ensures
        match input_fault(instance@, pred@, lambda@) {
            Some(e) => r == Err::<Rat, SimError>(e),
            None => {
                &&& (r matches Ok(v) ==> v@ == prr_cost(instance@, pred@, lambda@))
                &&& (r is Err ==> r == Err::<Rat, SimError>(SimError::Overflow) && !prr_fits(
                    instance@,
                    pred@,
                    lambda@,
                ))
                &&& (r is Ok || r == Err::<Rat, SimError>(SimError::Overflow))
            },
        },
{
    let ghost li = instance@;
    let ghost lp = pred@;
    match validate_inputs(&instance.jobs, &pred.jobs, &lambda) {
        Some(e) => {
            return Err(e);
        },
        None => {},
    }
    if instance.jobs.len() as u64 > 0x7fff_ffff_ffff_fffe {
        return Err(SimError::Overflow);
    }
    proof {
        lemma_init_jobs_wf(li, lp);
        lemma_rat_int_bounds(lambda@);
    }
    let mut jobs = build_jobs(&instance.jobs, &pred.jobs);
    let mut time = Rat::from_int(0);
    let mut cost = Rat::from_int(0);
    let one = Rat::from_int(1);
    let ghost init = prr_init(li, lp);
    let ghost nmax = li.len();
    while jobs.len() > 0
        invariant
            ({
                let st = RRState { jobs: jobs_view(jobs@), time: time@, cost: cost@ };
                &&& st.wf()
                &&& prr_run(st, lambda@) == prr_run(init, lambda@)
                &&& prr_fits_from(st, lambda@) == prr_fits_from(init, lambda@)
            }),
            lambda@.wf(),
            rat_le(rat_zero(), lambda@),
            rat_le(lambda@, rat_one()),
            init.wf(),
            init == prr_init(li, lp),
            jobs@.len() <= nmax,
            nmax <= 0x7fff_ffff_ffff_fffe,
            input_fault(li, lp, lambda@) is None,
            li == instance@,
            lp == pred@,
            one@ == rat_one(),
        decreases jobs@.len(),
    {
        let ghost st = RRState { jobs: jobs_view(jobs@), time: time@, cost: cost@ };
        proof {
            lemma_prr_step(st, lambda@);
            lemma_prr_scales(lambda@, st.jobs.len() as int);
            assert(st.jobs[0] == jobs@[0]@);
        }
        let n = jobs.len();
        let n_rat = Rat::from_int(n as i64);
        let ghost scales = prr_scales(lambda@, n as int);
        let pscale = match lambda.checked_div(n_rat) {
            Some(v) => v,
            None => {
                proof {
                    assert(!prr_step_fits(st, lambda@));
                }
                return Err(SimError::Overflow);
            },
        };
        let om = match one.checked_sub(lambda) {
            Some(v) => v,
            None => {
                proof {
                    assert(!prr_step_fits(st, lambda@));
                }
                return Err(SimError::Overflow);
            },
        };
        let ascale = match om.checked_add(pscale) {
            Some(v) => v,
            None => {
                proof {
                    assert(!prr_step_fits(st, lambda@));
                }
                return Err(SimError::Overflow);
            },
        };
        assert(ascale@ == scales.0 && pscale@ == scales.1);
        let mut head = jobs.remove(0);
        let head_step = match head.remaining().checked_div(ascale) {
            Some(v) => v,
            None => {
                proof {
                    assert(!prr_step_fits(st, lambda@));
                }
                return Err(SimError::Overflow);
            },
        };
        let ghost cands = st.jobs.drop_first().map_values(|j: SJob| rat_div(j.rem, pscale@));
        let mut step = head_step;
        proof {
            lemma_rat_zero_eq(lambda@);
        }
        if lambda.num() != 0 {
            proof {
                assert(jobs_view(jobs@) =~= st.jobs.drop_first());
                assert(cands.skip(0) =~= cands);
            }
            let mut i: usize = 0;
            let nr = jobs.len();
            while i < nr
                invariant
                    0 <= i <= nr,
                    nr == jobs@.len(),
                    jobs_view(jobs@) == st.jobs.drop_first(),
                    jobs_wf(st.jobs),
                    st.jobs.len() == nr + 1,
                    st.wf(),
                    cands == st.jobs.drop_first().map_values(|j: SJob| rat_div(j.rem, pscale@)),
                    cands.len() == nr,
                    pscale@ == scales.1,
                    scales == prr_scales(lambda@, (nr + 1) as int),
                    lambda@.wf(),
                    rat_le(rat_zero(), lambda@),
                    rat_le(lambda@, rat_one()),
                    lambda@.n != 0,
                    min_from(cands.skip(i as int), step@) == min_from(cands, head_step@),
                    prr_fits_from(st, lambda@) == prr_fits_from(init, lambda@),
                    init == prr_init(li, lp),
                    forall|t: int|
                        1 <= t <= i ==> rat_fits(rat_div((#[trigger] st.jobs[t]).rem, pscale@)),
                    input_fault(li, lp, lambda@) is None,
                    li == instance@,
                    lp == pred@,
                decreases nr - i,
            {
                proof {
                    lemma_prr_scales(lambda@, (nr + 1) as int);
                    assert(jobs@[i as int]@ == st.jobs.drop_first()[i as int]);
                }
                let sc = match jobs[i].remaining().checked_div(pscale) {
                    Some(v) => v,
                    None => {
                        proof {
                            assert(st.jobs.drop_first()[i as int] == st.jobs[i as int + 1]);
                            assert(!rat_fits(rat_div(st.jobs[i as int + 1].rem, pscale@)));
                            crate::rat::lemma_rat_zero_eq(lambda@);
                            assert(!prr_step_fits(st, lambda@));
                            assert(!prr_fits_from(st, lambda@));
                        }
                        return Err(SimError::Overflow);
                    },
                };
                proof {
                    assert(sc@ == cands[i as int]);
                    assert(cands.skip(i as int).drop_first() =~= cands.skip(i as int + 1));
                    assert(rat_fits(rat_div(st.jobs[i as int + 1].rem, pscale@)));
                }
                step = step.min(sc);
                i += 1;
            }
            proof {
                assert(cands.skip(nr as int) =~= Seq::<SRat>::empty());
                assert(forall|t: int|
                    1 <= t < st.jobs.len() ==> rat_fits(
                        rat_div((#[trigger] st.jobs[t]).rem, scales.1),
                    ));
            }
        }
        assert(step@ == prr_stepsize(st, lambda@, scales.0, scales.1));
        let time2 = match time.checked_add(step) {
            Some(v) => v,
            None => {
                proof {
                    assert(!prr_step_fits(st, lambda@));
                }
                return Err(SimError::Overflow);
            },
        };
        let hamt = match step.checked_mul(ascale) {
            Some(v) => v,
            None => {
                proof {
                    assert(!prr_step_fits(st, lambda@));
                }
                return Err(SimError::Overflow);
            },
        };
        if !head.process(hamt) {
            proof {
                assert(!rat_fits(rat_sub(st.jobs[0].rem, rat_mul(step@, scales.0))));
                assert(!prr_step_fits(st, lambda@));
            }
            return Err(SimError::Overflow);
        }
        let pool_amt = match step.checked_mul(pscale) {
            Some(v) => v,
            None => {
                proof {
                    assert(!prr_step_fits(st, lambda@));
                }
                return Err(SimError::Overflow);
            },
        };
        let ghost pool_view = jobs_view(jobs@);
        proof {
            assert(pool_view =~= st.jobs.drop_first());
        }
        if !process_pool(&mut jobs, pool_amt) {
            proof {
                let iw = choose|iw: int|
                    0 <= iw < pool_view.len() && !rat_fits(
                        rat_sub((#[trigger] pool_view[iw]).rem, pool_amt@),
                    );
                assert(pool_view[iw] == st.jobs[iw + 1]);
                assert(!prr_step_fits(st, lambda@));
            }
            return Err(SimError::Overflow);
        }
        let ghost rest = st.jobs.drop_first().map_values(|j: SJob| sjob_process(j, pool_amt@));
        assert(jobs_view(jobs@) == rest);
        if head.is_finished() {
            let c1 = match cost.checked_add(time2) {
                Some(v) => v,
                None => {
                    proof {
                        assert(!prr_step_fits(st, lambda@));
                    }
                    return Err(SimError::Overflow);
                },
            };
            let cnt = drain_finished(&mut jobs);
            let cnt_rat = Rat::from_int(cnt as i64);
            let c2 = match cnt_rat.checked_mul(time2) {
                Some(v) => v,
                None => {
                    proof {
                        assert(!prr_step_fits(st, lambda@));
                    }
                    return Err(SimError::Overflow);
                },
            };
            cost = match c1.checked_add(c2) {
                Some(v) => v,
                None => {
                    proof {
                        assert(!prr_step_fits(st, lambda@));
                    }
                    return Err(SimError::Overflow);
                },
            };
        } else {
            jobs.insert(0, head);
            proof {
                assert(jobs_view(jobs@) =~= seq![head@] + rest);
            }
            let cnt = drain_finished(&mut jobs);
            let cnt_rat = Rat::from_int(cnt as i64);
            let c2 = match cnt_rat.checked_mul(time2) {
                Some(v) => v,
                None => {
                    proof {
                        assert(!prr_step_fits(st, lambda@));
                    }
                    return Err(SimError::Overflow);
                },
            };
            cost = match cost.checked_add(c2) {
                Some(v) => v,
                None => {
                    proof {
                        assert(!prr_step_fits(st, lambda@));
                    }
                    return Err(SimError::Overflow);
                },
            };
        }
        time = time2;
        proof {
            let st2 = RRState { jobs: jobs_view(jobs@), time: time@, cost: cost@ };
            assert(st2 == prr_step(st, lambda@));
            assert forall|t: int| 1 <= t < st.jobs.len() implies rat_fits(
                rat_sub((#[trigger] st.jobs[t]).rem, pool_amt@),
            ) by {
                assert(pool_view[t - 1] == st.jobs[t]);
                assert(rat_fits(rat_sub(pool_view[t - 1].rem, pool_amt@)));
            }
            assert(prr_step_fits(st, lambda@));
            assert(prr_fits_from(st, lambda@) == prr_fits_from(st2, lambda@));
        }
    }
    Ok(cost)
}

/// Runs quantized PRR at a fixed virtual-time tick.  Faults are rejected
/// exactly (the shared validation's, then a non-positive tick); otherwise the
/// run reaches an empty pool after some number of ticks and returns exactly
/// that state's cost, and `Overflow` can come back only when the run does not
/// fit the executable range in values or in ticks (`quant_fits` fails).
pub fn run_prr_quantized(
    instance: &Instance,
    pred: &Prediction,
    lambda: Rat,
    stepsize: Rat,
) -> (r: Result<Rat, SimError>)
    ensures
        match quant_fault(instance@, pred@, lambda@, stepsize@) {
            Some(e) => r == Err::<Rat, SimError>(e),
            None => {
                &&& (r matches Ok(v) ==> exists|k: nat|
                    (#[trigger] quant_iter(
                        prr_init(instance@, pred@),
                        lambda@,
                        stepsize@,
                        k,
                    )).jobs.len() == 0 && v@ == quant_iter(
                        prr_init(instance@, pred@),
                        lambda@,
                        stepsize@,
                        k,
                    ).cost)
                &&& (r is Err ==> r == Err::<Rat, SimError>(SimError::Overflow) && !quant_fits(
                    instance@,
                    pred@,
                    lambda@,
                    stepsize@,
                ))
                &&& (r is Ok || r == Err::<Rat, SimError>(SimError::Overflow))
            },
        },
{
    let ghost li = instance@;
    let ghost lp = pred@;
    match validate_inputs(&instance.jobs, &pred.jobs, &lambda) {
        Some(e) => {
            return Err(e);
        },
        None => {},
    }
    let zero = Rat::from_int(0);
    if !zero.lt(&stepsize) {
        return Err(SimError::NonPositiveStepsize);
    }
    if instance.jobs.len() as u64 > 0x7fff_ffff_ffff_fffe {
        return Err(SimError::Overflow);
    }
    proof {
        lemma_init_jobs_wf(li, lp);
    }
    let mut jobs = build_jobs(&instance.jobs, &pred.jobs);
    let mut time = Rat::from_int(0);
    let mut cost = Rat::from_int(0);
    let one = Rat::from_int(1);
    let ghost init = prr_init(li, lp);
    let ghost k: nat = 0;
    let mut fuel: u64 = 0xffff_ffff_ffff_ffff;
    let ghost nmax = li.len();
    while jobs.len() > 0
        invariant
            ({
                let st = RRState { jobs: jobs_view(jobs@), time: time@, cost: cost@ };
                &&& st.wf()
                &&& st == quant_iter(init, lambda@, stepsize@, k)
                &&& (quant_fits(li, lp, lambda@, stepsize@) ==> quant_fits_steps(
                    st,
                    lambda@,
                    stepsize@,
                    fuel as nat,
                ))
            }),
            lambda@.wf(),
            stepsize@.wf(),
            init.wf(),
            init == prr_init(li, lp),
            jobs@.len() <= nmax,
            nmax <= 0x7fff_ffff_ffff_fffe,
            quant_fault(li, lp, lambda@, stepsize@) is None,
            li == instance@,
            lp == pred@,
            one@ == rat_one(),
        decreases fuel,
    {
        let ghost st = RRState { jobs: jobs_view(jobs@), time: time@, cost: cost@ };
        if fuel == 0 {
            proof {
                assert(!quant_fits_steps(st, lambda@, stepsize@, 0));
            }
            return Err(SimError::Overflow);
        }
        let ghost fuel0 = fuel as nat;
        fuel = fuel - 1;
        proof {
            lemma_quant_tick(st, lambda@, stepsize@);
            assert(st.jobs[0] == jobs@[0]@);
        }
        let n = jobs.len();
        let n_rat = Rat::from_int(n as i64);
        let time2 = match time.checked_add(stepsize) {
            Some(v) => v,
            None => {
                proof {
                    assert(!quant_tick_fits(st, lambda@, stepsize@));
                    assert(!quant_fits_steps(st, lambda@, stepsize@, fuel0));
                }
                return Err(SimError::Overflow);
            },
        };
        let om = match one.checked_sub(lambda) {
            Some(v) => v,
            None => {
                proof {
                    assert(!quant_tick_fits(st, lambda@, stepsize@));
                    assert(!quant_fits_steps(st, lambda@, stepsize@, fuel0));
                }
                return Err(SimError::Overflow);
            },
        };
        let excl = match om.checked_mul(stepsize) {
            Some(v) => v,
            None => {
                proof {
                    assert(!quant_tick_fits(st, lambda@, stepsize@));
                    assert(!quant_fits_steps(st, lambda@, stepsize@, fuel0));
                }
                return Err(SimError::Overflow);
            },
        };
        let mut head = jobs.remove(0);
        if !head.process(excl) {
            proof {
                assert(!rat_fits(rat_sub(st.jobs[0].rem, excl@)));
                assert(!quant_tick_fits(st, lambda@, stepsize@));
                assert(!quant_fits_steps(st, lambda@, stepsize@, fuel0));
            }
            return Err(SimError::Overflow);
        }
        let pool = match lambda.checked_div(n_rat) {
            Some(v) => v,
            None => {
                proof {
                    assert(!quant_tick_fits(st, lambda@, stepsize@));
                    assert(!quant_fits_steps(st, lambda@, stepsize@, fuel0));
                }
                return Err(SimError::Overflow);
            },
        };
        let share = match pool.checked_mul(stepsize) {
            Some(v) => v,
            None => {
                proof {
                    assert(!quant_tick_fits(st, lambda@, stepsize@));
                    assert(!quant_fits_steps(st, lambda@, stepsize@, fuel0));
                }
                return Err(SimError::Overflow);
            },
        };
        let ghost rest = st.jobs.drop_first().map_values(
            |j: SJob| sjob_process(
                j,
                rat_mul(rat_div(lambda@, rat_of_int(st.jobs.len() as int)), stepsize@),
            ),
        );
        let ghost pool_view = jobs_view(jobs@);
        proof {
            assert(pool_view =~= st.jobs.drop_first());
        }
        if head.is_finished() {
            let c1 = match cost.checked_add(time2) {
                Some(v) => v,
                None => {
                    proof {
                        assert(!quant_tick_fits(st, lambda@, stepsize@));
                        assert(!quant_fits_steps(st, lambda@, stepsize@, fuel0));
                    }
                    return Err(SimError::Overflow);
                },
            };
            if !process_pool(&mut jobs, share) {
                proof {
                    let iw = choose|iw: int|
                        0 <= iw < pool_view.len() && !rat_fits(
                            rat_sub((#[trigger] pool_view[iw]).rem, share@),
                        );
                    assert(pool_view[iw] == st.jobs[iw + 1]);
                    assert(!quant_tick_fits(st, lambda@, stepsize@));
                    assert(!quant_fits_steps(st, lambda@, stepsize@, fuel0));
                }
                return Err(SimError::Overflow);
            }
            assert(jobs_view(jobs@) == rest);
            let cnt = drain_finished(&mut jobs);
            let cnt_rat = Rat::from_int(cnt as i64);
            let c2 = match cnt_rat.checked_mul(time2) {
                Some(v) => v,
                None => {
                    proof {
                        assert(!quant_tick_fits(st, lambda@, stepsize@));
                        assert(!quant_fits_steps(st, lambda@, stepsize@, fuel0));
                    }
                    return Err(SimError::Overflow);
                },
            };
            cost = match c1.checked_add(c2) {
                Some(v) => v,
                None => {
                    proof {
                        assert(!quant_tick_fits(st, lambda@, stepsize@));
                        assert(!quant_fits_steps(st, lambda@, stepsize@, fuel0));
                    }
                    return Err(SimError::Overflow);
                },
            };
        } else {
            if !head.process(share) {
                proof {
                    assert(!rat_fits(rat_sub(sjob_process(st.jobs[0], excl@).rem, share@)));
                    assert(!quant_tick_fits(st, lambda@, stepsize@));
                    assert(!quant_fits_steps(st, lambda@, stepsize@, fuel0));
                }
                return Err(SimError::Overflow);
            }
            if !process_pool(&mut jobs, share) {
                proof {
                    let iw = choose|iw: int|
                        0 <= iw < pool_view.len() && !rat_fits(
                            rat_sub((#[trigger] pool_view[iw]).rem, share@),
                        );
                    assert(pool_view[iw] == st.jobs[iw + 1]);
                    assert(!quant_tick_fits(st, lambda@, stepsize@));
                    assert(!quant_fits_steps(st, lambda@, stepsize@, fuel0));
                }
                return Err(SimError::Overflow);
            }
            assert(jobs_view(jobs@) == rest);
            jobs.insert(0, head);
            proof {
                assert(jobs_view(jobs@) =~= seq![head@] + rest);
            }
            let cnt = drain_finished(&mut jobs);
            let cnt_rat = Rat::from_int(cnt as i64);
            let c2 = match cnt_rat.checked_mul(time2) {
                Some(v) => v,
                None => {
                    proof {
                        assert(!quant_tick_fits(st, lambda@, stepsize@));
                        assert(!quant_fits_steps(st, lambda@, stepsize@, fuel0));
                    }
                    return Err(SimError::Overflow);
                },
            };
            cost = match cost.checked_add(c2) {
                Some(v) => v,
                None => {
                    proof {
                        assert(!quant_tick_fits(st, lambda@, stepsize@));
                        assert(!quant_fits_steps(st, lambda@, stepsize@, fuel0));
                    }
                    return Err(SimError::Overflow);
                },
            };
        }
        time = time2;
        proof {
            let st2 = RRState { jobs: jobs_view(jobs@), time: time@, cost: cost@ };
            assert(st2 == quant_tick(st, lambda@, stepsize@));
            assert forall|t: int| 1 <= t < st.jobs.len() implies rat_fits(
                rat_sub((#[trigger] st.jobs[t]).rem, share@),
            ) by {
                assert(pool_view[t - 1] == st.jobs[t]);
                assert(rat_fits(rat_sub(pool_view[t - 1].rem, share@)));
            }
            assert(quant_tick_fits(st, lambda@, stepsize@));
            if quant_fits(li, lp, lambda@, stepsize@) {
                assert(quant_fits_steps(st, lambda@, stepsize@, fuel0));
                assert(quant_fits_steps(st2, lambda@, stepsize@, (fuel0 - 1) as nat));
            }
            k = k + 1;
        }
    }
    proof {
        let f = quant_iter(init, lambda@, stepsize@, k);
        assert(f.jobs.len() == 0 && cost@ == f.cost);
    }
    Ok(cost)
}

} // verus!
