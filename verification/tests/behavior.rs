use predsched::arr::adaptive_round_robin;
use predsched::instance::{optimal_flow_time, Instance};
use predsched::job::Job;
use predsched::prr::{preferential_round_robin, run_prr_quantized};
use predsched::rat::Rat;
use predsched::rtnorm::{Error, TruncatedNormal};
use predsched::sim::SimError;
use predsched::two_stage::two_stage_schedule;
use predsched::Opt;

fn ints(values: &[i64]) -> Instance {
    Instance::from(values.iter().map(|v| Rat::from_int(*v)).collect::<Vec<Rat>>())
}

#[test]
fn quantized_full_trust_matches_round_robin() {
    let instance = ints(&[1, 2, 2]);
    let pred = instance.clone();
    let tick = Rat::new(1, 10).unwrap();
    let alg = run_prr_quantized(&instance, &pred, Rat::from_int(1), tick).unwrap();
    assert_eq!(Rat::from_int(13), alg);
}

#[test]
fn quantized_zero_trust_runs_sequentially() {
    let instance = Instance::from(vec![
        Rat::new(3, 2).unwrap(),
        Rat::from_int(2),
        Rat::from_int(3),
    ]);
    let pred = instance.clone();
    let tick = Rat::new(1, 10).unwrap();
    let alg = run_prr_quantized(&instance, &pred, Rat::from_int(0), tick).unwrap();
    assert_eq!(Rat::new(23, 2).unwrap(), alg);
}

#[test]
fn mismatched_lengths_are_rejected() {
    let instance = ints(&[1]);
    let pred = ints(&[1, 2]);
    let half = Rat::new(1, 2).unwrap();
    assert_eq!(
        adaptive_round_robin(&instance, &pred, half, true),
        Err(SimError::LengthMismatch)
    );
    assert_eq!(two_stage_schedule(&instance, &pred, half), Err(SimError::LengthMismatch));
    assert_eq!(
        preferential_round_robin(&instance, &pred, half),
        Err(SimError::LengthMismatch)
    );
    assert_eq!(
        run_prr_quantized(&instance, &pred, half, Rat::from_int(1)),
        Err(SimError::LengthMismatch)
    );
}

#[test]
fn negative_lengths_are_rejected() {
    let instance = ints(&[1, -1]);
    let pred = ints(&[1, 1]);
    let half = Rat::new(1, 2).unwrap();
    assert_eq!(
        adaptive_round_robin(&instance, &pred, half, false),
        Err(SimError::NegativeLength)
    );
    assert_eq!(optimal_flow_time(&instance.jobs), Err(SimError::NegativeLength));
    // a negative prediction is rejected too
    let bad_pred = ints(&[1, -2]);
    assert_eq!(two_stage_schedule(&pred, &bad_pred, half), Err(SimError::NegativeLength));
}

#[test]
fn lambda_outside_unit_interval_is_rejected() {
    let instance = ints(&[1, 2]);
    let pred = instance.clone();
    assert_eq!(
        adaptive_round_robin(&instance, &pred, Rat::new(3, 2).unwrap(), true),
        Err(SimError::LambdaOutOfRange)
    );
    assert_eq!(
        preferential_round_robin(&instance, &pred, Rat::from_int(-1)),
        Err(SimError::LambdaOutOfRange)
    );
}

#[test]
fn non_positive_stepsize_is_rejected() {
    let instance = ints(&[1, 2]);
    let pred = instance.clone();
    let half = Rat::new(1, 2).unwrap();
    assert_eq!(
        run_prr_quantized(&instance, &pred, half, Rat::from_int(0)),
        Err(SimError::NonPositiveStepsize)
    );
    assert_eq!(
        run_prr_quantized(&instance, &pred, half, Rat::from_int(-1)),
        Err(SimError::NonPositiveStepsize)
    );
}

#[test]
fn remaining_within_tolerance_counts_as_finished() {
    // 1/20000 lies in (0, 1/10000]: finished exactly like a zero-length job
    let tiny = Job::new(0, Rat::new(1, 20000).unwrap(), Rat::new(1, 20000).unwrap());
    let zero = Job::new(1, Rat::from_int(0), Rat::from_int(0));
    assert!(tiny.is_finished());
    assert!(zero.is_finished());
    // just above the tolerance is not finished
    let above = Job::new(2, Rat::new(2, 10000).unwrap(), Rat::from_int(1));
    assert!(!above.is_finished());
}

#[test]
fn two_stage_budget_uses_the_pair_count() {
    // four jobs: the probe budget is 7/10 * 4 * 37 / 6 = 259/15, which cuts
    // the probe short; the two long jobs are then committed sequentially
    let instance = ints(&[1, 1, 10, 10]);
    let pred = instance.clone();
    let alg = two_stage_schedule(&instance, &pred, Rat::new(7, 10).unwrap()).unwrap();
    assert_eq!(Rat::new(1489, 30).unwrap(), alg);
}

#[test]
fn perfect_predictions_with_full_trust_are_optimal() {
    let instance = ints(&[3, 1, 4, 1, 5]);
    let pred = instance.clone();
    let opt = instance.opt().unwrap();
    assert_eq!(Rat::from_int(31), opt);
    let alg = adaptive_round_robin(&instance, &pred, Rat::from_int(0), true).unwrap();
    assert_eq!(opt, alg);
}

#[test]
fn zero_trust_reduces_to_fair_round_robin() {
    // with lambda = 1 the predictions are ignored entirely
    let instance = ints(&[2, 3, 5]);
    let pred = ints(&[9, 1, 4]);
    let one = Rat::from_int(1);
    let equal = adaptive_round_robin(&instance, &pred, one, true).unwrap();
    let scaled = adaptive_round_robin(&instance, &pred, one, false).unwrap();
    let ts = two_stage_schedule(&instance, &pred, one).unwrap();
    assert_eq!(Rat::from_int(24), equal);
    assert_eq!(equal, scaled);
    assert_eq!(equal, ts);
}

#[test]
fn commit_tolerates_small_prediction_error() {
    // the first commit completes with |prediction - length| = 1/20000, inside
    // the tolerance: the flag stays down and the commit phase continues
    let instance = ints(&[1, 2, 3]);
    let pred = Instance::from(vec![
        Rat::new(20001, 20000).unwrap(),
        Rat::from_int(2),
        Rat::from_int(3),
    ]);
    let alg = two_stage_schedule(&instance, &pred, Rat::from_int(0)).unwrap();
    assert_eq!(Rat::from_int(10), alg);
    // beyond the tolerance the first completed mismatch halts the commit and
    // the rest drains by fair round robin
    let pred_off = Instance::from(vec![
        Rat::new(10002, 10000).unwrap(),
        Rat::from_int(2),
        Rat::from_int(3),
    ]);
    let alg_off = two_stage_schedule(&instance, &pred_off, Rat::from_int(0)).unwrap();
    assert_eq!(Rat::from_int(12), alg_off);
}

#[test]
fn tied_predictions_sort_by_true_length() {
    // equal predictions with different true lengths: permuting the inputs
    // together leaves every cost unchanged
    let instance = ints(&[1, 5]);
    let pred = ints(&[2, 2]);
    let instance_p = ints(&[5, 1]);
    let pred_p = ints(&[2, 2]);
    let zero = Rat::from_int(0);
    let a1 = adaptive_round_robin(&instance, &pred, zero, true).unwrap();
    let a2 = adaptive_round_robin(&instance_p, &pred_p, zero, true).unwrap();
    assert_eq!(Rat::from_int(7), a1);
    assert_eq!(a1, a2);
    assert_eq!(
        two_stage_schedule(&instance, &pred, zero).unwrap(),
        two_stage_schedule(&instance_p, &pred_p, zero).unwrap()
    );
    assert_eq!(
        preferential_round_robin(&instance, &pred, zero).unwrap(),
        preferential_round_robin(&instance_p, &pred_p, zero).unwrap()
    );
}

#[test]
fn permuting_both_vectors_together_keeps_costs() {
    let instance = ints(&[4, 1, 3]);
    let pred = ints(&[5, 2, 7]);
    let instance_p = ints(&[1, 3, 4]);
    let pred_p = ints(&[2, 7, 5]);
    let half = Rat::new(1, 2).unwrap();
    assert_eq!(
        adaptive_round_robin(&instance, &pred, half, true).unwrap(),
        adaptive_round_robin(&instance_p, &pred_p, half, true).unwrap()
    );
    assert_eq!(
        two_stage_schedule(&instance, &pred, half).unwrap(),
        two_stage_schedule(&instance_p, &pred_p, half).unwrap()
    );
    assert_eq!(
        preferential_round_robin(&instance, &pred, half).unwrap(),
        preferential_round_robin(&instance_p, &pred_p, half).unwrap()
    );
}

#[test]
fn instance_accessors_report_the_inputs() {
    let instance = ints(&[7, 9]);
    assert_eq!(2, instance.num_jobs());
    assert_eq!(Rat::from_int(9), instance.job_len(1));
}

#[test]
fn rational_arithmetic_is_exact_and_reduced() {
    let a = Rat::new(2, 4).unwrap();
    assert_eq!((1, 2), (a.num(), a.den()));
    let b = Rat::new(1, 3).unwrap();
    let s = a.checked_add(b).unwrap();
    assert_eq!((5, 6), (s.num(), s.den()));
    let d = s.checked_sub(a).unwrap();
    assert!(d.eqv(&b));
    let q = b.checked_div(a).unwrap();
    assert_eq!((2, 3), (q.num(), q.den()));
    assert!(Rat::new(1, 0).is_none());
    assert!(Rat::new(1, -2).is_none());
}

#[test]
fn truncation_bounds_are_validated() {
    let low = Rat::from_int(0);
    let high = Rat::from_int(10);
    let mean = Rat::from_int(5);
    let sd = Rat::from_int(2);
    assert!(TruncatedNormal::new(low, high, mean, sd).is_ok());
    assert_eq!(
        TruncatedNormal::new(high, low, mean, sd).unwrap_err(),
        Error::BadBounds
    );
    assert_eq!(
        TruncatedNormal::new(low, high, Rat::from_int(10), sd).unwrap_err(),
        Error::BadBounds
    );
    assert!(TruncatedNormal::upper_truncation(high, mean, sd).is_ok());
    assert_eq!(
        TruncatedNormal::upper_truncation(mean, high, sd).unwrap_err(),
        Error::BadBounds
    );
    assert!(TruncatedNormal::lower_truncation(low, mean, sd).is_ok());
    assert_eq!(
        TruncatedNormal::lower_truncation(mean, low, sd).unwrap_err(),
        Error::BadBounds
    );
    let t = TruncatedNormal::new(low, high, mean, sd).unwrap();
    assert_eq!(Rat::from_int(5), t.mean());
    assert_eq!(Rat::from_int(2), t.std_dev());
    assert_eq!(Some(Rat::from_int(0)), t.lower());
    assert_eq!(Some(Rat::from_int(10)), t.upper());
}
