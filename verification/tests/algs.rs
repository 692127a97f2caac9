use predsched::arr::adaptive_round_robin;
use predsched::instance::Instance;
use predsched::prr::preferential_round_robin;
use predsched::rat::Rat;
use predsched::two_stage::two_stage_schedule;
use predsched::Opt;

fn ints(values: &[i64]) -> Instance {
    Instance::from(values.iter().map(|v| Rat::from_int(*v)).collect::<Vec<Rat>>())
}

fn halves(values: &[i64]) -> Instance {
    Instance::from(values.iter().map(|v| Rat::new(*v, 2).unwrap()).collect::<Vec<Rat>>())
}

#[test]
fn test_arr_rr() {
    let instance = ints(&[1, 2, 2]);
    let pred = instance.clone();
    let alg = adaptive_round_robin(&instance, &pred, Rat::from_int(1), true).unwrap();
    assert_eq!(Rat::from_int(13), alg);
}

#[test]
fn test_arr_ftp() {
    let instance = halves(&[3, 5, 7]);
    let pred = instance.clone();
    let alg = adaptive_round_robin(&instance, &pred, Rat::from_int(0), true).unwrap();
    assert_eq!(instance.opt().unwrap(), alg);
}

#[test]
fn test_arr() {
    let instance = ints(&[2, 4]);
    let pred = instance.clone();
    let alg = adaptive_round_robin(&instance, &pred, Rat::new(1, 2).unwrap(), false).unwrap();
    assert_eq!(Rat::from_int(9), alg);
}

#[test]
fn test_two_stage_rr() {
    let instance = ints(&[1, 2, 2]);
    let pred = instance.clone();
    let alg = two_stage_schedule(&instance, &pred, Rat::from_int(1)).unwrap();
    assert_eq!(Rat::from_int(13), alg);
}

#[test]
fn test_two_stage_ftp() {
    let instance = ints(&[1, 2, 3]);
    let pred = instance.clone();
    let alg = two_stage_schedule(&instance, &pred, Rat::from_int(0)).unwrap();
    assert_eq!(Rat::from_int(10), alg);
}

#[test]
fn test_two_stage() {
    let instance = ints(&[2, 4]);
    let pred = instance.clone();
    let alg = two_stage_schedule(&instance, &pred, Rat::new(1, 2).unwrap()).unwrap();
    assert_eq!(Rat::from_int(10), alg);
}

#[test]
fn test_prr_rr() {
    let instance = ints(&[1, 2, 2]);
    let pred = instance.clone();
    let alg = preferential_round_robin(&instance, &pred, Rat::from_int(1)).unwrap();
    assert_eq!(Rat::from_int(13), alg);
}

#[test]
fn test_prr_ftp() {
    let instance = Instance::from(vec![
        Rat::new(3, 2).unwrap(),
        Rat::from_int(2),
        Rat::from_int(3),
    ]);
    let pred = instance.clone();
    let alg = preferential_round_robin(&instance, &pred, Rat::from_int(0)).unwrap();
    assert_eq!(Rat::new(23, 2).unwrap(), alg);
}

#[test]
fn test_opt() {
    let instance = ints(&[1, 2, 4, 3]);
    assert_eq!(Rat::from_int(20), instance.opt().unwrap());
}
