use libspecr::nondet::{pick, predict, AmbientU64, Constant, PICK_ATTEMPTS};
use libspecr::{NdResult, Nondet};

#[test]
fn pick_accepting_predicate_returns_first_draw() {
    let mut distr = Constant::new(5);
    let picked = pick(&mut distr, |x| x == 5);
    assert_eq!(picked.unwrap().get(), 5);
    assert_eq!(distr.draws_count(), 1);
}

#[test]
fn pick_rejecting_predicate_exhausts_budget() {
    let mut distr = Constant::new(5);
    let picked = pick(&mut distr, |x| x == 6);
    assert!(picked.is_none());
    assert_eq!(distr.draws_count(), PICK_ATTEMPTS as u64);
    assert_eq!(distr.draws_count(), 50);
}

#[test]
fn pick_from_ambient_source() {
    let mut distr = AmbientU64::new();
    let picked = pick(&mut distr, |_| true);
    assert!(picked.is_some());
    // an accepted parity cut is found well within the budget in practice
    let mut distr = AmbientU64::new();
    let even = pick(&mut distr, |x| x % 2 == 0);
    if let Some(choice) = even {
        assert_eq!(choice.get() % 2, 0);
    }
}

#[test]
fn predict_is_unimplemented() {
    let predicted: Option<Nondet<u64>> = predict(|x| x == 5);
    assert!(predicted.is_none());
}

#[test]
fn nondet_wraps_and_unwraps() {
    let n = Nondet::new(11u64);
    assert_eq!(n.get(), 11);
}

#[test]
fn and_then_chains_successes() {
    let start: NdResult<u64, String> = NdResult::from_output(2);
    let result = start
        .and_then(|x| NdResult::from_output(x + 1))
        .and_then(|x| NdResult::from_output(x * 10));
    assert_eq!(result.get_internal(), Ok(30));
}

#[test]
fn and_then_stops_at_first_error() {
    let start: NdResult<u64, String> = NdResult::from_output(2);
    let result = start
        .and_then(|_| NdResult::raise(String::from("boom")))
        .and_then(|x: u64| NdResult::from_output(x * 10));
    assert_eq!(result.get_internal(), Err(String::from("boom")));
}

#[test]
fn error_residual_propagates_unchanged() {
    let failed: Result<u64, String> = Err(String::from("io"));
    let lifted: NdResult<u64, String> = NdResult::from_internal(failed);
    let chained = lifted.and_then(|x| NdResult::from_output(x + 1));
    assert_eq!(chained.get_internal(), Err(String::from("io")));
}

#[test]
fn choice_value_propagates_without_error() {
    let choice = Nondet::new(9u64);
    let lifted: NdResult<u64, String> = NdResult::from_nondet(choice);
    assert_eq!(lifted.get_internal(), Ok(9));
}

#[test]
fn raise_produces_the_error_arm() {
    let raised: NdResult<u64, u64> = NdResult::raise(404);
    assert_eq!(raised.get_internal(), Err(404));
}
