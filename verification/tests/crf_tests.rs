use check_av1_encode::crf::average_is_defined;
use check_av1_encode::crf::{
    crf_for_option, find_average_crf, find_lowest_crf, split_workers, CrfSearch, CrfStep,
};

#[test]
fn lowest_crf() {
    assert_eq!(find_lowest_crf(vec![30, 25, 41]), 25);
    assert_eq!(find_lowest_crf(vec![7]), 7);
    assert_eq!(find_lowest_crf(vec![-3, 5, -3]), -3);
}

#[test]
fn average_crf_rounds_toward_zero() {
    assert_eq!(find_average_crf(vec![30, 25, 41]), 32);
    assert_eq!(find_average_crf(vec![30, 31]), 30);
    assert_eq!(find_average_crf(vec![-7, 0]), -3);
    assert_eq!(find_average_crf(vec![5]), 5);
}

#[test]
fn lowest_not_above_average() {
    let v = vec![44, 21, 37, 30];
    let lo = find_lowest_crf(v.clone());
    let avg = find_average_crf(v.clone());
    assert!(lo <= avg && avg <= 44);
}

#[test]
fn crf_option_choice() {
    assert_eq!(crf_for_option("smallest", 20, 30), 20);
    assert_eq!(crf_for_option("average", 20, 30), 30);
    assert_eq!(crf_for_option("anything", 20, 30), 30);
}

#[test]
fn workers_split_between_clips() {
    assert_eq!(split_workers(8, 3), (3, 2));
    assert_eq!(split_workers(2, 5), (2, 1));
    assert_eq!(split_workers(0, 5), (0, 1));
    assert_eq!(split_workers(12, 4), (4, 3));
}

#[test]
fn search_moves_by_five_then_one() {
    let s = CrfSearch::new(45);
    assert_eq!(s.pending_crf(), Some(45));
    // too low a score: lower the CRF by five
    let s = match s.record_score(85) {
        CrfStep::Next(t) => t,
        CrfStep::Found(_) => panic!("not found yet"),
    };
    assert_eq!(s, CrfSearch { crf: 40, was_above_90: false, was_below_90: false });
    // above 90: raise by five, remember it
    let s = match s.record_score(93) {
        CrfStep::Next(t) => t,
        CrfStep::Found(_) => panic!("not found yet"),
    };
    assert_eq!(s, CrfSearch { crf: 45, was_above_90: true, was_below_90: false });
    // below again: from now on by one
    let s = match s.record_score(88) {
        CrfStep::Next(t) => t,
        CrfStep::Found(_) => panic!("not found yet"),
    };
    assert_eq!(s, CrfSearch { crf: 44, was_above_90: true, was_below_90: true });
    let s = match s.record_score(91) {
        CrfStep::Next(t) => t,
        CrfStep::Found(_) => panic!("not found yet"),
    };
    assert_eq!(s.crf, 45);
    assert_eq!(s.record_score(90), CrfStep::Found(45));
}

#[test]
fn search_ends_at_floor() {
    let s = CrfSearch::new(18);
    let s = match s.record_score(50) {
        CrfStep::Next(t) => t,
        CrfStep::Found(_) => panic!("not found"),
    };
    assert_eq!(s.crf, 13);
    assert_eq!(s.pending_crf(), None);
    assert_eq!(CrfSearch::new(15).pending_crf(), None);
    assert_eq!(CrfSearch::new(16).pending_crf(), Some(16));
}

#[test]
fn search_step_fits() {
    let s = CrfSearch::new(i32::MAX - 4);
    assert!(!s.step_fits(95));
    assert!(s.step_fits(90));
    assert!(s.step_fits(10));
    let s = CrfSearch { crf: i32::MAX - 1, was_above_90: true, was_below_90: true };
    assert!(s.step_fits(95));
}

#[test]
fn average_defined_cases() {
    assert!(average_is_defined(&vec![1, 2, 3]));
    assert!(!average_is_defined(&vec![]));
    assert!(!average_is_defined(&vec![i32::MAX, 1, -5]));
    assert!(average_is_defined(&vec![i32::MAX, -1, 1]));
}
