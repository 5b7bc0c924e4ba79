//! Privacy guards.

use facetfold::anonymity::{AnonymityGuard, GuardOutcome};

#[test]
fn k_anonymity_blocks_singletons() {
    let g = AnonymityGuard::k_anonymity(5);
    let survivors = ["a", "b", "c"];
    let r = g.evaluate(&survivors);
    match r {
        GuardOutcome::DenyTooFewRecords { n: 3, k: 5 } => {}
        _ => panic!("expected DenyTooFewRecords"),
    }
}

#[test]
fn k_anonymity_allows_large_enough() {
    let g = AnonymityGuard::k_anonymity(5);
    let survivors = ["a", "b", "c", "d", "e", "f"];
    assert!(g.evaluate(&survivors).allow());
}

#[test]
fn l_diversity_blocks_homogeneous() {
    // 10 records but all sensitive=cancer → l-diversity fails for l=2
    let g = AnonymityGuard::k_and_l(5, 2);
    let survivors = vec!["cancer"; 10];
    let r = g.evaluate(&survivors);
    match r {
        GuardOutcome::DenyTooLowDiversity { distinct: 1, l: 2 } => {}
        _ => panic!("expected DenyTooLowDiversity"),
    }
}

#[test]
fn l_diversity_allows_mixed() {
    let g = AnonymityGuard::k_and_l(3, 2);
    let survivors = vec!["cancer", "diabetes", "cancer", "asthma", "diabetes"];
    assert!(g.evaluate(&survivors).allow());
}

#[test]
fn k_only_ignores_diversity() {
    let g = AnonymityGuard::k_anonymity(3);
    let survivors = vec!["cancer"; 5];
    assert!(g.evaluate(&survivors).allow()); // diversity not checked
}

#[test]
fn distinct_values_are_counted_once() {
    let g = AnonymityGuard::k_and_l(1, 4);
    match g.evaluate(&[3u64, 1, 3, 2, 1, 3]) {
        GuardOutcome::DenyTooLowDiversity { distinct: 3, l: 4 } => {}
        other => panic!("got {other:?}"),
    }
    assert!(!g.judge(0, 9).allow());
    assert!(g.judge(1, 4).allow());
}
