//! Cascading deletes.

use facetfold::cascade::CascadePlan;
use facetfold::error::BruceError;
use facetfold::memory::KvMemory;

fn bits(v: &[f64]) -> Vec<u64> {
    v.iter().map(|x| x.to_bits()).collect()
}

#[test]
fn cascade_deletes_all_subject_records() {
    let mut mem = KvMemory::new(2, 1);
    // 5 rows for customer42, 3 rows for customer99
    for i in 0..5 {
        mem.write(
            &format!("cust42_r{i}"),
            bits(&[1.0, 0.0]),
            bits(&[i as f64]),
            "gdpr-controller",
        )
        .unwrap();
    }
    for i in 0..3 {
        mem.write(
            &format!("cust99_r{i}"),
            bits(&[0.0, 1.0]),
            bits(&[i as f64]),
            "gdpr-controller",
        )
        .unwrap();
    }
    assert_eq!(mem.len_alive(), 8);

    let plan = CascadePlan {
        subject_id: "customer42".into(),
        references: vec![("rentals", (0..5).map(|i| format!("cust42_r{i}")).collect())],
        owner: "gdpr-controller".into(),
    };
    let receipt = plan.execute("rentals", &mut mem).unwrap();
    assert_eq!(receipt.n_total, 5);
    assert_eq!(mem.len_alive(), 3); // customer99's 3 rows remain
}

#[test]
fn cascade_is_idempotent() {
    let mut mem = KvMemory::new(1, 1);
    mem.write("only", bits(&[1.0]), bits(&[1.0]), "owner").unwrap();
    let plan = CascadePlan {
        subject_id: "s".into(),
        references: vec![("t", vec!["only".into(), "doesnt-exist".into()])],
        owner: "owner".into(),
    };
    let r = plan.execute("t", &mut mem).unwrap();
    assert_eq!(r.n_total, 1);
    // running again should not error
    let plan2 = CascadePlan {
        subject_id: "s".into(),
        references: vec![("t", vec!["only".into()])],
        owner: "owner".into(),
    };
    let r2 = plan2.execute("t", &mut mem).unwrap();
    assert_eq!(r2.n_total, 0);
}

#[test]
fn other_tables_are_left_out_and_the_receipt_lists_what_went() {
    let mut mem = KvMemory::new(0, 0);
    mem.write("a", vec![], vec![], "o").unwrap();
    mem.write("b", vec![], vec![], "someone else").unwrap();
    let plan = CascadePlan {
        subject_id: "s".into(),
        references: vec![
            ("other", vec!["a".into()]),
            ("t", vec!["a".into(), "b".into(), "c".into()]),
            ("t", vec!["a".into()]),
        ],
        owner: "o".into(),
    };
    let r = plan.execute("t", &mut mem).unwrap();
    assert_eq!(r.n_total, 1);
    assert_eq!(
        r.per_table,
        vec![
            ("t".to_string(), vec!["a".to_string()], 1),
            ("t".to_string(), vec![], 0)
        ]
    );
    assert_eq!((r.subject_id, r.owner), ("s".to_string(), "o".to_string()));
    assert_eq!(mem.len_alive(), 1);
}

#[test]
fn memory_refuses_what_does_not_fit() {
    let mut mem = KvMemory::new(1, 2);
    match mem.write("a", vec![], vec![], "o") {
        Err(BruceError::DimensionMismatch { expected: 1, got: 0 }) => {}
        other => panic!("got {other:?}"),
    }
    match mem.write("a", vec![0], vec![], "o") {
        Err(BruceError::DimensionMismatch { expected: 2, got: 0 }) => {}
        other => panic!("got {other:?}"),
    }
    mem.write("a", vec![0], vec![0, 0], "o").unwrap();
    match mem.write("a", vec![0], vec![0, 0], "o") {
        Err(BruceError::DuplicateKey(k)) => assert_eq!(k, "a"),
        other => panic!("got {other:?}"),
    }
    match mem.delete("a", "p") {
        Err(BruceError::PermissionDenied(k, o, w)) => {
            assert_eq!((k.as_str(), o.as_str(), w.as_str()), ("a", "o", "p"));
        }
        other => panic!("got {other:?}"),
    }
    match mem.delete("z", "o") {
        Err(BruceError::KeyNotFound(k)) => assert_eq!(k, "z"),
        other => panic!("got {other:?}"),
    }
    mem.delete("a", "o").unwrap();
    assert_eq!(mem.len_alive(), 0);
}
