use strobe::accum::Accum;

#[test]
fn first_touch_scores_zero() {
    let mut a = Accum::with_capacity_pow2(8);
    a.begin();
    assert!(a.inc(7));
    assert_eq!(a.get_score(7), 0);
    assert!(!a.inc(7));
    assert_eq!(a.iter_touched().clone(), vec![7u32]);
}

#[test]
fn set_and_max() {
    let mut a = Accum::with_capacity_pow2(16);
    a.begin();
    assert!(a.inc(3));
    a.set_score(3, 10);
    assert_eq!(a.get_score(3), 10);
    a.update_max(3, 5);
    assert_eq!(a.get_score(3), 10);
    a.update_max(3, 11);
    assert_eq!(a.get_score(3), 11);
    a.update_max(3, 11);
    assert_eq!(a.get_score(3), 11);
}

#[test]
fn touched_order_is_first_touch_order() {
    let mut a = Accum::with_capacity_pow2(16);
    a.begin();
    for id in [9u32, 1, 25, 9, 17, 1, 0] {
        a.inc(id);
    }
    assert_eq!(a.iter_touched().clone(), vec![9u32, 1, 25, 17, 0]);
}

#[test]
fn colliding_ids_keep_their_own_scores() {
    // ids 1, 9, 17 and 25 all start probing at slot 1 of an 8-slot table
    let mut a = Accum::with_capacity_pow2(8);
    a.begin();
    for (i, id) in [1u32, 9, 17, 25].iter().enumerate() {
        assert!(a.inc(*id));
        a.set_score(*id, 100 + i as u32);
    }
    assert_eq!(a.get_score(1), 100);
    assert_eq!(a.get_score(9), 101);
    assert_eq!(a.get_score(17), 102);
    assert_eq!(a.get_score(25), 103);
    assert!(!a.inc(17));
    assert_eq!(a.get_score(17), 102);
}

#[test]
fn full_table_refuses_without_change() {
    let mut a = Accum::with_capacity_pow2(4);
    a.begin();
    for id in [10u32, 11, 12, 13] {
        assert!(a.inc(id));
        a.set_score(id, id);
    }
    assert!(!a.inc(99));
    assert!(!a.inc(10));
    assert_eq!(a.iter_touched().clone(), vec![10u32, 11, 12, 13]);
    for id in [10u32, 11, 12, 13] {
        assert_eq!(a.get_score(id), id);
    }
}

#[test]
fn begin_forgets_everything() {
    let mut a = Accum::with_capacity_pow2(4);
    a.begin();
    assert!(a.inc(5));
    a.set_score(5, 77);
    a.begin();
    assert!(a.iter_touched().is_empty());
    assert!(a.inc(5));
    assert_eq!(a.get_score(5), 0);
    // stale slots of earlier epochs are reused
    for round in 0..50u32 {
        a.begin();
        for id in [round, round + 4, round + 8, round + 12] {
            assert!(a.inc(id));
            a.set_score(id, round);
        }
        assert!(!a.inc(round + 16));
        assert_eq!(a.get_score(round + 8), round);
    }
}

#[test]
fn capacity_one() {
    let mut a = Accum::with_capacity_pow2(1);
    a.begin();
    assert!(a.inc(42));
    assert!(!a.inc(43));
    assert!(!a.inc(42));
    a.update_max(42, 9);
    assert_eq!(a.get_score(42), 9);
}

#[test]
fn default_table() {
    let mut a = Accum::default();
    a.begin();
    assert!(a.inc(u32::MAX));
    assert!(a.inc(0));
    assert!(a.inc(1 << 20));
    a.set_score(1 << 20, 3);
    assert_eq!(a.get_score(0), 0);
    assert_eq!(a.get_score(1 << 20), 3);
    assert_eq!(a.get_score(u32::MAX), 0);
}
