use dpll::opt_bool::{OptBool, OptBoolVec};

#[test]
fn test_set_unchecked() {
    let mut obv = OptBoolVec::new_unassigned(3);

    obv.set_unchecked(0, OptBool::True);
    obv.set_unchecked(1, OptBool::False);
    obv.set_unchecked(2, OptBool::True);

    assert_eq!(obv.get_unchecked(0), OptBool::True);
    assert_eq!(obv.get_unchecked(1), OptBool::False);
    assert_eq!(obv.get_unchecked(2), OptBool::True);

    obv.set_unchecked(1, OptBool::Unassigned);
    obv.set_unchecked(2, OptBool::False);

    assert_eq!(obv.get_unchecked(0), OptBool::True);
    assert_eq!(obv.get_unchecked(1), OptBool::Unassigned);
    assert_eq!(obv.get_unchecked(2), OptBool::False);
}

#[test]
fn opt_bool_queries() {
    assert!(OptBool::True.is_some() && OptBool::False.is_some());
    assert!(!OptBool::Unassigned.is_some());
    assert!(OptBool::Unassigned.is_none());
    assert!(OptBool::True.is_true() && !OptBool::True.is_false());
    assert!(OptBool::False.is_false() && !OptBool::False.is_true());
    assert!(!OptBool::Unassigned.is_true() && !OptBool::Unassigned.is_false());
    assert!(OptBool::True.is_bool(true) && !OptBool::True.is_bool(false));
    assert!(OptBool::False.is_bool(false) && !OptBool::False.is_bool(true));
    assert!(!OptBool::Unassigned.is_bool(true) && !OptBool::Unassigned.is_bool(false));
    assert!(OptBool::True.unwrap());
    assert!(!OptBool::False.unwrap());
}

#[test]
fn unwrap_or_falls_back_only_when_unassigned() {
    assert!(OptBool::True.unwrap_or(false));
    assert!(OptBool::True.unwrap_or(true));
    assert!(!OptBool::False.unwrap_or(false));
    assert!(!OptBool::False.unwrap_or(true));
    assert!(OptBool::Unassigned.unwrap_or(true));
    assert!(!OptBool::Unassigned.unwrap_or(false));
    assert_eq!(OptBool::from(true), OptBool::True);
    assert_eq!(OptBool::from(false), OptBool::False);
}

#[test]
fn packed_vector_keeps_items_apart_across_words() {
    let mut obv = OptBoolVec::new_unassigned(100);
    assert_eq!(obv.len(), 100);
    assert!(!obv.is_empty());
    for i in 0..100 {
        assert_eq!(obv.get_unchecked(i), OptBool::Unassigned);
    }
    for i in 0..100 {
        let value = match i % 3 {
            0 => OptBool::True,
            1 => OptBool::False,
            _ => OptBool::Unassigned,
        };
        obv.set_unchecked(i, value);
    }
    for i in 0..100 {
        let value = match i % 3 {
            0 => OptBool::True,
            1 => OptBool::False,
            _ => OptBool::Unassigned,
        };
        assert_eq!(obv.get_unchecked(i), value);
    }
    obv.set_unchecked(31, OptBool::True);
    obv.set_unchecked(32, OptBool::False);
    assert_eq!(obv.get_unchecked(30), OptBool::True);
    assert_eq!(obv.get_unchecked(31), OptBool::True);
    assert_eq!(obv.get_unchecked(32), OptBool::False);
    assert_eq!(obv.get_unchecked(33), OptBool::True);

    let empty = OptBoolVec::new();
    assert!(empty.is_empty());
    assert_eq!(empty.len(), 0);
    assert!(OptBoolVec::new_unassigned(0).is_empty());
}
