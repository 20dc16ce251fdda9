use dpll::lit::Lit;
use std::cmp::Ordering;

#[test]
fn test_lit_order() {
    let cases: Vec<(i32, i32, Ordering)> = vec![
        (1, 2, Ordering::Less),
        (2, 1, Ordering::Greater),
        (1, -1, Ordering::Less),
        (-1, 1, Ordering::Greater),
        (-2, -1, Ordering::Greater),
        (-1, -2, Ordering::Less),
        (3, 3, Ordering::Equal),
        (-3, -3, Ordering::Equal),
    ];

    for (a, b, expected) in cases {
        let lit_a = Lit::from(a);
        let lit_b = Lit::from(b);
        assert_eq!(lit_a.cmp(&lit_b), expected, "Comparing {} and {}", a, b);
    }
}

#[test]
fn literal_encoding_packs_variable_and_polarity() {
    let positive = Lit::new(5, true);
    let negative = Lit::new(5, false);
    assert_eq!(positive.0, 10);
    assert_eq!(negative.0, 11);
    assert_eq!(positive.var(), 5);
    assert_eq!(negative.var(), 5);
    assert!(positive.is_pos() && !positive.is_neg());
    assert!(negative.is_neg() && !negative.is_pos());
    assert_eq!(positive.inverted(), negative);
    assert_eq!(negative.inverted(), positive);
    assert_eq!(positive.negated(), negative);
    assert_eq!(negative.negated(), negative);
}

#[test]
fn literal_evaluation_follows_polarity() {
    assert!(Lit::new(0, true).eval_with(true));
    assert!(!Lit::new(0, true).eval_with(false));
    assert!(!Lit::new(0, false).eval_with(true));
    assert!(Lit::new(0, false).eval_with(false));
}

#[test]
fn literal_from_signed_number() {
    assert_eq!(Lit::from(1), Lit::new(0, true));
    assert_eq!(Lit::from(-1), Lit::new(0, false));
    assert_eq!(Lit::from(7), Lit::new(6, true));
    assert_eq!(Lit::from(-7), Lit::new(6, false));
    assert_eq!(Lit::from(0), Lit::invalid());
    assert_eq!(Lit::from(i32::MIN), Lit::invalid());
    assert_eq!(Lit::invalid().0, u32::MAX);
}

#[test]
fn the_last_variable_that_31_bits_hold_can_be_named() {
    let last = 0x7FFF_FFFF;
    let positive = Lit::new(last, true);
    let negative = Lit::new(last, false);
    assert_eq!(positive.0, 0xFFFF_FFFE);
    assert_eq!(negative.0, 0xFFFF_FFFF);
    assert_eq!(positive.var(), last);
    assert_eq!(negative.var(), last);
    assert!(positive.is_pos() && negative.is_neg());
    assert_eq!(positive.inverted(), negative);
    assert!(Lit::new(last - 1, false) < positive);
    assert!(positive < negative);
}
