use flatten::euler::DyadicCursor;

#[test]
fn whole_range_accepted_at_once() {
    let mut c = DyadicCursor::new();
    assert_eq!(c.numerator(), 0);
    assert_eq!(c.exponent(), 0);
    assert!(!c.done());
    c.advance();
    assert_eq!(c.numerator(), 1);
    assert_eq!(c.exponent(), 0);
    assert!(c.done());
}

#[test]
fn subdivide_twice_then_walk_to_exact_end() {
    let mut c = DyadicCursor::new();
    c.subdivide();
    assert_eq!((c.numerator(), c.exponent()), (0, 1));
    c.subdivide();
    assert_eq!((c.numerator(), c.exponent()), (0, 2));
    // accept [0, 1/4]: start becomes 1/4
    c.advance();
    assert_eq!((c.numerator(), c.exponent()), (1, 2));
    assert!(!c.done());
    // accept [1/4, 1/2]: siblings merge, start becomes 1/2
    c.advance();
    assert_eq!((c.numerator(), c.exponent()), (1, 1));
    assert!(!c.done());
    // accept [1/2, 1]: start reaches one exactly
    c.advance();
    assert_eq!((c.numerator(), c.exponent()), (1, 0));
    assert!(c.done());
}

#[test]
fn uneven_walk_merges_and_terminates() {
    let mut c = DyadicCursor::new();
    c.subdivide();
    c.advance();
    // [1/2 .. 1] is the candidate; subdivide it twice
    assert_eq!((c.numerator(), c.exponent()), (1, 1));
    c.subdivide();
    assert_eq!((c.numerator(), c.exponent()), (2, 2));
    c.subdivide();
    assert_eq!((c.numerator(), c.exponent()), (4, 3));
    c.advance();
    assert_eq!((c.numerator(), c.exponent()), (5, 3));
    c.advance();
    assert_eq!((c.numerator(), c.exponent()), (3, 2));
    assert!(!c.done());
    c.advance();
    // 4/4 shifts down to 1/1: exactly one, no rounding slack
    assert_eq!((c.numerator(), c.exponent()), (1, 0));
    assert!(c.done());
}
