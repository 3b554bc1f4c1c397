//! Sequence-number arithmetic.
use tcp_stack::seq::{advance_by, after, before, between};

#[test]
fn basic_order() {
    assert!(before(1, 2));
    assert!(!before(2, 1));
    assert!(after(2, 1));
    assert!(!before(5, 5)); // equal is neither before nor after
    assert!(!after(5, 5));
}

#[test]
fn handles_wraparound() {
    // Just before the wrap is "before" just after it.
    assert!(before(0xFFFF_FFFF, 0));
    assert!(after(0, 0xFFFF_FFFF));
    assert!(!before(0, 0xFFFF_FFFF));
}

#[test]
fn window_inclusive_of_end_exclusive_of_start() {
    assert!(between(100, 150, 200)); // strictly inside
    assert!(between(100, 200, 200)); // x == end is included
    assert!(!between(100, 100, 200)); // x == start is excluded
    assert!(!between(100, 250, 200)); // past the end
    assert!(!between(100, 50, 200)); // before the start
}

#[test]
fn window_across_the_wrap() {
    // Window (0xFFFFFFFE, 3] wraps past 0; 1 is inside it.
    assert!(between(0xFFFF_FFFE, 1, 3));
    assert!(between(0xFFFF_FFFE, 0xFFFF_FFFF, 3));
    assert!(between(0xFFFF_FFFE, 3, 3));
    assert!(!between(0xFFFF_FFFE, 4, 3)); // just past the end
    assert!(!between(0xFFFF_FFFE, 0xFFFF_FFFE, 3)); // == start excluded
}

#[test]
fn advancing_wraps_around() {
    assert_eq!(advance_by(10, 5), 15);
    assert_eq!(advance_by(0xFFFF_FFFE, 3), 1);
    assert_eq!(advance_by(7, 0), 7);
}

#[test]
fn order_is_the_same_wherever_the_circle_is_entered() {
    for shift in [0u32, 1, 0x7FFF_FFFF, 0x8000_0000, 0xFFFF_FFFF] {
        assert!(before(100u32.wrapping_add(shift), 200u32.wrapping_add(shift)));
        assert!(!before(200u32.wrapping_add(shift), 100u32.wrapping_add(shift)));
    }
}

#[test]
fn exactly_opposite_numbers_precede_each_other() {
    assert!(before(0, 0x8000_0000));
    assert!(before(0x8000_0000, 0));
}

#[test]
fn a_window_may_span_half_the_circle() {
    for start in [0u32, 100, 0xFFFF_FFF0] {
        let end = start.wrapping_add(0x8000_0000);
        assert!(!between(start, start, end));
        assert!(between(start, start.wrapping_add(1), end));
        assert!(between(start, end, end));
        assert!(!between(start, end.wrapping_add(1), end));
    }
}
