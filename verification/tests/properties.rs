use rhythms::Pattern;

fn pulse_count(pattern: &Pattern) -> usize {
    pattern.as_slice().iter().filter(|&&b| b).count()
}

#[test]
fn two_pulses_over_four() {
    let pattern = Pattern::new(4, 2, 0);
    assert_eq!([true, false, true, false], pattern.as_slice());
}

#[test]
fn two_pulses_over_four_advanced() {
    let pattern = Pattern::new(4, 2, -1);
    assert_eq!([false, true, false, true], pattern.as_slice());
}

#[test]
fn one_pulse_over_three() {
    let pattern = Pattern::new(3, 1, 0);
    assert_eq!([false, true, false], pattern.as_slice());
}

#[test]
fn pulse_count_is_exact() {
    for length in 1..20usize {
        for pulses in 0..=length {
            let mut pattern = Pattern::with_length(length);
            pattern.pulses(pulses);
            assert_eq!(length, pattern.len());
            assert_eq!(pulses, pulse_count(&pattern));
        }
    }
}

#[test]
fn saturated_pulses_fill_every_step() {
    let mut pattern = Pattern::with_length(5);
    pattern.pulses(7);
    assert_eq!([true, true, true, true, true], pattern.as_slice());
}

#[test]
fn rotation_round_trip() {
    let original = [true, false, false, true, false, true, true];
    let mut pattern = Pattern::from_slice(&original);
    pattern.rotate(3);
    pattern.rotate(-3);
    assert_eq!(original, pattern.as_slice());
}

#[test]
fn rotation_by_length_is_identity() {
    let original = [true, false, true, false, false];
    let mut pattern = Pattern::from_slice(&original);
    pattern.rotate(5);
    assert_eq!(original, pattern.as_slice());
}

#[test]
fn rotation_reduces_modulo_length() {
    let mut a = Pattern::new(4, 2, 0);
    let mut b = Pattern::new(4, 2, 0);
    a.rotate(10);
    b.rotate(2);
    assert_eq!(a.as_slice(), b.as_slice());
    a.rotate(-9);
    b.rotate(-1);
    assert_eq!(a.as_slice(), b.as_slice());
}

#[test]
fn rotation_of_empty_pattern() {
    let mut pattern = Pattern::with_length(0);
    pattern.rotate(5);
    pattern.rotate(-5);
    assert_eq!(0, pattern.len());
}

#[test]
fn from_slice_round_trip() {
    let bits = [false, true, true, false, true];
    let pattern = Pattern::from_slice(&bits);
    assert_eq!(bits, pattern.as_slice());
}

#[test]
fn resize_grow_then_shrink_restores() {
    let bits = [true, false, true];
    let mut pattern = Pattern::from_slice(&bits);
    pattern.resize(6);
    assert_eq!([true, false, true, false, false, false], pattern.as_slice());
    pattern.resize(3);
    assert_eq!(bits, pattern.as_slice());
}

#[test]
fn clear_keeps_length() {
    let mut pattern = Pattern::new(4, 2, 0);
    pattern.clear();
    assert_eq!([false, false, false, false], pattern.as_slice());
    assert_eq!(4, pattern.len());
}

#[test]
fn step_accessor() {
    let pattern = Pattern::new(4, 2, 0);
    assert_eq!(Some(true), pattern.step(0));
    assert_eq!(Some(false), pattern.step(1));
    assert_eq!(None, pattern.step(4));
}

#[test]
fn looped_traversal_is_periodic() {
    let mut pattern = Pattern::from_slice(&[true, false]);
    for _ in 0..3 {
        assert_eq!(true, pattern.next_looped());
        assert_eq!(false, pattern.next_looped());
    }
}

#[test]
fn finite_traversal_restarts_after_none() {
    let mut pattern = Pattern::new(4, 2, 0);
    assert_eq!(Some(true), pattern.next());
    assert_eq!(Some(false), pattern.next());
    assert_eq!(Some(true), pattern.next());
    assert_eq!(Some(false), pattern.next());
    assert_eq!(None, pattern.next());
    assert_eq!(Some(true), pattern.next());
}

#[test]
fn finite_traversal_of_empty_pattern() {
    let mut pattern = Pattern::with_length(0);
    assert_eq!(None, pattern.next());
    assert_eq!(None, pattern.next());
}

#[test]
fn reset_returns_to_first_step() {
    let mut pattern = Pattern::new(4, 2, 0);
    assert_eq!(Some(true), pattern.next());
    pattern.reset();
    assert_eq!(Some(true), pattern.next());
}

#[test]
fn move_cursor_selects_step() {
    let mut pattern = Pattern::new(4, 2, 0);
    assert_eq!(Some(true), pattern.next());
    assert_eq!(Some(false), pattern.next());
    pattern.move_cursor(1);
    assert_eq!(Some(false), pattern.next());
}

#[test]
fn move_cursor_clamps_to_last_step() {
    let mut pattern = Pattern::from_slice(&[false, false, true]);
    pattern.move_cursor(10);
    assert_eq!(Some(true), pattern.next());
}

#[test]
fn move_cursor_on_empty_pattern() {
    let mut pattern = Pattern::with_length(0);
    pattern.move_cursor(5);
    assert_eq!(None, pattern.next());
}

#[test]
fn looped_traversal_after_exhaustion() {
    let mut pattern = Pattern::from_slice(&[true, false]);
    assert_eq!(Some(true), pattern.next());
    assert_eq!(Some(false), pattern.next());
    // the cursor now sits one past the end; the looped traversal wraps first
    assert_eq!(true, pattern.next_looped());
    assert_eq!(false, pattern.next_looped());
}

#[test]
fn resize_clamps_cursor() {
    let mut pattern = Pattern::from_slice(&[true, true, true, true]);
    pattern.move_cursor(3);
    pattern.resize(1);
    assert_eq!(1, pattern.len());
    // the cursor was clamped to the exhausted position, so the finite
    // traversal reports the end and restarts
    assert_eq!(None, pattern.next());
    assert_eq!(Some(true), pattern.next());
}

#[test]
fn long_pattern_spills_inline_capacity() {
    let mut pattern = Pattern::with_length(100);
    pattern.pulses(25);
    assert_eq!(100, pattern.len());
    assert_eq!(25, pulse_count(&pattern));
}

#[test]
fn new_with_zero_pulses_applies_distribution() {
    let pattern = Pattern::new(3, 0, 1);
    assert_eq!([false, false, false], pattern.as_slice());
}
