use hello_euclid::euclid::{bjorklund, rotate};

#[test]
fn test_e_3_8() {
    // Cuban tresillo: X..X..X.
    let result = bjorklund(3, 8);
    assert_eq!(
        result,
        vec![true, false, false, true, false, false, true, false]
    );
}

#[test]
fn test_e_5_8() {
    // Classic bell pattern
    let result = bjorklund(5, 8);
    assert_eq!(
        result,
        vec![true, false, true, true, false, true, true, false]
    );
}

#[test]
fn test_e_2_5() {
    let result = bjorklund(2, 5);
    assert_eq!(result, vec![true, false, true, false, false]);
}

#[test]
fn test_e_7_16() {
    // 7 pulses, 16 steps - Euclidean distribution
    let result = bjorklund(7, 16);
    // Verify we get exactly 7 active steps
    assert_eq!(result.iter().filter(|&&x| x).count(), 7);
    // Verify the pattern is evenly distributed
    let result = bjorklund(7, 16);
    assert_eq!(
        result,
        vec![
            true, false, false, true, false, true, false, true, false, false, true, false,
            true, false, true, false
        ]
    );
}

#[test]
fn test_pulses_equal_steps() {
    assert_eq!(bjorklund(4, 4), vec![true, true, true, true]);
}

#[test]
fn test_zero_pulses() {
    assert_eq!(bjorklund(0, 8), vec![false; 8]);
}

#[test]
fn test_zero_steps() {
    let result: Vec<bool> = bjorklund(5, 0);
    let expected: Vec<bool> = vec![];
    assert_eq!(result, expected);
}

#[test]
fn test_more_pulses_than_steps() {
    // Should fill all steps
    assert_eq!(bjorklund(10, 8), vec![true; 8]);
}

#[test]
fn test_single_pulse_single_step() {
    assert_eq!(bjorklund(1, 1), vec![true]);
}

#[test]
fn test_single_pulse_multiple_steps() {
    assert_eq!(bjorklund(1, 5), vec![true, false, false, false, false]);
}

#[test]
fn test_rotation() {
    let pattern = vec![true, false, false, true];
    assert_eq!(rotate(&pattern, 1), vec![false, false, true, true]);
}

#[test]
fn test_rotation_full_circle() {
    let pattern = vec![true, false, true, false];
    assert_eq!(rotate(&pattern, 4), pattern);
}

#[test]
fn test_rotation_zero() {
    let pattern = vec![true, false, true, false];
    assert_eq!(rotate(&pattern, 0), pattern);
}

#[test]
fn test_rotation_empty_pattern() {
    let pattern: Vec<bool> = vec![];
    let result: Vec<bool> = rotate(&pattern, 5);
    let expected: Vec<bool> = vec![];
    assert_eq!(result, expected);
}
