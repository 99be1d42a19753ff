use hello_euclid::euclid::{bjorklund, rotate};
use hello_euclid::playback::playback_pattern;

fn count_hits(p: &[bool]) -> usize {
    p.iter().filter(|&&x| x).count()
}

#[test]
fn density_matches_pulses() {
    for pulses in 0..=20usize {
        for steps in 0..=32usize {
            let p = bjorklund(pulses, steps);
            assert_eq!(p.len(), steps);
            assert_eq!(count_hits(&p), pulses.min(steps));
        }
    }
}

#[test]
fn spans_are_even() {
    for pulses in 1..=20usize {
        for steps in 1..=32usize {
            let p = bjorklund(pulses, steps);
            let k = pulses.min(steps);
            let lo = steps / k;
            assert!(p[0]);
            let onsets: Vec<usize> = (0..steps).filter(|&i| p[i]).collect();
            for w in 0..onsets.len() {
                let next = if w + 1 < onsets.len() { onsets[w + 1] } else { steps };
                let span = next - onsets[w];
                assert!(span == lo || span == lo + 1, "E({},{}) span {}", pulses, steps, span);
            }
        }
    }
}

#[test]
fn evenly_spaced_e_5_12() {
    // spans of 12/5 rounded down (2) or up (3)
    assert_eq!(
        bjorklund(5, 12),
        vec![true, false, false, true, false, true, false, false, true, false, true, false]
    );
}

#[test]
fn e_4_16_is_four_on_the_floor() {
    let mut expected = vec![false; 16];
    for i in [0, 4, 8, 12] {
        expected[i] = true;
    }
    assert_eq!(bjorklund(4, 16), expected);
}

#[test]
fn e_steps_minus_one() {
    assert_eq!(bjorklund(7, 8), vec![true, true, true, true, true, true, true, false]);
}

#[test]
fn rotation_wraps_large_offsets() {
    let pattern = vec![true, false, false, true];
    assert_eq!(rotate(&pattern, 5), rotate(&pattern, 1));
    assert_eq!(rotate(&pattern, 8), pattern);
    assert_eq!(rotate(&pattern, 3), vec![true, true, false, false]);
}

#[test]
fn rotation_keeps_density_and_composes() {
    let pattern = bjorklund(5, 13);
    for a in 0..20usize {
        let once = rotate(&pattern, a);
        assert_eq!(once.len(), pattern.len());
        assert_eq!(count_hits(&once), count_hits(&pattern));
        for b in 0..20usize {
            assert_eq!(rotate(&once, b), rotate(&pattern, a + b));
        }
    }
}

#[test]
fn rotation_single_step() {
    assert_eq!(rotate(&[true], 7), vec![true]);
}

#[test]
fn playback_uses_rotated_euclidean_pattern() {
    let none: Vec<bool> = vec![];
    assert_eq!(
        playback_pattern(3, 8, 1, false, &none),
        vec![false, false, true, false, false, true, false, true]
    );
}

#[test]
fn playback_clamps_pulses_to_steps() {
    let none: Vec<bool> = vec![];
    assert_eq!(playback_pattern(16, 5, 2, false, &none), vec![true; 5]);
}

#[test]
fn playback_prefers_custom_pattern() {
    let custom = vec![false, true, true];
    assert_eq!(playback_pattern(3, 8, 0, true, &custom), custom);
}

#[test]
fn playback_with_no_steps_is_empty() {
    let none: Vec<bool> = vec![];
    assert_eq!(playback_pattern(3, 0, 4, false, &none), none);
}
