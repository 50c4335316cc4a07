use rt::particle::{fountain_denominator, fountain_jitter_step};

#[test]
fn denominator_is_count_minus_one_and_at_least_one() {
    assert_eq!(fountain_denominator(0), 1);
    assert_eq!(fountain_denominator(1), 1);
    assert_eq!(fountain_denominator(2), 1);
    assert_eq!(fountain_denominator(72), 71);
}

#[test]
fn jitter_repeats_every_seven_particles() {
    let steps: Vec<i8> = (0..9).map(fountain_jitter_step).collect();
    assert_eq!(steps, vec![-3, -2, -1, 0, 1, 2, 3, -3, -2]);
}
