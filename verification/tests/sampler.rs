use invariant_sets::geometry::Point;
use invariant_sets::maps::{IdentityMap, NegationMap};
use invariant_sets::sampler::{sample_inverse_iteration, BitSource, RandomBits};

fn pt(x: i64, y: i64) -> Point {
    Point { x, y }
}

/// A bit source that replays a fixed pattern, for exactly reproducible walks.
struct FixedBits {
    pattern: Vec<bool>,
    next: usize,
}

impl BitSource for FixedBits {
    fn next_bit(&mut self) -> bool {
        let b = self.pattern[self.next % self.pattern.len()];
        self.next += 1;
        b
    }
}

#[test]
fn scenario_sign_flip_keeps_magnitude() {
    // branches +x and -x from seed (1, 0): every sample has magnitude exactly
    // one, whatever the random branch choices were
    let plus = IdentityMap;
    let minus = NegationMap;
    let mut bits = RandomBits;
    let samples = sample_inverse_iteration(&plus, &minus, &mut bits, pt(1_000_000, 0), 10, 0);
    assert_eq!(samples.len(), 10);
    for p in samples.iter() {
        assert_eq!(p.x.abs(), 1_000_000);
        assert_eq!(p.y, 0);
    }
}

#[test]
fn sampler_length_is_total_minus_transient() {
    let plus = IdentityMap;
    let minus = NegationMap;
    let mut bits = RandomBits;
    let samples = sample_inverse_iteration(&plus, &minus, &mut bits, pt(7, -7), 100, 37);
    assert_eq!(samples.len(), 63);
    let one = sample_inverse_iteration(&plus, &minus, &mut bits, pt(7, -7), 5, 4);
    assert_eq!(one.len(), 1);
}

#[test]
fn sampler_replays_fixed_bits_exactly() {
    let plus = IdentityMap;
    let minus = NegationMap;
    let mut bits = FixedBits { pattern: vec![true, false, false, true], next: 0 };
    let samples = sample_inverse_iteration(&plus, &minus, &mut bits, pt(1_000_000, 0), 4, 0);
    assert_eq!(
        samples,
        vec![pt(1_000_000, 0), pt(-1_000_000, 0), pt(1_000_000, 0), pt(1_000_000, 0)]
    );
}

#[test]
fn sampler_discards_the_transient_prefix() {
    let plus = IdentityMap;
    let minus = NegationMap;
    // always taking the negation branch flips the sign on every step
    let mut bits = FixedBits { pattern: vec![false], next: 0 };
    let samples = sample_inverse_iteration(&plus, &minus, &mut bits, pt(5, 3), 6, 3);
    assert_eq!(samples, vec![pt(5, 3), pt(-5, -3), pt(5, 3)]);
}
