//! The probability-vector algebra on concrete values.

use belief_sim::kind::{KIND_COUNT, ResourceKind};
use belief_sim::prob::{ProbabilityVector, SCALE};
use belief_sim::rng::rng_from_seed;

const KINDS: [ResourceKind; 5] = [
    ResourceKind::Empty,
    ResourceKind::Food,
    ResourceKind::Water,
    ResourceKind::Stone,
    ResourceKind::Specter,
];

fn total_mass(p: &ProbabilityVector) -> u64 {
    KINDS.iter().map(|k| p.get(*k)).sum()
}

fn same_vector(a: &ProbabilityVector, b: &ProbabilityVector) -> bool {
    KINDS.iter().all(|k| a.get(*k) == b.get(*k))
}

#[test]
fn uniform_has_equal_slots_summing_to_one() {
    let p = ProbabilityVector::uniform();
    for k in KINDS {
        assert_eq!(p.get(k), SCALE / KIND_COUNT as u64);
    }
    assert_eq!(total_mass(&p), SCALE);
}

#[test]
fn probable_zero_certainty_is_uniform() {
    let p = ProbabilityVector::probable(ResourceKind::Stone, 0);
    let u = ProbabilityVector::uniform();
    assert!(same_vector(&p, &u));
}

#[test]
fn probable_full_certainty_is_one_hot() {
    let p = ProbabilityVector::probable(ResourceKind::Water, SCALE);
    assert_eq!(p.get(ResourceKind::Water), SCALE);
    for k in [ResourceKind::Empty, ResourceKind::Food, ResourceKind::Stone, ResourceKind::Specter] {
        assert_eq!(p.get(k), 0);
    }
}

#[test]
fn probable_half_certainty_exact_values() {
    let p = ProbabilityVector::probable(ResourceKind::Water, SCALE / 2);
    // subject = 200_000 + 800_000 * 0.5 = 600_000; rest = 400_000 / 4.
    assert_eq!(p.get(ResourceKind::Water), 600_000);
    for k in [ResourceKind::Empty, ResourceKind::Food, ResourceKind::Stone, ResourceKind::Specter] {
        assert_eq!(p.get(k), 100_000);
    }
    assert_eq!(total_mass(&p), SCALE);
}

#[test]
fn decay_zero_is_identity() {
    let mut p = ProbabilityVector::probable(ResourceKind::Food, 730_000);
    let before = ProbabilityVector::probable(ResourceKind::Food, 730_000);
    p.decay(0);
    assert!(same_vector(&p, &before));
}

#[test]
fn decay_full_is_uniform() {
    let mut p = ProbabilityVector::probable(ResourceKind::Specter, SCALE);
    p.decay(SCALE);
    let u = ProbabilityVector::uniform();
    assert!(same_vector(&p, &u));
}

#[test]
fn decay_rate_exact_values() {
    // One-hot at Food decayed by 0.0001: kept slot 999_900 + 20, rest 20.
    let mut p = ProbabilityVector::probable(ResourceKind::Food, SCALE);
    p.decay(100);
    assert_eq!(p.get(ResourceKind::Food), 999_920);
    for k in [ResourceKind::Empty, ResourceKind::Water, ResourceKind::Stone, ResourceKind::Specter] {
        assert_eq!(p.get(k), 20);
    }
    assert_eq!(total_mass(&p), SCALE);
}

#[test]
fn blend_towards_self_is_noop_for_all_listed_trusts() {
    for trust in [0u64, 250_000, 500_000, 750_000, 1_000_000] {
        let mut p = ProbabilityVector::probable(ResourceKind::Stone, 420_000);
        let copy = p.duplicate();
        p.blend_towards(&copy, trust);
        assert!(same_vector(&p, &copy), "self-blend changed the vector at trust {trust}");
    }
}

#[test]
fn blend_uniform_toward_one_hot_exact_values() {
    // At indifferent trust (0.5) the more decisive side dominates: the
    // uniform holder moves toward the one-hot sender.
    let mut p = ProbabilityVector::uniform();
    let o = ProbabilityVector::probable(ResourceKind::Food, SCALE);
    p.blend_towards(&o, 500_000);
    assert_eq!(p.get(ResourceKind::Food), 360_000);
    for k in [ResourceKind::Empty, ResourceKind::Water, ResourceKind::Stone, ResourceKind::Specter] {
        assert_eq!(p.get(k), 160_000);
    }
    assert_eq!(total_mass(&p), SCALE);
}

#[test]
fn blend_degenerate_trusts_copy_one_side() {
    let mut a = ProbabilityVector::probable(ResourceKind::Food, 800_000);
    let b = ProbabilityVector::probable(ResourceKind::Water, 800_000);
    let a0 = a.duplicate();
    a.blend_towards(&b, 0);
    assert!(same_vector(&a, &a0), "zero trust must keep the own belief");
    let mut c = ProbabilityVector::probable(ResourceKind::Food, 800_000);
    c.blend_towards(&b, SCALE);
    assert!(same_vector(&c, &b), "full trust must copy the other belief");
}

#[test]
fn plurality_of_one_hot_is_that_kind() {
    for k in KINDS {
        let p = ProbabilityVector::probable(k, SCALE);
        assert_eq!(p.plurality(), k);
    }
}

#[test]
fn plurality_of_uniform_is_lowest_kind() {
    let p = ProbabilityVector::uniform();
    assert_eq!(p.plurality(), ResourceKind::Empty);
}

#[test]
fn random_vectors_stay_normalized_through_updates() {
    let mut rng = rng_from_seed(7);
    for seed_round in 0..20 {
        let mut p = ProbabilityVector::uniform_random(&mut rng);
        assert_eq!(total_mass(&p), SCALE, "fresh vector, round {seed_round}");
        let o = ProbabilityVector::uniform_random(&mut rng);
        p.blend_towards(&o, 250_000);
        assert_eq!(total_mass(&p), SCALE, "after blend, round {seed_round}");
        p.decay(100);
        assert_eq!(total_mass(&p), SCALE, "after decay, round {seed_round}");
    }
}
