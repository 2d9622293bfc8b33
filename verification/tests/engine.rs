use invariant_sets::geometry::{distance_sq, inside, Point};
use invariant_sets::maps::{HenonMap, IdentityMap};
use invariant_sets::subdivision::{
    create_config, fragmentize, run_segment_iteration, ForwardMap, SubdivisionConfig,
};

fn pt(x: i64, y: i64) -> Point {
    Point { x, y }
}

fn henon() -> HenonMap {
    // (a, b) = (1.4, 0.3) at one million units per 1.0.
    HenonMap::new(1_400_000, 300_000)
}

fn wide_identity_config(chain_base: Vec<Point>, fragm_dist: i64, niters: usize) -> SubdivisionConfig {
    SubdivisionConfig {
        domain_min: pt(-100, -100),
        domain_max: pt(100, 100),
        niters,
        fragm_dist,
        chain_base,
    }
}

#[test]
fn henon_exact_images() {
    let m = henon();
    assert_eq!(m.apply(pt(0, 0)), pt(1_000_000, 0));
    assert_eq!(m.apply(pt(1_000_000, 0)), pt(-400_000, 300_000));
    assert_eq!(m.apply(pt(-1_000_000, 0)), pt(-400_000, -300_000));
    assert_eq!(m.apply(pt(500_000, 0)), pt(650_000, 150_000));
    // quotients truncate towards zero, also for negative products
    assert_eq!(m.apply(pt(-1, 0)), pt(1_000_000, 0));
}

#[test]
fn bisection_refines_to_unit_steps() {
    let m = IdentityMap;
    let config = wide_identity_config(vec![pt(0, 0), pt(8, 0)], 2, 0);
    let refined = fragmentize(&config.chain_base, &m, &config);
    let expected: Vec<Point> = (0..9).map(|i| pt(i, 0)).collect();
    assert_eq!(refined, expected);
}

#[test]
fn segment_leaving_domain_is_pruned() {
    let m = IdentityMap;
    let config = wide_identity_config(vec![pt(0, 0), pt(1, 0), pt(500, 0)], 2, 0);
    let refined = fragmentize(&config.chain_base, &m, &config);
    assert_eq!(refined, vec![pt(0, 0), pt(1, 0)]);
}

#[test]
fn unsplittable_segment_over_tolerance_is_pruned() {
    let m = IdentityMap;
    let config = wide_identity_config(vec![pt(0, 0), pt(1, 0)], 1, 0);
    let refined = fragmentize(&config.chain_base, &m, &config);
    assert!(refined.is_empty());
}

#[test]
fn chains_without_segments_refine_to_nothing() {
    let m = IdentityMap;
    let none = wide_identity_config(Vec::new(), 2, 0);
    assert!(fragmentize(&none.chain_base, &m, &none).is_empty());
    let single = wide_identity_config(vec![pt(1, 1)], 2, 0);
    assert!(fragmentize(&single.chain_base, &m, &single).is_empty());
}

#[test]
fn scenario_unit_square_zero_rounds() {
    // Seed chain: square of side 0.75 centered at the origin; Hénon-type map
    // (1.4, 0.3); domain [-2, 2] x [-2, 2]; tolerance 0.01; zero rounds.
    let m = henon();
    let config = create_config(pt(0, 0), 4_000_000, 4_000_000, 750_000, 10_000, 0);
    let run = run_segment_iteration(&m, &config);
    let frag = fragmentize(&config.chain_base, &m, &config);
    // with zero rounds the output is the deduplicated fragmentation of the
    // seed chain alone, with no forward-map step applied
    assert_eq!(run, frag);
    assert!(!run.is_empty());
    for i in 0..run.len() - 1 {
        assert_ne!(run[i], run[i + 1]);
    }
    for p in run.iter() {
        let image = m.apply(*p);
        assert!(inside(image, config.domain_min, config.domain_max));
    }
}

#[test]
fn scenario_tiny_domain_empties_the_chain() {
    // same seed chain, but every image point falls outside a tiny domain
    let m = henon();
    let config = create_config(pt(0, 0), 2_000, 2_000, 750_000, 10_000, 0);
    let run = run_segment_iteration(&m, &config);
    assert!(run.is_empty());
}

#[test]
fn engine_is_deterministic() {
    let m = henon();
    let config = create_config(pt(0, 0), 4_000_000, 4_000_000, 750_000, 50_000, 2);
    let first = run_segment_iteration(&m, &config);
    let second = run_segment_iteration(&m, &config);
    assert_eq!(first, second);
}

#[test]
fn resolved_pairs_stay_under_tolerance() {
    let m = henon();
    let config = create_config(pt(0, 0), 4_000_000, 4_000_000, 750_000, 10_000, 1);
    let run = run_segment_iteration(&m, &config);
    assert!(!run.is_empty());
    // every consecutive retained pair that both map into the domain has been
    // resolved or collapsed; resolved pairs keep image distance under the
    // tolerance, so none of them may exceed it after one refinement round
    let tol = config.fragm_dist as i128;
    let mut resolved = 0;
    for i in 0..run.len() - 1 {
        let a = m.apply(run[i]);
        let b = m.apply(run[i + 1]);
        if distance_sq(a, b) < tol * tol {
            resolved += 1;
        }
    }
    assert!(resolved > 0);
}

#[test]
fn create_config_exact_fields() {
    let config = create_config(pt(10, -20), 9, 7, 5, 3, 4);
    assert_eq!(config.domain_min, pt(6, -23));
    assert_eq!(config.domain_max, pt(14, -17));
    assert_eq!(config.niters, 4);
    assert_eq!(config.fragm_dist, 3);
    assert_eq!(
        config.chain_base,
        vec![pt(8, -22), pt(8, -18), pt(12, -18), pt(12, -22), pt(8, -22)]
    );
}
