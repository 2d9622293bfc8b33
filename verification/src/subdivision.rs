//! Forward subdivision engine: adaptive refinement of a polygonal chain
//! against a forward map, a bounding domain and a fragmentation tolerance,
//! iterated over several refine-and-advance rounds.

use vstd::prelude::*;

use crate::geometry::{
    bounded, dedup_spec, dist2_spec, distance_sq, inside, inside_spec, iabs, lemma_dedup_elements,
    lemma_dedup_no_adjacent, lemma_dedup_nonempty, lemma_midpoint_measure, lemma_square_bound,
    midpoint, midpoint_spec, neat_uniq, seg_measure, Point, COORD_LIMIT,
};

verus! {

/// A forward dynamical system on plane points: a pure, total map together
/// with its mathematical model.
pub trait ForwardMap {
    /// Model of the map; `apply` returns exactly this value.
    spec fn map_spec(&self, p: Point) -> Point;

    /// Advances a point one time-step.
    fn apply(&self, p: Point) -> (r: Point)
        ensures
            r == self.map_spec(p),
    ;
}

/// Immutable per-run configuration of the engine: bounding domain, round
/// count, fragmentation tolerance and seed chain.
pub struct SubdivisionConfig {
    pub domain_min: Point,
    pub domain_max: Point,
    pub niters: usize,
    pub fragm_dist: i64,
    pub chain_base: Vec<Point>,
}

impl SubdivisionConfig {
    /// The domain corners are ordered component-wise and small enough that
    /// squared distances of points inside the domain are exact in `i128`.
    pub open spec fn wf_domain(self) -> bool {
        &&& bounded(self.domain_min)
        &&& bounded(self.domain_max)
        &&& self.domain_min.x <= self.domain_max.x
        &&& self.domain_min.y <= self.domain_max.y
    }

    /// A well-formed configuration: ordered bounded domain, positive
    /// tolerance, non-empty seed chain.
    pub open spec fn wf(self) -> bool {
        &&& self.wf_domain()
        &&& self.fragm_dist > 0
        &&& self.chain_base@.len() >= 1
    }
}

/// Points retained from one segment: nothing if either image leaves the
/// domain; both endpoints if the images are closer than the tolerance;
/// otherwise the retained points of the two halves, in order. A segment
/// too short to bisect further (its midpoint equals an endpoint) that still
/// violates the tolerance is pruned like an out-of-domain one.
pub open spec fn frag_seg_spec<M: ForwardMap>(m: &M, cfg: SubdivisionConfig, p1: Point, p2: Point) -> Seq<Point>
    decreases seg_measure(p1, p2),
    via frag_seg_spec_decreases::<M>
{
    let fp1 = m.map_spec(p1);
    let fp2 = m.map_spec(p2);
    if !inside_spec(fp1, cfg.domain_min, cfg.domain_max) || !inside_spec(fp2, cfg.domain_min, cfg.domain_max) {
        Seq::empty()
    } else if dist2_spec(fp1, fp2) < cfg.fragm_dist * cfg.fragm_dist {
        seq![p1, p2]
    } else {
        let mid = midpoint_spec(p1, p2);
        if mid == p1 || mid == p2 {
            Seq::empty()
        } else {
            frag_seg_spec(m, cfg, p1, mid) + frag_seg_spec(m, cfg, mid, p2)
        }
    }
}

#[via_fn]
proof fn frag_seg_spec_decreases<M: ForwardMap>(m: &M, cfg: SubdivisionConfig, p1: Point, p2: Point) {
    lemma_midpoint_measure(p1, p2);
}

/// Recursive segment fragmentation: appends to `result` the points this
/// segment retains.
pub fn fragmentize_recursive<M: ForwardMap>(
    p1: Point,
    p2: Point,
    system: &M,
    config: &SubdivisionConfig,
    result: &mut Vec<Point>,
)
    requires
        config.wf_domain(),
    ensures
        final(result)@ == old(result)@ + frag_seg_spec(system, *config, p1, p2),
    decreases seg_measure(p1, p2),
{
    let fp1 = system.apply(p1);
    let fp2 = system.apply(p2);
    let in1 = inside(fp1, config.domain_min, config.domain_max);
    let in2 = inside(fp2, config.domain_min, config.domain_max);
    if !in1 || !in2 {
        proof {
            assert(result@ =~= old(result)@ + frag_seg_spec(system, *config, p1, p2));
        }
        return;
    }
    let d2 = distance_sq(fp1, fp2);
    let t = config.fragm_dist as i128;
    proof {
        lemma_square_bound(t as int, 0x8000_0000_0000_0000);
    }
    if d2 < t * t {
        result.push(p1);
        result.push(p2);
        proof {
            assert(result@ =~= old(result)@ + frag_seg_spec(system, *config, p1, p2));
        }
    } else {
        let mid = midpoint(p1, p2);
        if mid == p1 || mid == p2 {
            proof {
                assert(result@ =~= old(result)@ + frag_seg_spec(system, *config, p1, p2));
            }
            return;
        }
        proof {
            lemma_midpoint_measure(p1, p2);
        }
        fragmentize_recursive(p1, mid, system, config, result);
        fragmentize_recursive(mid, p2, system, config, result);
        proof {
            assert(result@ =~= old(result)@ + frag_seg_spec(system, *config, p1, p2));
        }
    }
}

/// Points retained by the first `n` segments of the chain, concatenated in
/// chain order.
pub open spec fn frag_chain_prefix_spec<M: ForwardMap>(m: &M, cfg: SubdivisionConfig, s: Seq<Point>, n: int) -> Seq<Point>
    decreases n,
{
    if n <= 0 {
        Seq::empty()
    } else {
        frag_chain_prefix_spec(m, cfg, s, n - 1) + frag_seg_spec(m, cfg, s[n - 1], s[n])
    }
}

/// Points retained by all consecutive segments of the chain, before the
/// adjacent-duplicate collapse.
pub open spec fn frag_chain_spec<M: ForwardMap>(m: &M, cfg: SubdivisionConfig, s: Seq<Point>) -> Seq<Point> {
    if s.len() == 0 {
        Seq::empty()
    } else {
        frag_chain_prefix_spec(m, cfg, s, s.len() - 1)
    }
}

/// One full fragmentation round: retained points of every segment, with
/// consecutive duplicates collapsed.
pub open spec fn frag_round_spec<M: ForwardMap>(m: &M, cfg: SubdivisionConfig, s: Seq<Point>) -> Seq<Point> {
    dedup_spec(frag_chain_spec(m, cfg, s))
}

/// One fragmentation round over a whole chain. The result never contains two
/// consecutive equal points.
pub fn fragmentize<M: ForwardMap>(chain: &Vec<Point>, system: &M, config: &SubdivisionConfig) -> (r: Vec<Point>)
    requires
        config.wf_domain(),
    ensures
        r@ == frag_round_spec(system, *config, chain@),
        forall|i: int| 0 <= i < r@.len() - 1 ==> #[trigger] r@[i] != r@[i + 1],
{
    let mut fragmentized: Vec<Point> = Vec::new();
    if chain.len() >= 1 {
        let mut i: usize = 0;
        while i < chain.len() - 1
            invariant
                chain.len() >= 1,
                i <= chain.len() - 1,
                config.wf_domain(),
                fragmentized@ == frag_chain_prefix_spec(system, *config, chain@, i as int),
            decreases chain.len() - 1 - i,
        {
            fragmentize_recursive(chain[i], chain[i + 1], system, config, &mut fragmentized);
            i += 1;
        }
    }
    proof {
        lemma_dedup_no_adjacent(fragmentized@);
    }
    neat_uniq(fragmentized)
}

/// Element-wise image of a chain under the map.
pub open spec fn map_seq_spec<M: ForwardMap>(m: &M, s: Seq<Point>) -> Seq<Point> {
    Seq::new(s.len(), |i: int| m.map_spec(s[i]))
}

/// Advances every point of a chain one time-step.
pub fn map_chain<M: ForwardMap>(system: &M, chain: &Vec<Point>) -> (r: Vec<Point>)
    ensures
        r@ == map_seq_spec(system, chain@),
{
    let mut out: Vec<Point> = Vec::new();
    let mut i: usize = 0;
    while i < chain.len()
        invariant
            i <= chain.len(),
            out@.len() == i,
            forall|j: int| 0 <= j < i ==> out@[j] == system.map_spec(#[trigger] chain@[j]),
        decreases chain.len() - i,
    {
        out.push(system.apply(chain[i]));
        i += 1;
    }
    proof {
        assert(out@ =~= map_seq_spec(system, chain@));
    }
    out
}

/// The chain after the initial refinement and `k` advance-and-refine rounds.
pub open spec fn rounds_spec<M: ForwardMap>(m: &M, cfg: SubdivisionConfig, k: nat) -> Seq<Point>
    decreases k,
{
    if k == 0 {
        frag_round_spec(m, cfg, cfg.chain_base@)
    } else {
        frag_round_spec(m, cfg, map_seq_spec(m, rounds_spec(m, cfg, (k - 1) as nat)))
    }
}

/// The chain the engine returns: `niters` rounds applied to the seed chain.
pub open spec fn run_spec<M: ForwardMap>(m: &M, cfg: SubdivisionConfig) -> Seq<Point> {
    rounds_spec(m, cfg, cfg.niters as nat)
}

/// Runs the engine: refines the seed chain, then `niters` times advances the
/// chain under the map and refines again. The result is a function of the
/// map and the configuration alone.
pub fn run_segment_iteration<M: ForwardMap>(system: &M, config: &SubdivisionConfig) -> (r: Vec<Point>)
    requires
        config.wf(),
    ensures
        r@ == run_spec(system, *config),
        forall|i: int| 0 <= i < r@.len() - 1 ==> #[trigger] r@[i] != r@[i + 1],
{
    let mut chain = fragmentize(&config.chain_base, system, config);
    let mut i: usize = 0;
    while i < config.niters
        invariant
            i <= config.niters,
            config.wf(),
            chain@ == rounds_spec(system, *config, i as nat),
            forall|j: int| 0 <= j < chain@.len() - 1 ==> #[trigger] chain@[j] != chain@[j + 1],
        decreases config.niters - i,
    {
        let mapped = map_chain(system, &chain);
        chain = fragmentize(&mapped, system, config);
        i += 1;
    }
    chain
}

fn half_nonneg(v: i64) -> (r: i64)
    requires
        0 <= v,
    ensures
        r == v as int / 2,
{
    ((v as u64) / 2u64) as i64
}

/// Builds a configuration: an axis-aligned domain of width `w` and height
/// `h_dim` centered at `d0`; a closed square seed chain of side `s` centered
/// at `d0`, corners visited in the order lower-left, upper-left, upper-right,
/// lower-right, with the first corner repeated at the end to close the
/// polygon; fragmentation distance `h_param`; and
/// `n` rounds.
pub fn create_config(d0: Point, w: i64, h_dim: i64, s: i64, h_param: i64, n: usize) -> (r: SubdivisionConfig)
    requires
        0 <= w,
        0 <= h_dim,
        0 <= s,
        0 < h_param,
        -COORD_LIMIT <= d0.x - w / 2 && d0.x + w / 2 <= COORD_LIMIT,
        -COORD_LIMIT <= d0.y - h_dim / 2 && d0.y + h_dim / 2 <= COORD_LIMIT,
        -COORD_LIMIT <= d0.x - s / 2 && d0.x + s / 2 <= COORD_LIMIT,
        -COORD_LIMIT <= d0.y - s / 2 && d0.y + s / 2 <= COORD_LIMIT,
    ensures
        r.wf(),
        r.niters == n,
        r.fragm_dist == h_param,
        r.domain_min.x == d0.x - w / 2 && r.domain_min.y == d0.y - h_dim / 2,
        r.domain_max.x == d0.x + w / 2 && r.domain_max.y == d0.y + h_dim / 2,
        r.chain_base@.len() == 5,
        r.chain_base@[0].x == d0.x - s / 2 && r.chain_base@[0].y == d0.y - s / 2,
        r.chain_base@[1].x == d0.x - s / 2 && r.chain_base@[1].y == d0.y + s / 2,
        r.chain_base@[2].x == d0.x + s / 2 && r.chain_base@[2].y == d0.y + s / 2,
        r.chain_base@[3].x == d0.x + s / 2 && r.chain_base@[3].y == d0.y - s / 2,
        r.chain_base@[4] == r.chain_base@[0],
{
    let half_w = half_nonneg(w);
    let half_h = half_nonneg(h_dim);
    let half_s = half_nonneg(s);
    let domain_min = Point { x: d0.x - half_w, y: d0.y - half_h };
    let domain_max = Point { x: d0.x + half_w, y: d0.y + half_h };
    let p_ll = Point { x: d0.x - half_s, y: d0.y - half_s };
    let p_ul = Point { x: d0.x - half_s, y: d0.y + half_s };
    let p_ur = Point { x: d0.x + half_s, y: d0.y + half_s };
    let p_lr = Point { x: d0.x + half_s, y: d0.y - half_s };
    let chain_base = vec![p_ll, p_ul, p_ur, p_lr, p_ll];
    SubdivisionConfig { domain_min, domain_max, niters: n, fragm_dist: h_param, chain_base }
}

/// Law: the engine is deterministic. Its result is pinned to `run_spec`, a
/// function of the map and the configuration alone, so repeated runs with
/// identical inputs return identical chains.
pub proof fn lemma_run_deterministic<M: ForwardMap>(m: &M, cfg: SubdivisionConfig, r1: Seq<Point>, r2: Seq<Point>)
    requires
        r1 == run_spec(m, cfg),
        r2 == run_spec(m, cfg),
    ensures
        r1 == r2,
{
}

/// Every point a segment retains has its image inside the domain.
pub proof fn lemma_frag_seg_containment<M: ForwardMap>(m: &M, cfg: SubdivisionConfig, p1: Point, p2: Point)
    ensures
        forall|i: int| 0 <= i < frag_seg_spec(m, cfg, p1, p2).len() ==> inside_spec(
            m.map_spec(#[trigger] frag_seg_spec(m, cfg, p1, p2)[i]),
            cfg.domain_min,
            cfg.domain_max,
        ),
    decreases seg_measure(p1, p2),
{
    let fp1 = m.map_spec(p1);
    let fp2 = m.map_spec(p2);
    let s = frag_seg_spec(m, cfg, p1, p2);
    if !inside_spec(fp1, cfg.domain_min, cfg.domain_max) || !inside_spec(fp2, cfg.domain_min, cfg.domain_max) {
    } else if dist2_spec(fp1, fp2) < cfg.fragm_dist * cfg.fragm_dist {
        assert(s[0] == p1 && s[1] == p2);
    } else {
        let mid = midpoint_spec(p1, p2);
        if mid == p1 || mid == p2 {
        } else {
            lemma_midpoint_measure(p1, p2);
            lemma_frag_seg_containment(m, cfg, p1, mid);
            lemma_frag_seg_containment(m, cfg, mid, p2);
            let s1 = frag_seg_spec(m, cfg, p1, mid);
            let s2 = frag_seg_spec(m, cfg, mid, p2);
            assert forall|i: int| 0 <= i < s.len() implies inside_spec(
                m.map_spec(#[trigger] s[i]),
                cfg.domain_min,
                cfg.domain_max,
            ) by {
                if i < s1.len() {
                    assert(s[i] == s1[i]);
                } else {
                    assert(s[i] == s2[i - s1.len()]);
                }
            }
        }
    }
}

proof fn lemma_frag_prefix_containment<M: ForwardMap>(m: &M, cfg: SubdivisionConfig, s: Seq<Point>, n: int)
    ensures
        forall|i: int| 0 <= i < frag_chain_prefix_spec(m, cfg, s, n).len() ==> inside_spec(
            m.map_spec(#[trigger] frag_chain_prefix_spec(m, cfg, s, n)[i]),
            cfg.domain_min,
            cfg.domain_max,
        ),
    decreases n,
{
    if n > 0 {
        lemma_frag_prefix_containment(m, cfg, s, n - 1);
        lemma_frag_seg_containment(m, cfg, s[n - 1], s[n]);
        let a = frag_chain_prefix_spec(m, cfg, s, n - 1);
        let b = frag_seg_spec(m, cfg, s[n - 1], s[n]);
        let w = frag_chain_prefix_spec(m, cfg, s, n);
        assert forall|i: int| 0 <= i < w.len() implies inside_spec(
            m.map_spec(#[trigger] w[i]),
            cfg.domain_min,
            cfg.domain_max,
        ) by {
            if i < a.len() {
                assert(w[i] == a[i]);
            } else {
                assert(w[i] == b[i - a.len()]);
            }
        }
    }
}

/// Law of domain containment: every point retained by one fragmentation
/// round has its image under the map inside the configured domain.
pub proof fn lemma_domain_containment<M: ForwardMap>(m: &M, cfg: SubdivisionConfig, chain: Seq<Point>)
    ensures
        forall|i: int| 0 <= i < frag_round_spec(m, cfg, chain).len() ==> inside_spec(
            m.map_spec(#[trigger] frag_round_spec(m, cfg, chain)[i]),
            cfg.domain_min,
            cfg.domain_max,
        ),
{
    let raw = frag_chain_spec(m, cfg, chain);
    if chain.len() > 0 {
        lemma_frag_prefix_containment(m, cfg, chain, chain.len() - 1);
    }
    lemma_dedup_elements(raw);
    let r = frag_round_spec(m, cfg, chain);
    assert forall|i: int| 0 <= i < r.len() implies inside_spec(
        m.map_spec(#[trigger] r[i]),
        cfg.domain_min,
        cfg.domain_max,
    ) by {
        assert(raw.contains(r[i]));
        let j = choose|j: int| 0 <= j < raw.len() && raw[j] == r[i];
        assert(inside_spec(m.map_spec(raw[j]), cfg.domain_min, cfg.domain_max));
    }
}

/// Law of the tolerance bound: a segment's retained points come in resolved
/// pairs, and each resolved pair has images closer than the tolerance.
pub proof fn lemma_tolerance_bound<M: ForwardMap>(m: &M, cfg: SubdivisionConfig, p1: Point, p2: Point)
    ensures
        frag_seg_spec(m, cfg, p1, p2).len() % 2 == 0,
        forall|k: int|
            0 <= k && 2 * k + 1 < frag_seg_spec(m, cfg, p1, p2).len() ==> dist2_spec(
                m.map_spec(#[trigger] frag_seg_spec(m, cfg, p1, p2)[2 * k]),
                m.map_spec(frag_seg_spec(m, cfg, p1, p2)[2 * k + 1]),
            ) < cfg.fragm_dist * cfg.fragm_dist,
    decreases seg_measure(p1, p2),
{
    let fp1 = m.map_spec(p1);
    let fp2 = m.map_spec(p2);
    let s = frag_seg_spec(m, cfg, p1, p2);
    if !inside_spec(fp1, cfg.domain_min, cfg.domain_max) || !inside_spec(fp2, cfg.domain_min, cfg.domain_max) {
    } else if dist2_spec(fp1, fp2) < cfg.fragm_dist * cfg.fragm_dist {
        assert(s[0] == p1 && s[1] == p2);
    } else {
        let mid = midpoint_spec(p1, p2);
        if mid == p1 || mid == p2 {
        } else {
            lemma_midpoint_measure(p1, p2);
            lemma_tolerance_bound(m, cfg, p1, mid);
            lemma_tolerance_bound(m, cfg, mid, p2);
            let s1 = frag_seg_spec(m, cfg, p1, mid);
            let s2 = frag_seg_spec(m, cfg, mid, p2);
            assert(s.len() == s1.len() + s2.len());
            assert(s.len() % 2 == 0);
            assert forall|k: int|
                0 <= k && 2 * k + 1 < s.len() implies dist2_spec(
                m.map_spec(#[trigger] s[2 * k]),
                m.map_spec(s[2 * k + 1]),
            ) < cfg.fragm_dist * cfg.fragm_dist by {
                if 2 * k + 1 < s1.len() {
                    assert(s[2 * k] == s1[2 * k]);
                    assert(s[2 * k + 1] == s1[2 * k + 1]);
                } else {
                    let k2 = k - s1.len() / 2;
                    assert(2 * k - s1.len() == 2 * k2);
                    assert(s[2 * k] == s2[2 * k2]);
                    assert(s[2 * k + 1] == s2[2 * k2 + 1]);
                }
            }
        }
    }
}

proof fn lemma_frag_prefix_len_monotone<M: ForwardMap>(m: &M, cfg: SubdivisionConfig, s: Seq<Point>, k: int, n: int)
    requires
        0 <= k <= n,
    ensures
        frag_chain_prefix_spec(m, cfg, s, n).len() >= frag_chain_prefix_spec(m, cfg, s, k).len(),
    decreases n,
{
    if k < n {
        lemma_frag_prefix_len_monotone(m, cfg, s, k, n - 1);
    }
}

/// Law of monotone non-degeneracy: if some segment of the chain is resolved
/// outright (both images inside the domain and closer than the tolerance),
/// the refined chain is non-empty.
pub proof fn lemma_monotone_nondegeneracy<M: ForwardMap>(m: &M, cfg: SubdivisionConfig, chain: Seq<Point>, i: int)
    requires
        0 <= i < chain.len() - 1,
        inside_spec(m.map_spec(chain[i]), cfg.domain_min, cfg.domain_max),
        inside_spec(m.map_spec(chain[i + 1]), cfg.domain_min, cfg.domain_max),
        dist2_spec(m.map_spec(chain[i]), m.map_spec(chain[i + 1])) < cfg.fragm_dist * cfg.fragm_dist,
    ensures
        frag_round_spec(m, cfg, chain).len() > 0,
{
    assert(frag_seg_spec(m, cfg, chain[i], chain[i + 1]).len() == 2);
    assert(frag_chain_prefix_spec(m, cfg, chain, i + 1).len() >= 2);
    lemma_frag_prefix_len_monotone(m, cfg, chain, i + 1, chain.len() - 1);
    lemma_dedup_nonempty(frag_chain_spec(m, cfg, chain));
}

} // verus!
