//! Approximation of invariant sets of discrete plane dynamical systems.
//!
//! Two independent components share the notions of point, map, and invariant
//! set. The forward subdivision engine refines a polygonal chain by recursive
//! segment bisection until every retained segment has a sub-tolerance image
//! inside a bounding domain, then advances the chain under the map. The
//! inverse iteration sampler walks backwards through a two-branch inverse
//! relation, choosing a branch per step from an injected bit source, and
//! collects the points that follow a transient prefix.
//!
//! All coordinates are fixed-point: a caller picks a scale (units per 1.0)
//! and uses it consistently for points, domains, tolerances and map
//! parameters.

pub mod geometry;
pub mod maps;
pub mod sampler;
pub mod subdivision;
