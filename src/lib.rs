//! A three-dimensional life-like cellular automaton.
//!
//! Two engines share the rule model of `rule` and the addressing of
//! `position`: a dense grid of chunks whose neighbour counts are kept by
//! delta (`chunks`, `dense`, with the proof that the counts stay exact in
//! `counts`), and a sparse map of live cells driven as a phased state machine
//! (`sparse`, with the proof of its neighbour census in `census`).
pub mod census;
pub mod chunks;
pub mod counts;
pub mod dense;
pub mod neighbours;
pub mod noise;
pub mod position;
pub mod rule;
pub mod sparse;
