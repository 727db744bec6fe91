//! A simulation of distributed, uncertain belief formation.
//!
//! A population of mobile agents shares a grid of resources whose true
//! contents drift stochastically. Each agent keeps, for every cell, a
//! categorical probability distribution over the possible resource kinds;
//! beliefs are updated by noisy local sensing, by decay toward uncertainty,
//! and by pairwise trust-weighted gossip. Probability mass is represented in
//! fixed point (denominator [`prob::SCALE`]), so every distribution sums to
//! exactly `SCALE` and the update algebra is verified exactly.

pub mod agent;
pub mod belief;
pub mod biome;
pub mod consensus;
pub mod dist;
pub mod grid;
pub mod kind;
pub mod order;
pub mod prob;
pub mod resources;
pub mod rng;
pub mod sim;
