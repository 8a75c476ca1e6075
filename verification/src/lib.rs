//! A verified instant-runoff (ranked-choice) vote counting engine.
//!
//! Ballots rank candidates by non-negative integer identifier; the two
//! negative sentinels stand for a withheld or abstained ballot.  Raw
//! rankings are collected incrementally, validated, stored, and counted
//! by successive elimination rounds with Dowdall positional scoring.

pub mod contexts;
pub mod counter;
pub mod elimination;
pub mod models;
pub mod store;
pub mod vote;
