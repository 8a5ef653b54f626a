//! Relationship and timeline aggregation engine for a racket-sport club.
//!
//! Given raw match, team, result and session rows read from an entity store,
//! the library discovers every player who has shared a team with, or opposed,
//! a given player, aggregates win and match counts per relationship, and
//! reconstructs a chronological skill-rating timeline seeded with a baseline
//! entry. All aggregation is pure: rows in, results out.
#![verifier::loop_isolation(false)]

pub mod aggregate;

pub mod catalog;

pub mod error;

pub mod rows;

pub mod opponent;

pub mod partner;

pub mod ratio;

pub mod timeline;
