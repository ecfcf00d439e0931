//! A deterministic duel between two spaceships on a toroidal arena, the
//! small feed-forward networks that pilot them, and the genetic algorithm
//! that breeds better pilots.
//!
//! Every quantity is a fixed-point integer (see [`fixed`]), so a match is a
//! pure function of its starting state and the two genomes.

pub mod fixed;
pub mod trig;
pub mod activation;
pub mod chance;
pub mod vector;
pub mod game;
pub mod motion;
pub mod contact;
pub mod volley;
pub mod strike;
pub mod genome;
pub mod sensors;
pub mod simulation;
pub mod evolution;
