//! Evolution of block creatures whose body plan and joint controllers are both
//! encoded in a genome tree.
//!
//! - `quad_tree`: the array-backed 4-ary tree and its edit distance;
//! - `geno`: genomes over that tree, with parent markers and neural ids;
//! - `mutation`: gaining and losing limbs;
//! - `builder`: the block layout built from a genome;
//! - `control`: the schedule of one control tick;
//! - `evolution`, `selection`, `training`: keeping genomes and the network bank
//!   consistent across generations, choosing survivors, bookkeeping;
//! - `world`, `logger`: fixed layouts and log lines;
//! - `chance`: the random draws.

pub mod quad_tree;
pub mod geno;
pub mod mutation;
pub mod generate;
pub mod builder;
pub mod control;
pub mod evolution;
pub mod selection;
pub mod training;
pub mod world;
pub mod logger;
pub mod chance;
