//! Picks, from a catalog of buster parts, the combination of at most two or
//! three parts whose capped stats give the highest weighted score.
pub mod buster;
pub mod config;
pub mod optimizer;
pub mod table;
pub mod catalog;
