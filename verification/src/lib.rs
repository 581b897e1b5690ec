//! Exhaustive enumeration of the configurations of a sliding-block puzzle,
//! together with the graph of single-slide moves between them.
//!
//! A puzzle is a board and a list of rectangular pieces ([`game`]). A
//! configuration gives every piece a position. One piece at a time slides by
//! one cell, left, right, up or down, if it stays on the board and enters
//! only cells that are free ([`moves`], with the occupancy board of
//! [`board`]). Starting from the initial configuration, the search
//! ([`generator`]) gives every configuration it meets an id
//! ([`bidirectional_list`]) and records every move between two of them;
//! [`reachability`] only counts the configurations.
//!
//! What the search does is stated over a mathematical model of its state
//! ([`traversal`]). That the model stays sound through every visit is
//! proved in [`invariants`], that the search ends in [`bound`], and what
//! follows for its result in [`laws`] and [`area`]. A description is
//! tested for consistency before it is searched ([`consistency`]).

pub mod area;
pub mod bidirectional_list;
pub mod board;
pub mod bound;
pub mod consistency;
pub mod game;
pub mod generator;
pub mod invariants;
pub mod laws;
pub mod moves;
pub mod reachability;
pub mod traversal;
