//! Search over graphs whose states are produced on demand: cheapest routes
//! with a priority frontier, counting of terminal outcomes with a
//! transposition table, and the small rule sets that feed them.

pub mod balloons;
pub mod birds;
pub mod board;
pub mod coins;
pub mod complex;
pub mod compressor;
pub mod crates;
pub mod dance;
pub mod die;
pub mod dig;
pub mod digits;
pub mod elevation;
pub mod enigma;
pub mod enumerate;
pub mod frontier;
pub mod fruit;
pub mod gears;
pub mod graph;
pub mod hunt;
pub mod lookup;
pub mod maze;
pub mod nails;
pub mod names;
pub mod order;
pub mod plant;
pub mod point;
pub mod potions;
pub mod race;
pub mod relationships;
pub mod runes;
pub mod search;
pub mod snails;
pub mod spell;
pub mod sword;
pub mod table;
pub mod temple;
pub mod termites;
pub mod text;
pub mod track;
pub mod triangle;
pub mod turret;
pub mod twins;
pub mod whispers;
pub mod world;
