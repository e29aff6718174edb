//! Grid navigation: a walkability map, shortest paths over it, waypoint
//! compression and the decisions of an agent that follows waypoints.

pub mod coords;
pub mod map_text;
pub mod path;
pub mod grid;
pub mod search;
pub mod soundness;
pub mod a_star;
pub mod simplify;
pub mod agent;
