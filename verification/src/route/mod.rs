//! Routing: the maze router over the obstruction grid, and the cost-map
//! router (A* per net under negotiated congestion).
pub mod astar;
pub mod cost;
pub mod lee;
pub mod pathfinder;
