//! Grid-based spatial reasoning for tile worlds: shortest-path routing
//! between two cells of a rectangular grid (A* under mixed cardinal and
//! diagonal movement costs) and computation of the set of cells visible
//! from a cell out to a range (recursive shadowcasting with opacity).

pub mod num;
pub mod map;
pub mod astar;
pub mod visibility;
pub mod state;
