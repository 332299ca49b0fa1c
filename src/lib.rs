//! A tile-placement board game engine: a 6x6 grid of tiles whose paths
//! carry the players' tokens until they leave the board or collide.
//!
//! - `geometry`: the lattice points where tokens stand, as tile and entry
//!   point or as lattice coordinates, and their node ids;
//! - `tile`: tiles, their turning and their paths;
//! - `graph`: the graph of positions kept in step with the placed tiles;
//! - `board`: placing tiles, moving tokens, collisions and suicide moves;
//! - `view`: a player's view and the boards its possible placements lead to.
use vstd::prelude::*;

pub mod arrayvec_specs;
pub mod board;
pub mod geometry;
pub mod graph;
pub mod tile;
pub mod view;

pub use board::{Board, Marker};
pub use geometry::{Coord, MarkerPosition};
pub use graph::BoardGraph;
pub use tile::{all_tiles, find_tile_with_connection, Tile};
pub use view::View;

verus! {

} // verus!
