//! A minesweeper engine: coordinates, tiles, the board with mine placement,
//! adjacency numbers and the flood-fill reveal, and the game session that
//! applies the rules of play.

pub mod board;
pub mod coordinates;
pub mod flood;
pub mod session;
pub mod shade;
pub mod tile;
pub mod tilemap;

pub use board::BoardView;
pub use coordinates::Coordinates;
pub use flood::TileRevealed;
pub use session::{GameState, Session, SessionView, SAFETY_RADIUS};
pub use shade::Shade;
pub use tile::{Tile, TileLook, TileView};
pub use tilemap::{BoardError, TileMap};
