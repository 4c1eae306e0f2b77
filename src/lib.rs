//! Rules engine of a tile-matching scoring game: tile identities, the
//! hand evaluator, the round record and the controller that moves tiles
//! between the draw pile, the hand and the play area.

pub mod board;
pub mod events;
pub mod game;
pub mod melds;
pub mod resources;
pub mod scoring;
pub mod tile;

pub use board::{draw_tiles, Session, TileSelected};
pub use events::{RoundEndedEvent, ScoreCalculatedEvent};
pub use game::{AppState, PlayPhase, RedCenterPluginGroup};
pub use resources::{GameState, PlayBoard, PlayerHand, SubRound, TileWall};
pub use scoring::{evaluate_hand, HandResult, Pattern};
pub use tile::{Tile, TileColor, TileId, TileLocation, TileSuit};
