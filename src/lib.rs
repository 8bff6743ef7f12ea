//! Puzzle solvers built around small verified cores: a tile grid that is
//! eroded to a fixed point, a rotating dial, decimal ID ranges and
//! battery banks.
pub mod text;
pub mod grid;
pub mod erosion;
pub mod dial;
pub mod secret_entrance;
pub mod zero_clicks;
pub mod gift_shop;
pub mod lobby;
