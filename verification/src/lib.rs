//! Driver core for a bistable (e-paper-class) panel on a synchronous serial
//! bus: the controller state machine with its reset, setup, full-refresh and
//! partial-refresh protocols, a one-bit-per-pixel drawing surface, and the
//! render-loop scheduling that refreshes one band of the screen per tick.

pub mod bus;
pub mod controller;
pub mod geometry;
pub mod render;
pub mod surface;
