//! Shortest routes on a bounded grid with blocked cells.
//!
//! A request names the size of a grid, its walls, and two cells.  The answer
//! is a shortest walk between the cells in single steps along the axes, or an
//! empty route when no walk exists.
//!
//! The search is modelled as a state machine over mathematical values
//! ([`model`]).  Its invariant and the optimality of its result are proved in
//! [`soundness`]; the executable engine ([`search`]) follows the model step by
//! step, so the route returned is a function of the request alone.
//!
//! One function is taken on trust, not proved: the JSON text of an error
//! body is written by `serde_json` ([`error`]).

pub mod cache;
pub mod cell;
pub mod error;
pub mod frontier;
pub mod grid;
pub mod handlers;
pub mod model;
pub mod reconstruct;
pub mod search;
pub mod soundness;
pub mod table;

pub use cell::{heuristic, Cell};
pub use error::{AppError, ErrorKind};
pub use frontier::{Entry, Frontier};
pub use grid::{Grid, GridView, MAX_SIDE};
pub use handlers::{get_path, PathRequestForm, PathResponse};
pub use model::{SearchNode, Status};
pub use reconstruct::reconstruct;
pub use search::{astar, solve, Search};
pub use table::NodeTable;
