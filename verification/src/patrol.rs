//! A guard patrolling a bounded grid: the grid model, the single-step
//! transition, the full walk and the loop probe.

pub mod grid;
pub mod probe;
pub mod reading;
pub mod walk;

pub use self::grid::{Coord, Grid, MapElements, Orientation, Player, SituationMap};
pub use self::reading::{GridError, GridErrorKind};
pub use self::walk::{solve_part_1, solve_part_2};
