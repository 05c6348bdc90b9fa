//! Fixed-radius neighbor queries on points in a space of any dimension.
//!
//! Space is cut into cubical cells whose side is the query radius. A hash map
//! keeps, for every cell that holds points, the bucket of their indices. A
//! query looks into the cell of the query position and into the cells that
//! touch it; a point that moves is taken from one bucket and put into another.
pub mod accel;
pub mod combos;
pub mod error;
pub mod geometry;
pub mod grid;
pub mod laws;
pub mod store;
pub mod vecn;
pub mod vecn_linalg;

pub use accel::QueryAccelerator;
pub use combos::{combos, neighborhood};
pub use error::AccelError;
pub use geometry::{quantize, within};
pub use grid::{CellGrid, Occupancy, MAX_POINTS};
pub use vecn::{Number, VecN};
