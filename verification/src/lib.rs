//! Hydrology of procedurally generated terrain: D8 drainage, flow
//! accumulation, watersheds, Strahler stream order and river extraction on a
//! row-major grid of cells.

pub mod direction;
pub mod grid;
pub mod paths;
pub mod accumulation;
pub mod stream_order;
pub mod ranking;
pub mod basins;
pub mod watershed;
pub mod segments;
pub mod outlets;
pub mod sums;
pub mod sources;
pub mod particle;

pub use direction::FlowDirection;
