//! Two-dimensional visibility ("line of sight") geometry over exact
//! rational arithmetic: vectors, segment/segment and ray/segment
//! intersection classification, and a visibility-point engine that casts
//! rays from an origin toward every obstacle vertex and assembles the
//! angle-sorted boundary of the visible region.

pub mod rat;
pub mod vector;
pub mod segment;
pub mod ray;
pub mod angle;
pub mod visibility;
pub mod intersection;
pub mod tile;
