//! A region quadtree over the integer plane: rectangular regions (or single
//! points) are mapped to values, and can be found again by the rectangles they
//! overlap.

mod area;
mod handle_iter;
mod point;
mod qtinner;
mod quadtree;

pub use area::Area;
pub use point::{Point, Quadrant};
pub use qtinner::MAX_DEPTH;
pub use quadtree::Quadtree;
