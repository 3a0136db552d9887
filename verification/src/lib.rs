//! Packing polycube pieces into a 3×3×3 cube: the rotations of the cube, the
//! occupancy mask of its 27 cells, the cage that holds the pieces packed so
//! far, and the search for all maximal packings up to rotation.

pub mod bits;
pub mod cage;
pub mod coordinates;
pub mod hitmap;
pub mod matrix;
pub mod rotation_group;
pub mod search;

pub use cage::{Cage, PieceDoesNotFit};
pub use coordinates::{all_rotations, Coordinate, Rotation};
pub use hitmap::{Hitmap, HitmapBuilder};
pub use search::Search;
