//! What holds of the library, whatever the operands: the laws of its
//! arithmetic and of its geometry.

pub mod scalars;
pub mod nearest;
pub mod exact;
pub mod vectors;
pub mod order;
pub mod camera;
pub mod sphere;
