//! What holds of several functions together.

pub mod background;
pub mod boundary;
pub mod choosing;
pub mod colour;
pub mod edges;
pub mod errors;
pub mod evening;
pub mod feather;
pub mod field;
pub mod filling;
pub mod leaning;
pub mod marks;
pub mod matting;
pub mod measures;
pub mod morphology;
pub mod passes;
pub mod ranks;
pub mod reaching;
pub mod recovering;
pub mod repainting;
pub mod reporting;
pub mod running;
pub mod search;
pub mod shapes;
pub mod spreading;
pub mod subject;
pub mod walks;
