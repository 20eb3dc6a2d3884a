//! Cutting the product out: masks, flood fill, boundary work and search.

pub mod background;
pub mod blur;
pub mod cells;
pub mod chamfer;
pub mod classify;
pub mod connect;
pub mod constraints;
pub mod contour;
pub mod despill;
pub mod diagnostics;
pub mod edges;
pub mod evening;
pub mod feather;
pub mod field;
pub mod fill;
pub mod finish;
pub mod floodfill;
pub mod guided;
pub mod integral;
pub mod local_colour;
pub mod luma;
pub mod mask;
pub mod matte;
pub mod morphology;
pub mod optimize;
pub mod pipeline;
pub mod polygon;
pub mod recover;
pub mod refine;
pub mod refining;
pub mod repaint;
pub mod report;
pub mod reshape;
pub mod sealing;
pub mod search;
pub mod separability;
pub mod sliding;
pub mod slopes;
pub mod subject;
