//! Per-pixel fitting of spectroscopic image stacks: the shape logic of the
//! measurement arrays, the extraction of each pixel's sweep, the assembly of
//! per-pixel fit outcomes into a parameter map, block-wise downsampling and
//! the 2-D median filter.
pub mod error;
pub mod compress;
pub mod container;
pub mod layout;
pub mod medfilt;
pub mod param_map;

pub use error::ShapeError;
