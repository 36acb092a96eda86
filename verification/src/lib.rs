//! Image feature extraction on integer grids: line segment candidates from
//! gradient clusters, FAST corners, corner picking for Harris responses,
//! and line drawing.
//!
//! All values are integers. Where a quantity is a real number at its source
//! (a gradient magnitude, a direction in degrees), the caller hands it over
//! in fixed-point units of its choice and states thresholds and tolerances
//! in the same units.
//!
//! - [`grid`]: the two-dimensional grid that holds images, gradients and
//!   labels.
//! - [`region`]: region growing, which clusters pixels by gradient
//!   direction.
//! - [`lsd`]: line candidates from clusters, and the detection that ties
//!   clustering and fitting together.
//! - [`nfa`]: the integer side of false-alarm validation.
//! - [`descriptors`]: the FAST corner test and score.
//! - [`harris`]: picking local maxima of a corner response.
//! - [`raster`]: drawing segments and corner marks into a grid.
//! - [`reader`]: cutting the head of a bag file into its pieces.

pub mod descriptors;
pub mod grid;
pub mod harris;
pub mod lsd;
pub mod nfa;
pub mod raster;
pub mod reader;
pub mod region;
