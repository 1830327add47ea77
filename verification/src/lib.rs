//! A software, CPU-side, anti-aliased 2D vector path rasterizer.
//!
//! Paths are described by a stream of drawing operations (move, line,
//! quadratic and cubic splines, close, pen width) over fixed-point
//! coordinates.  A [`plotter::Plotter`] flattens curves adaptively,
//! generates stroke outlines with join geometry, and scan-converts the
//! result into a per-pixel coverage [`mask::Mask`], which a
//! [`raster::Raster`] composites onto an RGBA8 pixel buffer.

pub mod fig;
pub mod fill;
pub mod geom;
pub mod mask;
pub mod path;
pub mod plotter;
pub mod raster;
pub mod rect;
pub mod stroke;

pub use geom::{Point2, Transform, WeightedPoint2};
pub use mask::Mask;
pub use path::{Direction, FillRule, JoinStyle, PathOp};
pub use plotter::Plotter;
pub use raster::Raster;
