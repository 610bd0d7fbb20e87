//! A grayscale Mandelbrot rasteriser, split along what can be reasoned about
//! exactly. Parsing of coordinate-pair strings, the bounded escape loop with
//! its counting convention, the row-major raster pass, and the rule that turns
//! an escape count into an 8-bit intensity all live here, with full contracts.
//! The double-precision plane arithmetic — the quadratic recurrence and the
//! pixel-to-point map — is supplied by the caller: as a probe for the escape
//! loop, and as a per-pixel function for the raster pass.

pub mod escape;
pub mod parse;
pub mod raster;
