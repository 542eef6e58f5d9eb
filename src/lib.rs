//! Terminal colorschemes from images: a sampler, three palette builders, a
//! saturation transform, and the cache record and template text around them.

pub mod cli;
pub mod codec;
pub mod color;
pub mod options;
pub mod palette;
pub mod raster;
pub mod template;
pub mod text;
