//! A minimal immediate-mode 2D software rasterizer over a packed-color
//! pixel buffer: color conversions, pixel/line/shape/text drawing, and
//! small layout helpers. Presentation to a window is left to the caller.

pub mod color;
pub mod ember;
pub mod glyphs;
pub mod helper;
pub mod raster;

pub use color::Color;
pub use ember::Ember;
