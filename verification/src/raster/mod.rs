//! Lines in space, walked point by point, and a pixmap to draw them on.

pub mod draw;
pub mod line;
pub mod pixmap;
pub mod vec3;

pub use line::LineRasterizer;
pub use line::RasterState;
pub use pixmap::Canvas;
pub use pixmap::GenericPixmap;
pub use pixmap::Pixmap;
pub use vec3::Vec3;
