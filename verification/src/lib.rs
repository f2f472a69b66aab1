pub mod buffer;
pub mod canvas;
pub mod color;
pub mod ppm;
pub mod raster;

pub use buffer::FrameBuffer;
pub use buffer::GraphicBuffer;
pub use buffer::StencilBuffer;
pub use canvas::Canvas;
pub use color::Color;
