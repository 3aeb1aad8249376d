//! Rasterization of axis-aligned circles and ellipses, hollow and filled,
//! onto a clipped pixel canvas.
pub mod canvas;
pub mod circle;
pub mod conics;
pub mod ellipse;
pub mod laws;
pub mod marks;

pub use canvas::{Canvas, draw_if_in_bounds, draw_span};
pub use conics::{
    draw_filled_circle, draw_filled_circle_mut, draw_filled_ellipse, draw_filled_ellipse_mut,
    draw_hollow_circle, draw_hollow_circle_mut, draw_hollow_ellipse, draw_hollow_ellipse_mut,
};
pub use ellipse::{MAX_ELLIPSE_RADIUS, draw_ellipse};
pub use marks::Brush;
