pub mod point;
pub mod line;
pub mod circle;
pub mod ridge;
pub mod canvas;
pub mod render;
