pub mod canvas;
pub mod hierarchy;
pub mod matrix;
pub mod obj;
pub mod ordering;
pub mod pattern;
pub mod ppm;
pub mod refraction;
pub mod shapes;
