pub mod circle;
pub mod circumference;
pub mod line;
pub mod octant;
