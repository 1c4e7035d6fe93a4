//! A Whitted-style ray tracer over spheres and point lights, in fixed-point
//! arithmetic, with its geometry and shading stated and proved.
pub mod fixed;
pub mod geometry;
pub mod tracer;
pub mod image;
