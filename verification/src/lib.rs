pub mod base;
pub mod frame;
pub mod hitable;
pub mod integrator;
pub mod material;
pub mod ray;
pub mod sampling;
