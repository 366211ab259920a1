pub mod hpolytope;
pub mod shapes;
