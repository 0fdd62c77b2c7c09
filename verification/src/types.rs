pub mod gls;
pub mod graph;
pub mod matrix;
pub mod numeral;
pub mod path;
pub mod point;
pub mod route;
