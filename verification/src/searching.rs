pub mod binary_search;
pub mod linear_search;
