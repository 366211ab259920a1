pub mod copula;
pub mod portfolio;
