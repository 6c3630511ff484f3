pub mod decimal;
pub mod models;
pub mod repository;
