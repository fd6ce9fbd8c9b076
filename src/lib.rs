//! In-memory search and aggregation over rental-car offers placed in a fixed
//! region hierarchy.

pub mod counts;
pub mod db_manager;
pub mod facets;
pub mod models;
pub mod number_of_days;
pub mod ordering;
pub mod query_laws;
pub mod region_hierarchy;
