//! Question-pool services for Bible-quiz question sets: CSV pool parsing and
//! validation, book/chapter filtering, standard-set generation, tier-based
//! access rules, login throttling and request checks.
pub mod text;
pub mod services;
pub mod seq_facts;
pub mod state;
pub mod models;
pub mod routes;
pub mod config;
