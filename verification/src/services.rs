//! The services behind the HTTP routes.
pub mod draws;
pub mod generator;
pub mod authz;
pub mod security;
pub mod auth;
