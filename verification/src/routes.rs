//! The decisions of the HTTP handlers: which request is refused, with which
//! status and message, and what is handed to the services.
pub mod api;
pub mod pages;
pub mod flows;
