//! Core of a desktop dictionary: the registry of loaded dictionaries, the
//! persisted catalog, the decisions of the content server, and what the
//! application reckons before it asks the database or the screen.

pub mod assets;
pub mod base;
pub mod capture;
pub mod catalog;
pub mod cookie;
pub mod database;
pub mod handlers;
pub mod server;
pub mod settings;
