//! The verified core of a small web file manager: path resolution below a
//! user's root, sessions, listings, uploads, downloads and user management.
pub mod auth;
pub mod handlers;
pub mod listing;
pub mod password;
pub mod path_model;
pub mod path_utils;
pub mod size;
pub mod sorting;
pub mod text;
