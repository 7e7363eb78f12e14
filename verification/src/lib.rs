//! Request logic of a small password-vault web service: who may see which
//! stored passwords and websites, how credentials are checked, how stored
//! passwords are sealed and opened, and how website names are searched.
//!
//! The service keeps four tables (accounts, logins, passwords, websites).
//! The functions here take snapshots of those tables and decide what a
//! request answers and which rows it writes; the server around them does the
//! reading and writing.

pub mod access;
pub mod auth;
pub mod cors;
pub mod crypto;
pub mod like;
pub mod models;
pub mod passwords;
pub mod patterns;
pub mod websites;

