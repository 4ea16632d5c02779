//! Verified core of a self-hosted notes website: markdown notes, due actions,
//! duration settings and the HTML pages built from them.

pub mod text;
pub mod pattern;
pub mod date;
pub mod config;
pub mod mdtree;
pub mod settings;
pub mod markdown;
pub mod render;
pub mod auth;
pub mod mail;
