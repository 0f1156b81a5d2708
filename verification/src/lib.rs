//! The logic of Preserve, a Windows application that downloads and installs preserved games.

pub mod address;
pub mod api;
pub mod cover;
pub mod desktop;
pub mod digest;
pub mod double;
pub mod download;
pub mod errors;
pub mod format;
pub mod installer;
pub mod json;
pub mod models;
pub mod path;
pub mod prerequisite;
pub mod record;
pub mod screens;
pub mod table;
pub mod text;
pub mod transfer;
pub mod window;
