//! Wolf RPG Editor saves, archives and project data.
pub mod crypt;
pub mod db;
pub mod dxa;
pub mod node;
pub mod save;
pub mod archive;
pub mod search;
