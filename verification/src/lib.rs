//! Save-file formats of RPG Maker (Ruby Marshal, LCF) and Wolf RPG Editor,
//! parsed into editable trees that write back byte for byte.
pub mod db;
pub mod icon;
pub mod lcf;
pub mod lcf_doc;
pub mod marshal;
pub mod save;
pub mod save_lsd;
pub mod text;
pub mod util;
pub mod wolf;
