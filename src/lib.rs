//! Disk images of the Junior computer: the extended sector container and the
//! CP/M filesystem stored in it, with verified codecs and allocation logic.

pub mod error;
pub mod bytes;
pub mod cpm_fs;
pub mod dir_entry;
pub mod directory;
pub mod dsk;
pub mod file_arg;
pub mod file_id;
pub mod geometry;
pub mod listing;
pub mod select;
pub mod speccy_files;
pub mod text;
