//! The extended sector container ("EXTENDED CPC DSK" format).

pub mod image;
pub mod structs;
