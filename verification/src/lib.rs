//! Path resolution (absolute and relative forms of Unix paths) and a small
//! persistent store of named strings, with their behaviour stated and proved.

pub mod path_buf;
pub mod resolve;
pub mod path_ext;
pub mod path_laws;
pub mod laws;

mod home;
pub mod dir_entries;
pub mod recollections;
pub mod text;
pub mod json;
