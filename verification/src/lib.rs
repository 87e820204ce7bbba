//! Document model, XML reading and writing, and editing operations of the
//! Zuzu GUI form designer.

pub mod text;
pub mod props;
pub mod element;
pub mod catalog;
pub mod xml_write;
pub mod xml_read;
pub mod document;
pub mod outline;
pub mod paths;
pub mod laws;
pub mod unique;
pub mod xml_laws;
pub mod layout_laws;
