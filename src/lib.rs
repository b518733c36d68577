pub mod content;
pub mod error;
pub mod filetree;
pub mod header;
pub mod settings;
pub mod typst;
