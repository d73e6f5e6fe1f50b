//! The content-service core of a personal knowledge base: the navigation
//! tree synthesised from the virtual paths of its documents, the page and
//! attachment rules, and the save lifecycle of a write.

pub mod error;
pub mod invariance;
pub mod json;
pub mod page;
pub mod reply;
pub mod save;
pub mod sorting;
pub mod synthesis;
pub mod text;
pub mod tree;
