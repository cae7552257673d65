//! Storage-level data model: the order record and the scalar types it
//! is made of.

pub mod layout;
