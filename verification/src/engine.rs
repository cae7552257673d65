//! The matching engine: the order book facade, the matcher, and the
//! mathematical model their contracts are stated over.

pub mod book;
pub mod matcher;
pub mod model;
