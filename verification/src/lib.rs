//! A verified level-2 order book: an engine that aggregates resting quantity
//! per price level per side, a single-writer order manager that serializes
//! client requests against that engine, and the pure decision logic of a
//! client session. Transport and rendering live outside the library.

pub mod book;
pub mod laws;
pub mod manager;
pub mod messages;
pub mod parse;
pub mod price;
pub mod session;

pub use price::Price;
