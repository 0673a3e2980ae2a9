//! A circular sequence: chains of value cells kept in an arena, each ending in a
//! terminal that may point back into the chain to close a cycle.

pub mod arena;
pub mod crawler;
pub mod fancy_int;
pub mod list;
pub mod text;
pub mod words;

pub use arena::{Arena, Node};
pub use crawler::{CrawlResult, Crawler};
pub use fancy_int::FancyInt;
pub use list::{CircularList, CircularListIterator};
pub use words::{count_occurrences, num_occurrences};
