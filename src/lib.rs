//! A sparse two-dimensional index of enabled (entity, component) coordinates,
//! together with the allocator that hands out and recycles entity identifiers.
pub mod collections;
pub mod entity;
pub mod range;
pub mod table;

pub use entity::{Entity, Parent};
pub use range::{RangeAllocator, ValidEntityRange};
pub use table::{Node, NodeBundle, NodeFilter, NodeId, Table, TableError};
