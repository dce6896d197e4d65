//! An embedded, single-process graph store: nodes hold an opaque byte payload
//! and are joined by labelled, directed adjacency sets.
//!
//! [`Database`] owns the node table. Its operations keep the table
//! consistent: every neighbour of a node is a node of the table, and has
//! that node as a neighbour in turn. The [`table`] module holds the
//! mathematical model that the contracts speak of, and the laws it obeys.

pub mod database;
pub mod key;
pub mod keyset;
pub mod node;
pub mod storage;
pub mod table;
pub mod value;

pub use database::{CreateError, Database, LoadError};
pub use key::{Key, KeyParseError};
pub use keyset::KeySet;
pub use node::{Node, NodeView};
pub use storage::Storage;
pub use value::Value;
