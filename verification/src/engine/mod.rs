//! The storage-engine boundary: the composite key and value types a data table
//! holds, with their exact byte encodings.

pub mod node;
pub mod table_key;
pub mod table_value;
pub mod mem_nodes;
pub mod archived;
