//! Deserialization side: the source capability and the borrowed-slice cursor.

pub mod nibble_flavors;
