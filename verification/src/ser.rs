//! Serialization side: the sink capability and its buffer backends.

pub mod nibble_flavors;
