//! A verified record codec for a fixed Avro record schema (name, age,
//! optional email, phone numbers): a deterministic data generator, a
//! direct binary codec and one through an intermediate value
//! representation, a container file format over bytes, and the decision
//! logic of the benchmark drivers around them.

pub mod cli;
pub mod codec;
pub mod container;
pub mod person;
pub mod strnum;
pub mod value;
pub mod varint;
