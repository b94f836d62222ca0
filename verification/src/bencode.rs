//! The bencode codec: a self-describing format of integers, byte strings,
//! lists and dictionaries.

pub mod canonical;
pub mod decimal;
pub mod decode;
pub mod encode;
pub mod grammar;
pub mod laws;
pub mod order;
pub mod value;
