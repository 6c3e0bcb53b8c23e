//! Atomic swap protocol for a shielded-transaction wallet: coin selection for
//! one half of a swap, joining two halves into one transaction, inspecting a
//! joint transaction for commitment consistency, placing signatures, and the
//! byte encodings that the two parties exchange.

pub mod model;
pub mod codec;
pub mod wire;
pub mod select;
pub mod join;
pub mod inspect;
pub mod sign;
