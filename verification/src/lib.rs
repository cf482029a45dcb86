//! A schema-driven codec for structured binary messages.
//!
//! A message type is an ordered list of fields. Besides plain fields, a
//! field's wire role may be to carry a derived value about another field:
//! a length prefix (the byte count of the target's encoded content, plus a
//! fixed offset) or a discriminant (the integer tag of the target's active
//! variant). The encoder derives those values from the message at write
//! time; the decoder replays them to bound reads and to select variants.
//! Encode and decode agree byte for byte on the wire layout: the round-trip
//! law in `laws` is proved from the two models.

pub mod decoder;
pub mod encoder;
pub mod laws;
pub mod schema;
pub mod value;
pub mod wire;
