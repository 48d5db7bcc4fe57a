//! IP prefix aggregation and a BGP-4 message decoder, with the integer
//! primitives that both share.

pub mod aggregate;
pub mod custom_range;
pub mod decoder;
pub mod interval;
pub mod ipmath;
pub mod message;
pub mod saturating;
