//! Neighbourhood smoothing of intensity points.
//!
//! A request body is a sequence of 12-byte records, each holding the
//! x coordinate, the y coordinate and the intensity of one point as
//! little-endian IEEE-754 binary32 values. The library decodes such a body,
//! replaces each intensity by the mean of its 3x3 neighbourhood (with a floor
//! below which the value becomes zero) and encodes the result again.
//!
//! Values of the binary32 format are held as their bit patterns (`u32`); the
//! arithmetic on them is supplied by the caller as closures.
pub mod binary32;
pub mod codec;
pub mod engine;

pub use binary32::{less_than, same_value};
pub use codec::{decode, encode, FramingError, Point, RECORD_LEN};
pub use engine::{
    commit, find_position, floor_clamp, malformed_reply, neighborhood, respond, Neighbors,
    FLOOR_BITS,
};
