//! The PNG helpers under the name of the module that the converters use.

pub use crate::image::{decode_png, encode_png};
