//! Plain data of the audio side.

pub mod load;
pub mod source;
