use vstd::prelude::*;

pub mod abc;
pub mod duration;
pub mod music;
pub mod notation;
pub mod playback;
pub mod text;

verus! {
} // verus!
