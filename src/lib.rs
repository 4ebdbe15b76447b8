use vstd::prelude::*;

pub mod card;
pub mod shuffle;
pub mod errors;
pub mod game;
pub mod laws;

verus! {

} // verus!
