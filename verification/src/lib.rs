//! The logic of a small MP3 player: reading ID3v1 tags from the end of a file,
//! keeping the playlist in file-name order without repeated names, choosing
//! which selected files can be added, and the player's reactions to its keys.
//!
//! Everything here is plain computation on values; reading files, playing audio
//! and drawing the window are left to the program that uses this library.
use vstd::prelude::*;

pub mod id3;
pub mod order;
pub mod player;
pub mod playlist;

verus! {

} // verus!
