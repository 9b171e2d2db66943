//! What the operations promise, stated on what goes in and what comes out.

pub mod asking;
pub mod calling;
pub mod deciding;
pub mod driving;
pub mod forking;
pub mod inspecting;
pub mod inverting;
pub mod leasing;
pub mod listing;
pub mod parts;
pub mod reading;
pub mod recording;
pub mod replaying;
pub mod roundtrip;
pub mod sameness;
pub mod serving;
pub mod settling;
pub mod starting;
pub mod storing;
pub mod telling;
pub mod visits;
