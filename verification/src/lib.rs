//! A ranked-choice voting engine: ballot validation against a roster and a
//! voting window, and an instant-runoff tabulator that tallies, checks for a
//! majority, and eliminates candidates round by round until a winner emerges
//! or every remaining candidate ties out.

pub mod model;
pub mod tabulator;
pub mod window;
pub mod election;
mod clock;
