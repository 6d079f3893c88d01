//! Verified core of a generator of printable arithmetic worksheets.

pub mod args;
pub mod font;
pub mod layout;
pub mod magnitude;
pub mod pdf;
pub mod problem;
pub mod text;
