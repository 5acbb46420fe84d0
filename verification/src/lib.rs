//! Automatic side-by-side monitor layout.
//!
//! Parses the status report of an X display-configuration tool into a typed
//! monitor model, picks each monitor's best resolution and refresh rate, and
//! turns the ordered model into the flat argument list that reconfigures the
//! displays left-to-right, widest first.

pub mod num;
pub mod rate;
pub mod model;
pub mod parse;
pub mod args;
