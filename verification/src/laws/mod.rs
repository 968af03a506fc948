//! What holds of the library as a whole.
//!
//! The laws here speak of inputs and results: of the records of a file and the
//! bytes of its image, of what was asked of a device and what its memory holds,
//! of a text and the number that it shows.

pub mod commands;
pub mod documents;
pub mod flash;
pub mod hex;
pub mod listing;
pub mod log;
pub mod messages;
pub mod recover;
pub mod rtt;
pub mod text;
pub mod verify;
pub mod views;
