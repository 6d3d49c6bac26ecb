//! A round-robin time-series store in the Whisper file format.
//!
//! A file holds a header and a sequence of archives. Each archive is a fixed-size
//! circular buffer of (timestamp, value) slots at one precision; a point written to
//! the finest archive is carried on into the coarser archives by aggregation.
//!
//! The library works on byte images held in memory and never touches the file
//! system: [`WhisperFile::new`] lays a file out, [`WhisperFile::open`] reads one
//! from its bytes, and [`WhisperFile::to_bytes`] gives the bytes back.
//!
//! A value is carried as the 64 bits of an IEEE-754 double and is never
//! interpreted as a number here. [`WhisperFile::write`] therefore does what needs
//! no arithmetic on values, and hands back a [`Propagation`]: where it is
//! `Pending`, the caller reduces the values it names to one, and hands that to
//! [`WhisperFile::propagate`], until the propagation is `Settled`.
//!
//! [`WhisperCache`] keeps a bounded number of files at hand by path.

pub mod archive;
pub mod cache;
pub mod clock;
pub mod codec;
pub mod errors;
pub mod factor;
pub mod file;
pub mod header;
pub mod point;
pub mod retention;
pub mod schema;

pub use crate::archive::Archive;
pub use crate::cache::WhisperCache;
pub use crate::file::{Propagation, WhisperFile};
pub use crate::header::{AggregationType, Header};
pub use crate::point::Point;
pub use crate::schema::{RetentionPolicy, Schema};
