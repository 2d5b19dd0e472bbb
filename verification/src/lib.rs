//! A bullet journal kept as a tree of short records.
//!
//! The crate holds the record store, the numbering that gives the records of
//! the current day their short identifiers, the operations that add,
//! schedule, complete, migrate and delete records, and the rows in which the
//! journal is shown. Every function is stated over a mathematical view of
//! the journal and proved against it.
//!
//! - [`record`] and [`data`]: the records, the journal and its keys.
//! - [`order`] and [`numbering`]: the visiting order and the daily
//!   identifiers.
//! - [`transitions`]: scheduling, completion and migration.
//! - [`calendar`] and [`clock`]: dates, days and the local clock.
//! - [`display`]: the rows of the list of all records and of the view of a
//!   day.
//! - [`laws`]: what holds of the journal whatever it contains.

pub mod calendar;
pub mod clock;
pub mod data;
pub mod display;
pub mod error;
pub mod laws;
pub mod numbering;
pub mod order;
pub mod record;
pub mod signifier;
pub mod transitions;

pub use calendar::{parse_date, Date, Day};
pub use data::{Data, DataView};
pub use display::{Printer, Row};
pub use error::BujoError;
pub use record::{BujoObject, RecordView};
pub use signifier::Signifier;
