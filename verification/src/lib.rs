//! Pooling of two coordinate-sorted BED tracks into one.
//!
//! The crate holds the rules of the tool and no input or output: a reader
//! cursor that is fed the lines of one file and turns them into records, and
//! the two-way merge that decides, from one pending record per input, which
//! record is written next and which input is advanced.

pub mod error;
pub mod merge;
pub mod reader;
pub mod record;
pub mod run;
pub mod text;
pub mod tracks;

pub use error::BedError;
pub use merge::{sync2, Row, Step};
pub use reader::BedFile;
pub use record::{rank_texts, BedCoords, BedLine, BedRecord, Rank};
pub use run::merge_reads;
pub use text::{blank, chars_of, decimal_string, split_columns};
pub use tracks::merge_records;
