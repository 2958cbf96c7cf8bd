//! Detection of the regions of long reads that no overlap with another read
//! confirms, and extraction of those regions from sequence records.
//!
//! * [`reads2ovl`] accumulates, per read, its length and the overlaps reported
//!   against it.
//! * [`interval`] reduces the overlaps of a read to the regions that they
//!   leave uncovered, its bad regions.
//! * [`stack`] computes the bad regions of every read of a store in one pass
//!   and keeps them for lookup.
//! * [`editor`] classifies a read by the share of it that is bad, and
//!   [`editor::pluck`] plucks the bad regions out of FASTA and FASTQ records.
//! * [`record`] holds the records, and leaves the reading and writing of
//!   their text to `noodles`.
//! * [`file`] recognises compressed streams and chooses the compression of
//!   the output.
//! * [`error`] lists the failures, and [`util`] the types of file.
pub mod editor;
pub mod error;
pub mod file;
pub mod interval;
pub mod reads2ovl;
pub mod record;
pub mod stack;
pub mod util;
