//! Extraction of classified sequencing reads.
//!
//! The library has two halves. The first parses a tab-delimited
//! classification report, filters each line by a set of kept taxa and a
//! multi-pattern exclusion matcher, and builds a selection map keyed by read
//! identifier. The second parses paired FASTQ inputs, keeps exactly the
//! record pairs whose identifier is in the selection map, and packs the
//! surviving records into output buffers, optionally gzip-framed.

pub mod batch;
pub mod exclusion;
pub mod fastq;
pub mod filter;
pub mod gzip;
pub mod koutput;
pub mod laws;
pub mod lines;
pub mod record;
pub mod scan;
pub mod selection;
pub mod util;
