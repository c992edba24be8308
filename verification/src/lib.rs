//! A name-indexed streaming demultiplexer for biological sequence records.
//!
//! Records (FASTQ or FASTA) are routed to zero or more destination streams
//! according to membership in per-destination name lists, and the number of
//! records delivered to each destination is reconciled against the number of
//! names that requested it.

pub mod demux;
pub mod index;
pub mod record;
