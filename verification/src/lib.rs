//! Tools for sequence files. A file holds records: a header line, which begins with the
//! record marker and names the record, and the lines of the sequence.
//!
//! The core cuts records into fragments: [`split`] at the runs of the ambiguous symbol,
//! [`split_bed`] at the intervals of an interval file. Around it stand the readers of
//! the two kinds of file ([`fasta`], [`bed`]), the statistics of a record ([`stats`]) and
//! the writers of all results ([`output`]). Two smaller tools share the readers' ground:
//! the check of coding sequences ([`cds`], [`report`]) and the lengths of records
//! ([`size`]).
//!
//! Every text is specified through its view, the sequence of its characters, and one
//! character is one symbol of a sequence. Nothing here touches a file: a reader takes
//! the text of a file, a writer appends to a text.

pub mod bed;
pub mod cds;
pub mod fasta;
pub mod number;
pub mod output;
pub mod report;
pub mod runs;
pub mod size;
pub mod split;
pub mod split_bed;
pub mod stats;
pub mod text;
