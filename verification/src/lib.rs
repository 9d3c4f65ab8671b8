//! Streaming reader for FASTA and FASTQ sequence records.
//!
//! The reader never touches a byte source itself. Its owner shows it the
//! next chunk of the source, and the reader answers with the number of bytes
//! to take from the source and with what it has found: nothing yet, a
//! record, the end of the input, or malformed input.
//!
//! - `record`: one entry.
//! - `text`, `lines`, `scan`: identifiers, lines, and the search for a byte.
//! - `fastq`: the grammar of one FASTQ record.
//! - `reader`: the reader and its steps.
//! - `stream`: the records that a whole input holds.
//! - `steps`, `run`: each step, and so each reading, finds those records,
//!   whatever the size of the chunks.
//! - `wellformed`: reading what was written gives it back.
pub mod fastq;
pub mod lines;
pub mod reader;
pub mod record;
pub mod run;
pub mod scan;
pub mod steps;
pub mod stream;
pub mod text;
pub mod wellformed;

pub use reader::{Format, Outcome, Phase, Sequences, Step};
pub use record::Record;
pub use run::read_all;
pub use stream::Ending;
