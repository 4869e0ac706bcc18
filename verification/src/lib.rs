//! Per-person tallies of test scores, read from a flat text file.
//!
//! A file holds one record per line: a bare name for a missed test, or a
//! name, a colon and a signed decimal score for a completed one. The
//! modules follow the path of the data: `text` splits characters,
//! `number` reads and writes decimal integers, `score` turns lines into
//! records, `stats` keeps one person's running totals, and `board` folds
//! the records into one entry per person.
pub mod board;
pub mod number;
pub mod score;
pub mod stats;
pub mod text;

pub use board::{aggregate, summary_line, Scoreboard};
pub use number::NumberError;
pub use score::{parse_contents, MalformedScore, Score};
pub use stats::ScoreStruct;
