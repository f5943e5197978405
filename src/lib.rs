//! Flags words that come back within a short distance of each other in a
//! text, and renders the result as a positional report or as runs of the
//! original text.

pub mod text;
pub mod words;
pub mod detector;
pub mod runs;
pub mod report;
pub mod response;
pub mod stop_words;
pub mod laws;

pub use words::{Word, WordView, split_text_into_words};
pub use detector::mark_up;
pub use runs::{Run, RunView, rebuild_run, rebuild};
pub use report::{report, join_paragraphs};
pub use stop_words::{split_on, lines_of};
pub use response::{ResponseType, Response, tell_you_how_bad};
