//! Dictionary tagging over a finite-state transducer, plus the small text
//! utilities that surround it: an analyzer (hyphen stripping, Latin folding,
//! tokenisation), a regular-expression engine, a Markdown sectioniser and
//! the computations behind the command-line front ends.

pub mod text;
pub mod analyzer;
pub mod order;
pub mod fst;
pub mod tagger;
pub mod dict;
pub mod regex;
pub mod thompson;
pub mod recognize;
pub mod fuzzy;
pub mod bm25;
pub mod cli;

pub use analyzer::Token;
pub use analyzer::derive_output;
pub use analyzer::tokenize;
pub use dict::file_stem;
pub use dict::format_uuid_v4;
pub use dict::parse_csv_line;
pub use tagger::Entry;
pub use tagger::OverlapPolicy;
pub use tagger::Tag;
pub use tagger::Tagger;
pub use tagger::TaggerError;
