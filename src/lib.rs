//! Parsing and filtering of multiplexed isobaric quantification reports
//! ("Census" files): a line-oriented parser into a typed dataset, and a rule
//! engine that selects which proteins and peptides survive.
//!
//! Strings are copied out of the input, so a `Dataset` does not borrow the
//! text it was read from; a `Filter` likewise owns its patterns.
pub mod dataset;
pub mod filter;
pub mod parser;
pub mod protein;
pub mod text;
pub mod util;

pub use dataset::Dataset;
pub use filter::{Filter, PeptideFilter, ProteinFilter};
pub use parser::{Error, ErrorKind, Parser, read_census};
pub use protein::{Peptide, Protein};
pub use util::Decimal;
