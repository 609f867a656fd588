//! Filters for the output of Foundry's `forge build` and `forge test`.

pub mod build_laws;
pub mod build_output;
pub mod command;
pub mod content_laws;
pub mod decimal;
pub mod engine;
pub mod line_laws;
pub mod noise_laws;
pub mod pattern;
pub mod pattern_laws;
pub mod scientific;
pub mod scientific_laws;
pub mod stream;
pub mod test_laws;
pub mod test_output;
pub mod text;
pub mod text_laws;
pub mod trace;
pub mod trace_laws;

pub use build_output::filter_forge_build;
pub use scientific::{sci_notation_of_digits, to_sci_notation};
pub use test_output::filter_forge_test;
pub use trace::compress_trace_line;
