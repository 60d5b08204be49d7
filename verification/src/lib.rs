//! Decode a bundle of secrets — newline-separated `KEY=base64(VALUE)`
//! records — into shell `export` statements that are safe to evaluate.
//!
//! The pipeline splits the bundle into lines, trims each line, splits it at
//! its first `=`, holds the key to the shell-variable-name grammar, decodes
//! the value from standard base64 into UTF-8 text, and wraps that text in
//! single quotes so a POSIX shell reads it back verbatim. A record that
//! fails a gate is dropped on its own, with a diagnostic for a bad name or
//! bad base64 and silently for a value that is not UTF-8 text; the other
//! records go through untouched, in source order.

mod codec;
mod emit;
mod ident;
mod quote;
mod text;

pub use codec::b64_decode_of;
pub use emit::LineOutcome;
pub use emit::LineResult;
pub use emit::bad_encoding_diag;
pub use emit::bad_name_diag;
pub use emit::diags_of;
pub use emit::export_line;
pub use emit::export_statement;
pub use emit::exports_of;
pub use emit::handle_line;
pub use emit::lemma_blank_lines_yield_nothing;
pub use emit::lemma_decode_deterministic;
pub use emit::lemma_records_independent;
pub use emit::line_outcome;
pub use emit::process_bundle;
pub use ident::is_valid_var_name;
pub use ident::valid_var_name;
pub use quote::lemma_shell_quote_round_trip;
pub use quote::shell_eval;
pub use quote::shell_quote;
pub use quote::shell_quote_spec;
pub use text::first_eq;
pub use text::is_space;
pub use text::split_first_eq;
pub use text::split_into_lines;
pub use text::split_lines;
pub use text::trim;
pub use text::trim_spec;
