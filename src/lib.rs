//! Lint rules over syntax trees and semantic models: descending selector
//! specificity in style sheets, non-octal decimal escapes in string literals,
//! void DOM elements with children, and single statements that should be blocks.
pub mod block_statements;
pub mod diagnostic;
pub mod fx_hash;
pub mod text_range;
pub mod utf8_text;
pub mod void_elements;
pub mod nonoctal_escape;
pub mod specificity;
