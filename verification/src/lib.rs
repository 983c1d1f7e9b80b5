//! xgrammar structural tags for model-native tool-call syntax.
//!
//! [`gemma4_structural_tag`] builds, from the tools of a request and its `response_format`
//! schema, the one grammar that a turn of the model is held to. What it returns is stated in
//! two steps: the [`format::Format`] that the turn must have, and the JSON that spells it
//! ([`format::Format::render`]). [`reader`] reads the JSON back by its keys. [`language`] says
//! which texts a format admits. [`schema`] and [`arguments`] say, of the entries of a tool's
//! schema alone, which texts are its arguments; [`args_language`], [`branches`] and
//! [`turn_language`] what the grammars come to for a tool call and for a turn.

pub mod args;
pub mod args_language;
pub mod arguments;
pub mod branches;
pub mod format;
pub mod gemma4;
pub mod json;
pub mod language;
pub mod markers;
pub mod permute;
pub mod reader;
pub mod schema;
pub mod turn_language;
pub mod value;

pub use gemma4::{
    ToolDefinition, gemma4_structural_tag, parser_has_structural_tag, structural_tag_for_parser,
};
pub use json::Json;
