//! Structured output configuration for prompts: the requested response
//! format, the effort level, and the JSON Schema rewriting that brings a
//! generated schema into the subset the structured-output API accepts.

pub mod json;
pub mod json_eq;
pub mod output;
pub mod schema;
pub mod schema_laws;

pub use json::{Json, JsonMap, JsonNumber, JsonValue};
pub use output::{Effort, EffortLevel, Items, JsonSchemaFormat, OutputConfig, OutputFormat};
pub use schema::{contains_ref, sanitize_for_anthropic};
