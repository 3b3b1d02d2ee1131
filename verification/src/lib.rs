//! Tool registry and resource paging for an agent runtime.
//!
//! [`registry`] keeps the tools an agent may call and which deferred tools
//! have had their schemas activated; [`resource`] turns a tool resource into
//! bounded pages: a small value whole, a large string in character pages,
//! a large array or object as an index of child pointers.
pub mod json;
pub mod pointer;
pub mod registry;
pub mod resource;
pub mod text;

pub use json::{Json, JsonV};
pub use registry::{Tool, ToolDef, ToolRegistry};
pub use resource::{
    index_entry, resource_page, text_page, tool_result, value_page, McpError, ToolResult,
    INDEX_BYTES, PAGE_BYTES, PAGE_ENTRIES, TEXT_PAGE_CHARS,
};
pub use text::{decimal_string, escape_pointer_token, str_less};
