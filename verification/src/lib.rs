//! Verified generation of WIT from JSON Schema and the MCP tool plumbing built on it.
use vstd::prelude::*;

pub mod json;
pub mod text;
pub mod wit;
pub mod keys;
pub mod pointer;
pub mod registry;
pub mod mcp;
pub mod template;
pub mod component;
pub mod component_pet;
pub mod build_common;

verus! {

} // verus!
