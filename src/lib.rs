//! A compile-time HTML template compiler: parses a markup-like token stream
//! into a template tree, validates elements against the HTML tag table, and
//! generates imperative rendering statements with static text coalesced.
use vstd::prelude::*;

pub mod escape;
pub mod tags;
pub mod token;
pub mod ast;
pub mod error;
pub mod validate;
pub mod generate;
pub mod parse;
pub mod runtime;
pub mod attribute;
pub mod rel;
pub mod marker;
pub mod inline_text;
pub mod root;
pub mod attrs;

pub use marker::{FlowContent, NonInteractiveContent, PhrasingContent, Render};
