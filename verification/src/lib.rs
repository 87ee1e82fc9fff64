//! Editing model, renderers, linter and structural diff for JSON documents.
use vstd::prelude::*;

pub mod text;
pub mod tree;
pub mod pretty;
pub mod lint;
pub mod diff;
pub mod keys;
pub mod diff_app;
pub mod fake_data;
pub mod json;
pub mod plugin;
pub mod redact;
pub mod editor;
pub mod convert;
pub mod search;
pub mod view;

verus! {

} // verus!
