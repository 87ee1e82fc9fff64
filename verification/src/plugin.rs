//! Plugins run on the selected node: their names and prompts, the `jq` filter run on a node,
//! and how its outputs make one node.
use vstd::prelude::*;
use crate::json::{json_text, to_json_text};
use crate::text::{append, lit};
use crate::tree::JNode;
use jaq_core::load::{Arena, File, Loader};
use jaq_core::{data::JustLut, defs as core_defs, funs as core_funs, Compiler};
use jaq_json::{defs as json_defs, funs as json_funs, read::parse_single, Val};
use jaq_std::{defs as std_defs, funs as std_funs};

verus! {

/// The node the outputs of a filter make: a single output stands alone, any other number of
/// outputs (none included) becomes an array of them.
pub fn collect_outputs(outputs: Vec<JNode>) -> (r: JNode)
    ensures
        outputs@.len() == 1 ==> r == outputs@[0],
        outputs@.len() != 1 ==> r == (JNode::Array { items: outputs, collapsed: false }),
{
    if outputs.len() == 1 {
        let mut outputs = outputs;
        match outputs.pop() {
            Some(n) => n,
            None => vstd::pervasive::unreached(),
        }
    } else {
        JNode::Array { items: outputs, collapsed: false }
    }
}

/// Why a `jq` filter did not run: it did not parse, did not compile, its input was not read,
/// or it failed while running. Each holds what jaq said.
#[derive(Debug, Clone, PartialEq)]
pub enum JqError {
    Parse(String),
    Compile(String),
    Input(String),
    Runtime(String),
}

impl JqError {
    /// The message shown for the error.
    pub fn message(&self) -> (m: String)
        ensures
            m@ == match self {
                JqError::Parse(e) => "jq parse error: "@ + e@,
                JqError::Compile(e) => "jq compile error: "@ + e@,
                JqError::Input(e) => "jq input error: "@ + e@,
                JqError::Runtime(e) => "jq runtime error: "@ + e@,
            },
    {
        let (mut m, e) = match self {
            JqError::Parse(e) => (lit("jq parse error: "), e),
            JqError::Compile(e) => (lit("jq compile error: "), e),
            JqError::Input(e) => (lit("jq input error: "), e),
            JqError::Runtime(e) => (lit("jq runtime error: "), e),
        };
        append(&mut m, e.as_str());
        m
    }
}

/// Whether jaq parses and compiles the filter text `filter` (with its core, standard and
/// JSON definitions).
pub uninterp spec fn jq_compiles(filter: Seq<char>) -> bool;

/// Whether `jaq_json::read::parse_single` reads the text `json`.
pub uninterp spec fn jq_reads(json: Seq<char>) -> bool;

/// Parses and compiles `filter` with jaq (its core, standard and JSON definitions); says why
/// when it fails. The answer is named by the text alone.
#[verifier::external_body]
fn jq_check(filter: &str) -> (r: Result<(), JqError>)
    ensures
        r is Ok <==> jq_compiles(filter@),
        r matches Err(e) ==> e is Parse || e is Compile,
{
    let arena = Arena::default();
    let modules = Loader::new(core_defs().chain(std_defs()).chain(json_defs())).load(&arena, File { code: filter, path: () }).map_err(|e| JqError::Parse(format!("{e:?}")))?;
    Compiler::default().with_funs(core_funs::<JustLut<Val>>().chain(std_funs()).chain(json_funs())).compile(modules).map_err(|e| JqError::Compile(format!("{e:?}")))?;
    Ok(())
}

/// Reads `json` with `jaq_json::read::parse_single`, keeping only whether it reads and why
/// not. The answer is named by the text alone.
#[verifier::external_body]
fn jq_read_check(json: &str) -> (r: Result<(), JqError>)
    ensures
        r is Ok <==> jq_reads(json@),
        r matches Err(e) ==> e is Input,
{
    parse_single(json.as_bytes()).map(|_| ()).map_err(|e| JqError::Input(e.to_string()))
}

/// Gets a `jq` filter ready to run on a node: a filter that does not parse or compile gives
/// that error; otherwise the node's compact JSON text (`crate::json::to_json_text`) is what
/// the filter is to run on, once jaq has read it. The run itself is made by the caller: a jq
/// filter may never end (`last(repeat(1))`), which no verified function could promise. Its
/// outputs, read back as nodes, are combined with `collect_outputs`.
pub fn jq_prepare(input: &JNode, filter: &str) -> (r: Result<String, JqError>)
    ensures
        !jq_compiles(filter@) <==> (r matches Err(e) && (e is Parse || e is Compile)),
        jq_compiles(filter@) && !jq_reads(json_text(*input)) ==> r matches Err(JqError::Input(_)),
        jq_compiles(filter@) && jq_reads(json_text(*input)) ==> (r matches Ok(t) && t@ == json_text(*input)),
{
    match jq_check(filter) {
        Ok(()) => {},
        Err(e) => {
            return Err(e);
        },
    }
    let text = to_json_text(input);
    match jq_read_check(text.as_str()) {
        Ok(()) => {},
        Err(e) => {
            return Err(e);
        },
    }
    Ok(text)
}

/// The `jq` plugin: the filter, made ready by `jq_prepare`, run on the selected node, its
/// outputs combined with `collect_outputs`.
pub struct JqPlugin;

impl JqPlugin {
    /// The plugin's name in the menu.
    pub fn name(&self) -> (r: &'static str)
        ensures
            r@ == "jq"@,
    {
        "jq"
    }

    /// The label above the argument input.
    pub fn prompt(&self) -> (r: &'static str)
        ensures
            r@ == "jq filter:"@,
    {
        "jq filter:"
    }
}

} // verus!
