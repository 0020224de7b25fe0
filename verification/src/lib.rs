//! A block-state compiler: it turns a declarative description of block
//! property domains and block definitions into a dense, gap-free, bijective
//! mapping between blocks with field values and flat 32-bit state ids.
//!
//! The pipeline runs in one deterministic pass: the definition text is
//! tokenized and parsed, property domains are built with stable zero-based
//! ordinals, block descriptors are resolved against the domain table, every
//! block is assigned a contiguous range of state ids, and the result can be
//! encoded and decoded with a mixed-radix positional code, or bound to an
//! external registry of canonical block names.

use vstd::prelude::*;

pub mod bridge;
pub mod compile;
pub mod definition;
pub mod disconnect;
pub mod radix;
pub mod registry;
pub mod strutil;
pub mod token;

verus! {

use crate::compile::{compiled_from, defs_ok, CompileError};
use crate::definition::{definition_at, MakeBlockStates};
use crate::registry::BlockStateRegistry;
use crate::token::{tokenize, tokens_from, ParseError, ParseErrorKind, Token};

/// Anything that can stop a compilation: a syntactic deviation with its
/// location, or a fatal definition error.
pub enum BlockStatesError {
    Parse(ParseError),
    Compile(CompileError),
}

/// Compiles a block-state definition text into the state tables.
///
/// This is the whole pipeline in one deterministic pass: tokenize, parse
/// the two-section grammar, and compile. On success the returned registry
/// is exactly the compilation of a valid definition set that spells the
/// whole input's token sequence (`definition_at` ties the definitions to
/// the tokens, `compiled_from` ties the tables to the definitions), so it
/// satisfies the registry invariant: contiguous block ranges starting at
/// 0 whose union is exactly the state-id space, a well-formed domain
/// table, and a recorded default state id inside every block's range.
/// Any failure is fatal and carries its location or the offending names;
/// there is no partial result.
pub fn make_block_states(input: &str) -> (r: Result<BlockStateRegistry, BlockStatesError>)
    ensures
        r is Ok ==> r->Ok_0.wf(),
        r is Ok ==> exists|tokens: Seq<Token>, defs: MakeBlockStates|
            {
                &&& tokens_from(input@, 0, tokens)
                &&& #[trigger] definition_at(tokens, 0, defs, tokens.len() as int)
                &&& defs_ok(defs)
                &&& compiled_from(defs, r->Ok_0)
            },
{
    let tokens = match tokenize(input) {
        Ok(t) => t,
        Err(e) => {
            return Err(BlockStatesError::Parse(e));
        },
    };
    let (defs, end) = match MakeBlockStates::parse(&tokens, 0) {
        Ok(t) => t,
        Err(e) => {
            return Err(BlockStatesError::Parse(e));
        },
    };
    if end != tokens.len() {
        return Err(
            BlockStatesError::Parse(
                ParseError { position: end, kind: ParseErrorKind::UnexpectedToken },
            ),
        );
    }
    match crate::compile::compile(&defs) {
        Ok(reg) => {
            proof {
                assert(tokens_from(input@, 0, tokens@));
                assert(definition_at(tokens@, 0, defs, tokens@.len() as int));
                assert(defs_ok(defs));
                assert(compiled_from(defs, reg));
            }
            Ok(reg)
        },
        Err(e) => Err(BlockStatesError::Compile(e)),
    }
}

} // verus!
