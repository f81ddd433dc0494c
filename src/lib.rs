use vstd::prelude::*;

pub mod ast;
pub mod grammar;
pub mod lexer;
pub mod parser;
pub mod serializer;
pub mod tree;

use crate::ast::Markup;
use crate::lexer::tokens_of;
use crate::grammar::{document_diagnostics, document_events, well_formed, MAX_GRAMMAR_DEPTH};
use crate::parser::{parse_tree, diagnostics_justified};
use crate::serializer::{serialize, rendering};
use crate::tree::{Diagnostic, Limits, NodeKind, ParseError, SyntaxTree, is_tree, leaf_text};

verus! {

/// The result of parsing a document: its tree, the tree's serialized form,
/// and the diagnostics met on the way.
#[derive(Clone, Debug)]
pub struct Parsed {
    pub tree: SyntaxTree,
    pub serialized: String,
    pub diagnostics: Vec<Diagnostic>,
}

/// The serialized form of the tree of a document.
pub open spec fn serialized_form(source: Seq<char>) -> Seq<char> {
    rendering(document_events(source, tokens_of(source)), source)
}

/// Parsing is deterministic: equal sources have byte-identical serialized
/// forms, whatever else differs between the calls.
pub proof fn lemma_parse_deterministic(a: Seq<char>, b: Seq<char>)
    requires
        a == b,
    ensures
        serialized_form(a) == serialized_form(b),
{
}

/// Relies on std's `str::chars`: collecting them yields the characters of
/// the string in order.
#[verifier::external_body]
fn chars_of(s: &str) -> (v: Vec<char>)
    ensures
        v@ == s@,
{
    s.chars().collect()
}

/// Parses `source` within the given limits.
pub fn parse_with_limits(source: &str, limits: Limits) -> (r: Result<Parsed, ParseError>)
    ensures
        r matches Ok(p) ==> {
            &&& p.tree.events@ == document_events(source@, tokens_of(source@))
            &&& is_tree(p.tree.events@, NodeKind::Markup)
            &&& leaf_text(p.tree.events@, source@) == source@
            &&& p.serialized@ == serialized_form(source@)
            &&& p.diagnostics@ == document_diagnostics(source@)
            &&& diagnostics_justified(source@, p.diagnostics@)
            &&& well_formed(source@) ==> p.diagnostics@.len() == 0
        },
        r is Err ==> r == Err::<Parsed, ParseError>(ParseError::ResourceExceeded),
        limits.max_depth >= MAX_GRAMMAR_DEPTH && source@.len() <= limits.max_tokens ==> r is Ok,
{
    let src = chars_of(source);
    match parse_tree(&src, limits) {
        Ok((tree, diagnostics)) => {
            let serialized = serialize(&tree, &src);
            Ok(Parsed { tree, serialized, diagnostics })
        },
        Err(e) => Err(e),
    }
}

/// Parses `source` within the default limits: it succeeds on every input of
/// up to a million characters.
pub fn parse(source: &str) -> (r: Result<Parsed, ParseError>)
    ensures
        r matches Ok(p) ==> {
            &&& p.tree.events@ == document_events(source@, tokens_of(source@))
            &&& is_tree(p.tree.events@, NodeKind::Markup)
            &&& leaf_text(p.tree.events@, source@) == source@
            &&& p.serialized@ == serialized_form(source@)
            &&& p.diagnostics@ == document_diagnostics(source@)
            &&& diagnostics_justified(source@, p.diagnostics@)
            &&& well_formed(source@) ==> p.diagnostics@.len() == 0
        },
        r is Err ==> r == Err::<Parsed, ParseError>(ParseError::ResourceExceeded),
        source@.len() <= 1_000_000 ==> r is Ok,
{
    parse_with_limits(source, Limits::default_limits())
}

/// Parses a document and returns the serialized form of its tree, viewed
/// from its `Markup` root.
pub fn parse_typst_to_ast(input: &str) -> (r: Result<String, ParseError>)
    ensures
        r matches Ok(s) ==> s@ == serialized_form(input@),
        r is Err ==> r == Err::<String, ParseError>(ParseError::ResourceExceeded),
        input@.len() <= 1_000_000 ==> r is Ok,
{
    let parsed = match parse(input) {
        Ok(p) => p,
        Err(e) => {
            return Err(e);
        },
    };
    match Markup::from_untyped(&parsed.tree) {
        Ok(_) => {},
        Err(e) => {
            return Err(e);
        },
    }
    Ok(parsed.serialized)
}

} // verus!
