//! A small declarative markup language for describing trees of UI elements,
//! together with the pipeline that turns source text into a generic UI-node
//! tree: lexing, pre-parse validation, recursive-descent parsing, and
//! materialization against externally supplied resource handles.

use vstd::prelude::*;

pub mod dom_create;
pub mod parse;
pub mod resources;
pub mod tokenize;

use crate::dom_create::{Dom, DomModel, ImageRegistry, ResourceError, TextId, create_dom,
    dom_view, images_view, spec_create_dom};
use crate::parse::{ASTPoint, ast_view};
use std::collections::VecDeque;

verus! {

/// Materializes the tree against a fresh copy of the supplied handle queue,
/// leaving the queue itself intact for further materializations of the same
/// tree.
pub fn consume_ast(
    syntax_tree: &ASTPoint,
    texts: &VecDeque<TextId>,
    info_source: &ImageRegistry,
) -> (r: Result<Dom, ResourceError>)
    ensures
        match r {
            Ok(d) => ({
                let sp = spec_create_dom(
                    ast_view(*syntax_tree),
                    texts@,
                    images_view(info_source.entries@),
                );
                &&& sp matches Ok(p)
                &&& p.0 == dom_view(d)
            }),
            Err(e) => spec_create_dom(
                ast_view(*syntax_tree),
                texts@,
                images_view(info_source.entries@),
            ) == Err::<(DomModel, Seq<TextId>), ResourceError>(e),
        },
{
    let mut q = texts.clone();
    proof {
        assert(q@ =~= texts@);
    }
    create_dom(syntax_tree, &mut q, info_source)
}

} // verus!
