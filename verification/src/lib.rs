//! A position-annotated parser for object-rooted JSON text with `//` line
//! comments, and a small path-query engine over the parsed tree.
//!
//! Text is split into tokens that carry exact source ranges, the tokens are
//! built into an arena-backed [`tree::Tree`], and paths made of object keys,
//! array indices and wildcards are evaluated against that tree.
//!
//! Every function is verified against a mathematical definition of its
//! result: [`parser::tokenize::tokenize_spec`] for the tokens of a text,
//! [`parser::parse::build_tree`] for the tree of some tokens,
//! [`document_tree`] for the tree of a text, and
//! [`tree::TreeView::resolve`] for the entries that a path leads to. On top
//! of these definitions the crate proves what one relies on when using it:
//!
//! - every token, entry and key record stands in the text where its range
//!   says ([`parser::spans`], [`locations`]), and tokens come in the order of
//!   the text ([`parser::order`]);
//! - a tree that is built is well formed, with the root as its last entry
//!   ([`parser::shape`]);
//! - comments change nothing but ranges ([`comments`], [`parser::alike`]);
//! - from the tokens of a JSON object the builder makes a tree that stands
//!   for that object ([`meaning`]), and an object that is written out in the
//!   compact form is read back ([`writing`]).
//!
//! A number that is not a 64-bit integer is kept as it was written; the
//! library itself holds no floating-point value.
pub mod comments;
pub mod locations;
pub mod meaning;
pub mod parser;
pub mod tree;
pub mod types;
pub mod writing;

use locations::{lemma_tree_fits_source, tree_fits_source};
use parser::parse::build_tree;
use parser::tokenize::{token_views, tokenize_spec, TokenType, TokenView};
use tree::{Tree, TreeView};
use types::{ParseError, ParseResult};
use vstd::prelude::*;

verus! {

/// The tokens that are not comments, in order.
pub open spec fn without_comments(tokens: Seq<TokenView>) -> Seq<TokenView>
    decreases tokens.len(),
{
    if tokens.len() == 0 {
        Seq::empty()
    } else if tokens.last() is Comment {
        without_comments(tokens.drop_last())
    } else {
        without_comments(tokens.drop_last()).push(tokens.last())
    }
}

/// The tree that a text stands for: its tokens are taken, the comments among
/// them are dropped, and the rest is built into a tree. The first failure is
/// the result.
pub open spec fn document_tree(text: Seq<char>) -> Result<TreeView, ParseError> {
    match tokenize_spec(text) {
        Ok(tokens) => build_tree(without_comments(tokens)),
        Err(e) => Err(e),
    }
}

/// Drops the comments from a sequence of tokens.
pub fn strip_comments(tokens: Vec<TokenType>) -> (kept: Vec<TokenType>)
    ensures
        token_views(kept@) == without_comments(token_views(tokens@)),
{
    let ghost views = token_views(tokens@);
    let mut kept: Vec<TokenType> = Vec::new();
    assert(token_views(kept@) =~= Seq::<TokenView>::empty());
    assert(views.take(0) =~= Seq::<TokenView>::empty());
    for token in it: tokens
        invariant
            views == token_views(it.seq()),
            token_views(kept@) == without_comments(views.take(it.index())),
    {
        proof {
            assert(views.take(it.index() + 1).drop_last() =~= views.take(it.index()));
            assert(views[it.index()] == token@);
            parser::tokenize::lemma_token_views_push(kept@, token);
        }
        match token {
            TokenType::Comment(_, _) => {},
            token => {
                kept.push(token);
            },
        }
    }
    proof {
        assert(views.take(views.len() as int) =~= views);
    }
    kept
}

/// Parses a JSON text.
///
/// The text has to hold one object; `//` comments may stand wherever no
/// token is under way. Fails with `InvalidType` at a malformed number or
/// literal, and as [`parser::parse::parse_json`] does where the tokens do not
/// nest as they should; it never fails with `FileNotFound`.
///
/// The tree that is returned is well formed, its last entry is the object
/// of the document, and every entry and key record of it stands in the text
/// where its range says.
pub fn parse_json(text: &str) -> (result: ParseResult<Tree>)
    ensures
        match document_tree(text@) {
            Ok(tree) => result is Ok && result->Ok_0@ == tree,
            Err(e) => result == Err::<Tree, ParseError>(e),
        },
        result matches Ok(tree) ==> tree@.wf() && tree@.rooted(),
        result matches Ok(tree) ==> tree_fits_source(text@, tree@),
        result matches Err(e) ==> e != ParseError::FileNotFound,
{
    let chars = parser::tokenize::chars_of(text);
    proof {
        assert(chars@.len() == chars.len());
        lemma_tree_fits_source(text@);
    }
    match parser::tokenize::tokenize_chars(&chars) {
        Ok(tokens) => {
            let filtered_tokens = strip_comments(tokens);
            parser::parse::parse_json(filtered_tokens.as_slice())
        },
        Err(e) => Err(e),
    }
}

} // verus!
