//! A small templating language: plain text with directive blocks between
//! `{{` and `}}` that assign variables, print, branch and loop.
pub mod ast;
pub mod evaluator;
pub mod laws;
pub mod md_lexer;
pub mod md_parser;
pub mod parser_laws;
pub mod symbol;
pub mod text;

use crate::ast::StatementView;
use crate::evaluator::{
    run_block, EvalError, EvalErrorView, Evaluator, Run, Scope,
};
use crate::md_lexer::{scan_spec, token_views, LexerError, MdLexer, TokenView};
use crate::md_parser::{parse_spec, MdParser, ParseError};
use crate::symbol::SymbolView;
use vstd::prelude::*;

verus! {

/// Why a document cannot be rendered: the pass that failed, with its error.
#[derive(Debug, PartialEq)]
pub enum RenderError {
    Lex(LexerError),
    Parse(ParseError),
    Eval(EvalError),
}

/// `RenderError` as a mathematical value.
pub enum RenderErrorView {
    Lex(TokenView),
    Parse(ParseError),
    Eval(EvalErrorView),
}

impl View for RenderError {
    type V = RenderErrorView;

    open spec fn view(&self) -> RenderErrorView {
        match self {
            RenderError::Lex(e) => RenderErrorView::Lex(e@),
            RenderError::Parse(e) => RenderErrorView::Parse(*e),
            RenderError::Eval(e) => RenderErrorView::Eval(e@),
        }
    }
}

/// What one document gives: the text it renders to, and the global
/// variables as it leaves them.
pub struct Rendered {
    pub text: Seq<char>,
    pub globals: Map<Seq<char>, SymbolView>,
}

/// The statements of the document `document`.
pub open spec fn statements_of(document: Seq<char>) -> Result<Seq<StatementView>, RenderErrorView> {
    match scan_spec(document) {
        Err(t) => Err(RenderErrorView::Lex(t)),
        Ok(tokens) => match parse_spec(tokens.drop_last()) {
            Err(e) => Err(RenderErrorView::Parse(e)),
            Ok(statements) => Ok(statements),
        },
    }
}

/// One pass over the document `document`, on the global variables `globals`
/// and no local ones: it is scanned, parsed and run, and the first pass that
/// fails gives the error.
pub open spec fn render_pass(document: Seq<char>, globals: Map<Seq<char>, SymbolView>) -> Result<
    Rendered,
    RenderErrorView,
> {
    match statements_of(document) {
        Err(e) => Err(e),
        Ok(statements) => {
            let end = run_block(
                statements,
                Run { globals, locals: Map::empty(), output: Seq::empty(), error: None },
            );
            match end.error {
                Some(x) => Err(RenderErrorView::Eval(x)),
                None => Ok(Rendered { text: end.output, globals: end.globals }),
            }
        },
    }
}

/// What the document `document` renders to. With a preamble, the preamble
/// is rendered first, on no variables; its text is dropped, and the document
/// is rendered on the global variables that the preamble leaves.
pub open spec fn render_spec(document: Seq<char>, preamble: Option<Seq<char>>) -> Result<
    Seq<char>,
    RenderErrorView,
> {
    let seeded = match preamble {
        None => Ok(Rendered { text: Seq::empty(), globals: Map::empty() }),
        Some(p) => render_pass(p, Map::empty()),
    };
    match seeded {
        Err(e) => Err(e),
        Ok(seed) => match render_pass(document, seed.globals) {
            Err(e) => Err(e),
            Ok(rendered) => Ok(rendered.text),
        },
    }
}

/// Renders `document` on the global variables `globals` and returns its
/// text with the global variables as it leaves them.
pub fn render_with(document: &str, globals: Scope) -> (r: Result<(String, Scope), RenderError>)
    ensures
        match render_pass(document@, globals@) {
            Ok(rendered) => r matches Ok(pair) && pair.0@ == rendered.text && pair.1@
                == rendered.globals,
            Err(x) => r matches Err(e) && e@ == x,
        },
{
    let mut lexer = MdLexer::new(document);
    assert(token_views(lexer.pending()) =~= Seq::<TokenView>::empty());
    match lexer.scan_tokens() {
        Ok(end) => {
            assert(token_views(lexer.pending()).push(end@).drop_last() =~= token_views(
                lexer.pending(),
            ));
        },
        Err(e) => {
            return Err(RenderError::Lex(e));
        },
    }
    let mut parser = MdParser::new(lexer.into_tokens());
    let statements = match parser.parse() {
        Ok(s) => s,
        Err(e) => {
            return Err(RenderError::Parse(e));
        },
    };
    let mut evaluator = Evaluator::new(globals);
    match evaluator.render(&statements) {
        Ok(text) => Ok((text, evaluator.globals)),
        Err(e) => Err(RenderError::Eval(e)),
    }
}

/// Renders `document`, after `preamble` where there is one.
pub fn render(document: &str, preamble: Option<&str>) -> (r: Result<String, RenderError>)
    ensures
        match render_spec(
            document@,
            match preamble {
                Some(p) => Some(p@),
                None => None,
            },
        ) {
            Ok(text) => r matches Ok(s) && s@ == text,
            Err(x) => r matches Err(e) && e@ == x,
        },
{
    let globals = match preamble {
        None => Scope::new(),
        Some(p) => match render_with(p, Scope::new()) {
            Ok(pair) => pair.1,
            Err(e) => {
                return Err(e);
            },
        },
    };
    match render_with(document, globals) {
        Ok(pair) => Ok(pair.0),
        Err(e) => Err(e),
    }
}

} // verus!
