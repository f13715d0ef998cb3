//! The parser: turns tokens into statements.
use crate::ast::{
    lemma_statement_views_push, lemma_expr_views_push, statement_views, expr_views, EndMarker,
    Expr, ExprView, Statement, StatementView,
};
use crate::md_lexer::{token_views, MdToken, MdTokenType, TokenKind, TokenView};
use crate::symbol::{Symbol, SymbolView};
use crate::text::{is_word, push_char};
use std::collections::VecDeque;
use vstd::prelude::*;

verus! {

/// Why tokens are no document.
#[derive(Debug, Clone, Copy, PartialEq, Eq, Structural)]
pub enum ParseError {
    /// A token that the grammar asks for at this place is not there.
    MissingToken,
    /// An assignment lacks its `:=`, its value or its `;;`.
    MalformedAssignment,
    /// A condition is no boolean expression.
    InvalidCondition,
    /// A block is closed that was not opened, or not closed at all.
    UnbalancedNesting,
    /// Blocks or parentheses are nested deeper than `MAX_NESTING`.
    NestingTooDeep,
}

/// How deep blocks and parentheses may be nested.
pub const MAX_NESTING: usize = 64;

/// What a parse gives: a value or an error, and the tokens it has left.
pub struct Parsed<T> {
    pub result: Result<T, ParseError>,
    pub rest: Seq<TokenView>,
}

/// The parse that gives `value` and leaves `rest`.
pub open spec fn done<T>(value: T, rest: Seq<TokenView>) -> Parsed<T> {
    Parsed { result: Ok(value), rest }
}

/// The parse that fails with `error` and leaves `rest`.
pub open spec fn fail<T>(error: ParseError, rest: Seq<TokenView>) -> Parsed<T> {
    Parsed { result: Err(error), rest }
}

/// `rest` without its first token, where it has one.
pub open spec fn after(rest: Seq<TokenView>) -> Seq<TokenView> {
    if rest.len() > 0 {
        rest.drop_first()
    } else {
        rest
    }
}

/// Whether the first token of `rest` is the word `word`.
pub open spec fn starts_with_word(rest: Seq<TokenView>, word: Seq<char>) -> bool {
    rest.len() > 0 && rest[0].kind == TokenKind::Identifier(word)
}

/// The rest of a chain of strings joined by `.`, after the strings in
/// `parts`: each `.` is followed by a string, and `;;` ends the chain.
pub open spec fn parse_string_spec(rest: Seq<TokenView>, parts: Seq<ExprView>) -> Parsed<
    Seq<ExprView>,
>
    decreases rest.len(),
{
    if rest.len() == 0 {
        fail(ParseError::MissingToken, rest)
    } else {
        let r1 = rest.drop_first();
        match rest[0].kind {
            TokenKind::EndStatement => done(parts, r1),
            TokenKind::Operator(c) => if c != '.' {
                fail(ParseError::MissingToken, r1)
            } else if r1.len() == 0 {
                fail(ParseError::MissingToken, r1)
            } else {
                match r1[0].kind {
                    TokenKind::String(s) => parse_string_spec(
                        r1.drop_first(),
                        parts.push(ExprView::Quoted(s)),
                    ),
                    _ => fail(ParseError::MissingToken, r1.drop_first()),
                }
            },
            _ => fail(ParseError::MissingToken, r1),
        }
    }
}

/// The statement `statement`, where `;;` follows it.
pub open spec fn terminated(statement: StatementView, rest: Seq<TokenView>) -> Parsed<
    StatementView,
> {
    if rest.len() > 0 && rest[0].kind is EndStatement {
        done(statement, rest.drop_first())
    } else {
        fail(ParseError::MalformedAssignment, after(rest))
    }
}

/// An assignment to `name`, whose tokens after the name are in `rest`:
/// `:=`, a value and `;;`. The value is a chain of strings, or the text of a
/// value: a list, a number with or without a sign, or a word.
pub open spec fn parse_assignment_spec(name: Seq<char>, rest: Seq<TokenView>) -> Parsed<
    StatementView,
> {
    if rest.len() == 0 {
        fail(ParseError::MalformedAssignment, rest)
    } else if !(rest[0].kind is Assign) {
        fail(ParseError::MalformedAssignment, rest.drop_first())
    } else if rest.len() == 1 {
        fail(ParseError::MalformedAssignment, rest.drop_first())
    } else {
        let value = rest[1];
        let r2 = rest.drop_first().drop_first();
        match value.kind {
            TokenKind::String(s) => {
                let chain = parse_string_spec(r2, seq![ExprView::Quoted(s)]);
                match chain.result {
                    Ok(parts) => done(
                        StatementView::Assignment(name, ExprView::Concat(parts)),
                        chain.rest,
                    ),
                    Err(e) => fail(e, chain.rest),
                }
            },
            TokenKind::List(text) => terminated(
                StatementView::Assignment(name, ExprView::Raw(text)),
                r2,
            ),
            TokenKind::Number(_) => terminated(
                StatementView::Assignment(name, ExprView::Raw(value.lexem)),
                r2,
            ),
            TokenKind::Identifier(text) => terminated(
                StatementView::Assignment(name, ExprView::Raw(text)),
                r2,
            ),
            TokenKind::Operator(c) => if c != '-' && c != '+' {
                fail(ParseError::MalformedAssignment, r2)
            } else if r2.len() > 0 && r2[0].kind is Number {
                terminated(
                    StatementView::Assignment(name, ExprView::Raw(seq![c] + r2[0].lexem)),
                    r2.drop_first(),
                )
            } else {
                fail(ParseError::MalformedAssignment, after(r2))
            },
            _ => fail(ParseError::MalformedAssignment, r2),
        }
    }
}

/// A print statement, whose tokens after `print` are in `rest`: a chain of
/// strings, or the name of a variable with or without `$`.
pub open spec fn parse_print_spec(rest: Seq<TokenView>) -> Parsed<StatementView> {
    if rest.len() == 0 {
        fail(ParseError::MissingToken, rest)
    } else {
        let r1 = rest.drop_first();
        match rest[0].kind {
            TokenKind::String(s) => {
                let chain = parse_string_spec(r1, seq![ExprView::Quoted(s)]);
                match chain.result {
                    Ok(parts) => done(
                        StatementView::PrintStatement(ExprView::Concat(parts), true),
                        chain.rest,
                    ),
                    Err(e) => fail(e, chain.rest),
                }
            },
            TokenKind::Dereference => done(
                StatementView::PrintStatement(ExprView::Identifier(rest[0].lexem), true),
                r1,
            ),
            TokenKind::Identifier(name) => done(
                StatementView::PrintStatement(ExprView::Identifier(name), true),
                r1,
            ),
            _ => fail(ParseError::MissingToken, r1),
        }
    }
}

/// An operand of a condition: `true`, `false`, a variable written with `$`,
/// or a condition in parentheses.
pub open spec fn parse_atom_spec(rest: Seq<TokenView>, depth: nat) -> Parsed<ExprView>
    decreases rest.len(), 0nat,
{
    if rest.len() == 0 {
        fail(ParseError::InvalidCondition, rest)
    } else {
        let r1 = rest.drop_first();
        match rest[0].kind {
            TokenKind::True => done(ExprView::Litteral(SymbolView::Boolean(true)), r1),
            TokenKind::False => done(ExprView::Litteral(SymbolView::Boolean(false)), r1),
            TokenKind::Dereference => done(ExprView::Identifier(rest[0].lexem), r1),
            TokenKind::Operator(c) => if c != '(' {
                fail(ParseError::InvalidCondition, r1)
            } else if depth >= MAX_NESTING {
                fail(ParseError::NestingTooDeep, r1)
            } else {
                let inner = parse_or_spec(r1, depth + 1);
                match inner.result {
                    Err(e) => fail(e, inner.rest),
                    Ok(e) => if inner.rest.len() > 0 && inner.rest[0].kind
                        == TokenKind::Operator(')') {
                        done(e, inner.rest.drop_first())
                    } else {
                        fail(ParseError::InvalidCondition, after(inner.rest))
                    },
                }
            },
            _ => fail(ParseError::InvalidCondition, r1),
        }
    }
}

/// An operand with any number of `not` before it.
pub open spec fn parse_not_spec(rest: Seq<TokenView>, depth: nat) -> Parsed<ExprView>
    decreases rest.len(), 1nat,
{
    if starts_with_word(rest, "not"@) {
        let inner = parse_not_spec(rest.drop_first(), depth);
        match inner.result {
            Ok(e) => done(ExprView::Not(Box::new(e)), inner.rest),
            Err(e) => fail(e, inner.rest),
        }
    } else {
        parse_atom_spec(rest, depth)
    }
}

/// The rest of a conjunction after the operands in `operands`: as long as
/// `and` follows, one operand more.
///
/// An operand always takes a token; the test on the lengths only tells the
/// recursion so.
pub open spec fn parse_and_rest(rest: Seq<TokenView>, depth: nat, operands: Seq<ExprView>) -> Parsed<
    ExprView,
>
    decreases rest.len(), 2nat,
{
    if starts_with_word(rest, "and"@) {
        let next = parse_not_spec(rest.drop_first(), depth);
        match next.result {
            Ok(e) => if next.rest.len() < rest.len() {
                parse_and_rest(next.rest, depth, operands.push(e))
            } else {
                fail(ParseError::InvalidCondition, next.rest)
            },
            Err(e) => fail(e, next.rest),
        }
    } else {
        done(ExprView::And(operands), rest)
    }
}

/// A conjunction: operands joined by `and`.
pub open spec fn parse_and_spec(rest: Seq<TokenView>, depth: nat) -> Parsed<ExprView>
    decreases rest.len(), 3nat,
{
    let first = parse_not_spec(rest, depth);
    match first.result {
        Ok(e) => if first.rest.len() <= rest.len() {
            parse_and_rest(first.rest, depth, seq![e])
        } else {
            fail(ParseError::InvalidCondition, first.rest)
        },
        Err(e) => fail(e, first.rest),
    }
}

/// The rest of a disjunction after the operands in `operands`: as long as
/// `or` follows, one conjunction more.
pub open spec fn parse_or_rest(rest: Seq<TokenView>, depth: nat, operands: Seq<ExprView>) -> Parsed<
    ExprView,
>
    decreases rest.len(), 4nat,
{
    if starts_with_word(rest, "or"@) {
        let next = parse_and_spec(rest.drop_first(), depth);
        match next.result {
            Ok(e) => if next.rest.len() < rest.len() {
                parse_or_rest(next.rest, depth, operands.push(e))
            } else {
                fail(ParseError::InvalidCondition, next.rest)
            },
            Err(e) => fail(e, next.rest),
        }
    } else {
        done(ExprView::Or(operands), rest)
    }
}

/// A condition: conjunctions joined by `or`. So `not` binds tighter than
/// `and`, and `and` tighter than `or`.
pub open spec fn parse_or_spec(rest: Seq<TokenView>, depth: nat) -> Parsed<ExprView>
    decreases rest.len(), 5nat,
{
    let first = parse_and_spec(rest, depth);
    match first.result {
        Ok(e) => if first.rest.len() <= rest.len() {
            parse_or_rest(first.rest, depth, seq![e])
        } else {
            fail(ParseError::InvalidCondition, first.rest)
        },
        Err(e) => fail(e, first.rest),
    }
}

/// The statement that `rest` starts with. The end of the tokens and the
/// keywords that close a block are statements of their own here, and so is
/// the token that starts nothing: it is passed over.
pub open spec fn parse_statement_spec(rest: Seq<TokenView>, depth: nat) -> Parsed<StatementView>
    decreases rest.len(), 1nat,
{
    if rest.len() == 0 {
        done(StatementView::End(EndMarker::EndOfFile), rest)
    } else {
        let r1 = rest.drop_first();
        match rest[0].kind {
            TokenKind::EndOfFile => done(StatementView::End(EndMarker::EndOfFile), r1),
            TokenKind::MdText => done(
                StatementView::PrintStatement(
                    ExprView::Litteral(SymbolView::String(rest[0].lexem)),
                    false,
                ),
                r1,
            ),
            TokenKind::If => parse_if_spec(r1, depth),
            TokenKind::Print => parse_print_spec(r1),
            TokenKind::For => parse_for_spec(r1, depth),
            TokenKind::Endfor => done(StatementView::End(EndMarker::Endfor), r1),
            TokenKind::Endif => done(StatementView::End(EndMarker::Endif), r1),
            TokenKind::Else => done(StatementView::End(EndMarker::Else), r1),
            TokenKind::Identifier(name) => parse_assignment_spec(name, r1),
            _ => done(StatementView::Skip, r1),
        }
    }
}

/// The statements that `rest` starts with, after those in `body`, up to the
/// first that marks an end; and that mark.
///
/// A statement that is no end mark always takes a token; the test on the
/// lengths only tells the recursion so.
pub open spec fn parse_block_spec(
    rest: Seq<TokenView>,
    depth: nat,
    body: Seq<StatementView>,
) -> Parsed<(Seq<StatementView>, EndMarker)>
    decreases rest.len(), 2nat,
{
    let first = parse_statement_spec(rest, depth);
    match first.result {
        Err(e) => fail(e, first.rest),
        Ok(StatementView::End(marker)) => done((body, marker), first.rest),
        Ok(statement) => if first.rest.len() < rest.len() {
            parse_block_spec(
                first.rest,
                depth,
                if statement is Skip {
                    body
                } else {
                    body.push(statement)
                },
            )
        } else {
            fail(ParseError::UnbalancedNesting, first.rest)
        },
    }
}

/// A conditional, whose tokens after `if` are in `rest`: a condition,
/// `then`, statements up to `endif`, with or without `else` among them.
pub open spec fn parse_if_spec(rest: Seq<TokenView>, depth: nat) -> Parsed<StatementView>
    decreases rest.len(), 0nat,
{
    if depth >= MAX_NESTING {
        fail(ParseError::NestingTooDeep, rest)
    } else {
        let condition = parse_or_spec(rest, depth);
        match condition.result {
            Err(e) => fail(e, condition.rest),
            Ok(c) => if !(condition.rest.len() > 0 && condition.rest[0].kind is Then) {
                fail(ParseError::MissingToken, after(condition.rest))
            } else if condition.rest.len() > rest.len() {
                fail(ParseError::UnbalancedNesting, condition.rest)
            } else {
                let then_part = parse_block_spec(condition.rest.drop_first(), depth + 1, Seq::empty());
                match then_part.result {
                    Err(e) => fail(e, then_part.rest),
                    Ok((then_body, EndMarker::Endif)) => done(
                        StatementView::IfStatement(c, then_body, Seq::empty()),
                        then_part.rest,
                    ),
                    Ok((then_body, EndMarker::Else)) => if then_part.rest.len() >= rest.len() {
                        fail(ParseError::UnbalancedNesting, then_part.rest)
                    } else {
                        let else_part = parse_block_spec(then_part.rest, depth + 1, Seq::empty());
                        match else_part.result {
                            Err(e) => fail(e, else_part.rest),
                            Ok((else_body, EndMarker::Endif)) => done(
                                StatementView::IfStatement(c, then_body, else_body),
                                else_part.rest,
                            ),
                            Ok(_) => fail(ParseError::UnbalancedNesting, else_part.rest),
                        }
                    },
                    Ok(_) => fail(ParseError::UnbalancedNesting, then_part.rest),
                }
            },
        }
    }
}

/// What a loop runs over, as the token `token` names it: a variable, with or
/// without `$`, or a list.
pub open spec fn iterable_of(token: TokenView) -> Option<ExprView> {
    match token.kind {
        TokenKind::Dereference => Some(ExprView::Identifier(token.lexem)),
        TokenKind::Identifier(name) => Some(ExprView::Identifier(name)),
        TokenKind::List(text) => Some(ExprView::Raw(text)),
        _ => None,
    }
}

/// A loop, whose tokens after `for` are in `rest`: the name of a variable,
/// `in`, what to run over, `do`, and statements up to `endfor`.
pub open spec fn parse_for_spec(rest: Seq<TokenView>, depth: nat) -> Parsed<StatementView>
    decreases rest.len(), 0nat,
{
    if depth >= MAX_NESTING {
        fail(ParseError::NestingTooDeep, rest)
    } else if rest.len() == 0 {
        fail(ParseError::MissingToken, rest)
    } else {
        let r1 = rest.drop_first();
        if !(rest[0].kind is Identifier) {
            fail(ParseError::MissingToken, r1)
        } else if !(r1.len() > 0 && r1[0].kind is In) {
            fail(ParseError::MissingToken, after(r1))
        } else {
            let r2 = r1.drop_first();
            if r2.len() == 0 {
                fail(ParseError::MissingToken, r2)
            } else {
                let r3 = r2.drop_first();
                if iterable_of(r2[0]) is None {
                    fail(ParseError::MissingToken, r3)
                } else if !(r3.len() > 0 && r3[0].kind is Do) {
                    fail(ParseError::MissingToken, after(r3))
                } else {
                    let body = parse_block_spec(r3.drop_first(), depth + 1, Seq::empty());
                    match body.result {
                        Err(e) => fail(e, body.rest),
                        Ok((statements, EndMarker::Endfor)) => done(
                            StatementView::ForLoop(
                                rest[0].kind->Identifier_0,
                                iterable_of(r2[0])->0,
                                statements,
                            ),
                            body.rest,
                        ),
                        Ok(_) => fail(ParseError::UnbalancedNesting, body.rest),
                    }
                }
            }
        }
    }
}

/// The statements of a whole document: those that `tokens` start with, up
/// to the end of the tokens. A keyword that closes a block where none is
/// open is an error.
pub open spec fn parse_spec(tokens: Seq<TokenView>) -> Result<Seq<StatementView>, ParseError> {
    match parse_block_spec(tokens, 0, Seq::empty()).result {
        Err(e) => Err(e),
        Ok((statements, EndMarker::EndOfFile)) => Ok(statements),
        Ok(_) => Err(ParseError::UnbalancedNesting),
    }
}


/// Whether `r` is the expression or the error `p`.
pub open spec fn is_expr(r: Result<Expr, ParseError>, p: Result<ExprView, ParseError>) -> bool {
    match p {
        Ok(v) => r matches Ok(e) && e@ == v,
        Err(x) => r matches Err(y) && y == x,
    }
}

/// Whether `r` is the statement or the error `p`.
pub open spec fn is_statement(
    r: Result<Statement, ParseError>,
    p: Result<StatementView, ParseError>,
) -> bool {
    match p {
        Ok(v) => r matches Ok(s) && s@ == v,
        Err(x) => r matches Err(y) && y == x,
    }
}

/// A parser over the tokens of one document.
pub struct MdParser {
    tokens: VecDeque<MdToken>,
}

impl MdParser {
    /// The tokens not yet read.
    pub closed spec fn pending(&self) -> Seq<TokenView> {
        token_views(self.tokens@)
    }

    /// A parser that has all of `token_stream` to read.
    pub fn new(token_stream: VecDeque<MdToken>) -> (parser: Self)
        ensures
            parser.pending() == token_views(token_stream@),
    {
        MdParser { tokens: token_stream }
    }

    fn next(&mut self) -> (r: Option<MdToken>)
        ensures
            match r {
                Some(t) => old(self).pending().len() > 0 && t@ == old(self).pending()[0]
                    && final(self).pending() == old(self).pending().drop_first(),
                None => old(self).pending().len() == 0 && final(self).pending() == old(
                    self,
                ).pending(),
            },
    {
        let r = self.tokens.pop_front();
        assert(token_views(old(self).tokens@).len() > 0 ==> token_views(self.tokens@)
            =~= token_views(old(self).tokens@).drop_first());
        r
    }

    fn next_is_word(&self, word: &str) -> (r: bool)
        ensures
            r == starts_with_word(self.pending(), word@),
    {
        if self.tokens.len() == 0 {
            return false;
        }
        match &self.tokens[0].token_type {
            MdTokenType::Identifier(name) => is_word(name, word),
            _ => false,
        }
    }

    /// Reads the rest of a chain of strings joined by `.`, up to and with
    /// the `;;` that ends it, after the strings in `parts`.
    fn parse_string(&mut self, parts: Vec<Expr>) -> (r: Result<Vec<Expr>, ParseError>)
        ensures
            final(self).pending() == parse_string_spec(
                old(self).pending(),
                expr_views(parts@),
            ).rest,
            match parse_string_spec(old(self).pending(), expr_views(parts@)).result {
                Ok(v) => r matches Ok(all) && expr_views(all@) == v,
                Err(x) => r matches Err(y) && y == x,
            },
            final(self).pending().len() <= old(self).pending().len(),
    {
        let mut all = parts;
        loop
            invariant
                parse_string_spec(self.pending(), expr_views(all@)) == parse_string_spec(
                    old(self).pending(),
                    expr_views(parts@),
                ),
                self.pending().len() <= old(self).pending().len(),
            decreases self.pending().len(),
        {
            let tk = match self.next() {
                Some(t) => t,
                None => {
                    return Err(ParseError::MissingToken);
                },
            };
            match tk.token_type {
                MdTokenType::EndStatement => {
                    return Ok(all);
                },
                MdTokenType::Operator(c) => {
                    if c != '.' {
                        return Err(ParseError::MissingToken);
                    }
                    let nxt = match self.next() {
                        Some(t) => t,
                        None => {
                            return Err(ParseError::MissingToken);
                        },
                    };
                    match nxt.token_type {
                        MdTokenType::String(val) => {
                            proof {
                                lemma_expr_views_push(all@, Expr::Quoted(val));
                            }
                            all.push(Expr::Quoted(val));
                        },
                        _ => {
                            return Err(ParseError::MissingToken);
                        },
                    }
                },
                _ => {
                    return Err(ParseError::MissingToken);
                },
            }
        }
    }

    /// Reads the `;;` that ends an assignment.
    fn end_assignment(&mut self, statement: Statement) -> (r: Result<Statement, ParseError>)
        ensures
            final(self).pending() == terminated(statement@, old(self).pending()).rest,
            is_statement(r, terminated(statement@, old(self).pending()).result),
            final(self).pending().len() <= old(self).pending().len(),
    {
        match self.next() {
            Some(t) => match t.token_type {
                MdTokenType::EndStatement => Ok(statement),
                _ => Err(ParseError::MalformedAssignment),
            },
            None => Err(ParseError::MalformedAssignment),
        }
    }

    /// Reads an assignment to `identifier`, after the name.
    pub fn parse_assignment(&mut self, identifier: String) -> (r: Result<Statement, ParseError>)
        ensures
            final(self).pending() == parse_assignment_spec(identifier@, old(self).pending()).rest,
            is_statement(r, parse_assignment_spec(identifier@, old(self).pending()).result),
            final(self).pending().len() <= old(self).pending().len(),
    {
        let op = match self.next() {
            Some(t) => t,
            None => {
                return Err(ParseError::MalformedAssignment);
            },
        };
        match op.token_type {
            MdTokenType::Assign => {},
            _ => {
                return Err(ParseError::MalformedAssignment);
            },
        }
        let frst = match self.next() {
            Some(t) => t,
            None => {
                return Err(ParseError::MalformedAssignment);
            },
        };
        let MdToken { token_type, lexem, line: _ } = frst;
        match token_type {
            MdTokenType::String(val) => {
                match self.parse_string(one(Expr::Quoted(val))) {
                    Ok(parts) => {
                        Ok(Statement::Assignment(identifier, Expr::Concat(parts)))
                    },
                    Err(e) => Err(e),
                }
            },
            MdTokenType::List(text) => self.end_assignment(
                Statement::Assignment(identifier, Expr::Raw(text)),
            ),
            MdTokenType::Number(_) => self.end_assignment(
                Statement::Assignment(identifier, Expr::Raw(lexem)),
            ),
            MdTokenType::Identifier(text) => self.end_assignment(
                Statement::Assignment(identifier, Expr::Raw(text)),
            ),
            MdTokenType::Operator(c) => {
                if c != '-' && c != '+' {
                    return Err(ParseError::MalformedAssignment);
                }
                let number = match self.next() {
                    Some(t) => t,
                    None => {
                        return Err(ParseError::MalformedAssignment);
                    },
                };
                match number.token_type {
                    MdTokenType::Number(_) => {
                        let mut text = String::new();
                        push_char(&mut text, c);
                        text.append(number.lexem.as_str());
                        assert(text@ =~= seq![c] + number.lexem@);
                        self.end_assignment(Statement::Assignment(identifier, Expr::Raw(text)))
                    },
                    _ => Err(ParseError::MalformedAssignment),
                }
            },
            _ => Err(ParseError::MalformedAssignment),
        }
    }

    /// Reads a print statement, after `print`.
    pub fn parse_print_statement(&mut self) -> (r: Result<Statement, ParseError>)
        ensures
            final(self).pending() == parse_print_spec(old(self).pending()).rest,
            is_statement(r, parse_print_spec(old(self).pending()).result),
            final(self).pending().len() <= old(self).pending().len(),
    {
        let tk = match self.next() {
            Some(t) => t,
            None => {
                return Err(ParseError::MissingToken);
            },
        };
        let MdToken { token_type, lexem, line: _ } = tk;
        match token_type {
            MdTokenType::String(value) => {
                match self.parse_string(one(Expr::Quoted(value))) {
                    Ok(parts) => Ok(Statement::PrintStatement(Expr::Concat(parts), true)),
                    Err(e) => Err(e),
                }
            },
            MdTokenType::Dereference => Ok(
                Statement::PrintStatement(Expr::Identifier(lexem), true),
            ),
            MdTokenType::Identifier(name) => Ok(
                Statement::PrintStatement(Expr::Identifier(name), true),
            ),
            _ => Err(ParseError::MissingToken),
        }
    }

    /// Reads an operand of a condition.
    fn parse_atom(&mut self, depth: usize) -> (r: Result<Expr, ParseError>)
        ensures
            final(self).pending() == parse_atom_spec(old(self).pending(), depth as nat).rest,
            is_expr(r, parse_atom_spec(old(self).pending(), depth as nat).result),
            final(self).pending().len() <= old(self).pending().len(),
            r is Ok ==> final(self).pending().len() < old(self).pending().len(),
        decreases old(self).pending().len(), 0nat,
    {
        let tk = match self.next() {
            Some(t) => t,
            None => {
                return Err(ParseError::InvalidCondition);
            },
        };
        let MdToken { token_type, lexem, line: _ } = tk;
        match token_type {
            MdTokenType::True => Ok(Expr::Litteral(Symbol::Boolean(true))),
            MdTokenType::False => Ok(Expr::Litteral(Symbol::Boolean(false))),
            MdTokenType::Dereference => Ok(Expr::Identifier(lexem)),
            MdTokenType::Operator(c) => {
                if c != '(' {
                    return Err(ParseError::InvalidCondition);
                }
                if depth >= MAX_NESTING {
                    return Err(ParseError::NestingTooDeep);
                }
                let inner = match self.parse_expression(depth + 1) {
                    Ok(e) => e,
                    Err(e) => {
                        return Err(e);
                    },
                };
                match self.next() {
                    Some(t) => match t.token_type {
                        MdTokenType::Operator(d) => {
                            if d == ')' {
                                Ok(inner)
                            } else {
                                Err(ParseError::InvalidCondition)
                            }
                        },
                        _ => Err(ParseError::InvalidCondition),
                    },
                    None => Err(ParseError::InvalidCondition),
                }
            },
            _ => Err(ParseError::InvalidCondition),
        }
    }

    /// Reads an operand with the `not`s before it.
    fn parse_negation(&mut self, depth: usize) -> (r: Result<Expr, ParseError>)
        ensures
            final(self).pending() == parse_not_spec(old(self).pending(), depth as nat).rest,
            is_expr(r, parse_not_spec(old(self).pending(), depth as nat).result),
            final(self).pending().len() <= old(self).pending().len(),
            r is Ok ==> final(self).pending().len() < old(self).pending().len(),
        decreases old(self).pending().len(), 1nat,
    {
        if self.next_is_word("not") {
            self.next();
            match self.parse_negation(depth) {
                Ok(e) => Ok(Expr::Not(Box::new(e))),
                Err(e) => Err(e),
            }
        } else {
            self.parse_atom(depth)
        }
    }

    /// Reads operands joined by `and`.
    fn parse_conjunction(&mut self, depth: usize) -> (r: Result<Expr, ParseError>)
        ensures
            final(self).pending() == parse_and_spec(old(self).pending(), depth as nat).rest,
            is_expr(r, parse_and_spec(old(self).pending(), depth as nat).result),
            final(self).pending().len() <= old(self).pending().len(),
            r is Ok ==> final(self).pending().len() < old(self).pending().len(),
        decreases old(self).pending().len(), 3nat,
    {
        let first = match self.parse_negation(depth) {
            Ok(e) => e,
            Err(e) => {
                return Err(e);
            },
        };
        let mut operands = one(first);
        while self.next_is_word("and")
            invariant
                parse_and_rest(self.pending(), depth as nat, expr_views(operands@))
                    == parse_and_spec(old(self).pending(), depth as nat),
                self.pending().len() < old(self).pending().len(),
            decreases self.pending().len(),
        {
            self.next();
            match self.parse_negation(depth) {
                Ok(e) => {
                    proof {
                        lemma_expr_views_push(operands@, e);
                    }
                    operands.push(e);
                },
                Err(e) => {
                    return Err(e);
                },
            }
        }
        Ok(Expr::And(operands))
    }

    /// Reads a condition: conjunctions joined by `or`.
    pub fn parse_expression(&mut self, depth: usize) -> (r: Result<Expr, ParseError>)
        ensures
            final(self).pending() == parse_or_spec(old(self).pending(), depth as nat).rest,
            is_expr(r, parse_or_spec(old(self).pending(), depth as nat).result),
            final(self).pending().len() <= old(self).pending().len(),
            r is Ok ==> final(self).pending().len() < old(self).pending().len(),
        decreases old(self).pending().len(), 5nat,
    {
        let first = match self.parse_conjunction(depth) {
            Ok(e) => e,
            Err(e) => {
                return Err(e);
            },
        };
        let mut operands = one(first);
        while self.next_is_word("or")
            invariant
                parse_or_rest(self.pending(), depth as nat, expr_views(operands@)) == parse_or_spec(
                    old(self).pending(),
                    depth as nat,
                ),
                self.pending().len() < old(self).pending().len(),
            decreases self.pending().len(),
        {
            self.next();
            match self.parse_conjunction(depth) {
                Ok(e) => {
                    proof {
                        lemma_expr_views_push(operands@, e);
                    }
                    operands.push(e);
                },
                Err(e) => {
                    return Err(e);
                },
            }
        }
        Ok(Expr::Or(operands))
    }

    /// Reads one statement.
    pub fn parse_statement(&mut self, depth: usize) -> (r: Result<Statement, ParseError>)
        ensures
            final(self).pending() == parse_statement_spec(old(self).pending(), depth as nat).rest,
            is_statement(r, parse_statement_spec(old(self).pending(), depth as nat).result),
            final(self).pending().len() <= old(self).pending().len(),
            old(self).pending().len() > 0 ==> final(self).pending().len() < old(
                self,
            ).pending().len(),
        decreases old(self).pending().len(), 1nat,
    {
        let token = match self.next() {
            Some(t) => t,
            None => {
                return Ok(Statement::End(EndMarker::EndOfFile));
            },
        };
        let MdToken { token_type, lexem, line: _ } = token;
        match token_type {
            MdTokenType::EndOfFile => Ok(Statement::End(EndMarker::EndOfFile)),
            MdTokenType::MdText => Ok(
                Statement::PrintStatement(Expr::Litteral(Symbol::String(lexem)), false),
            ),
            MdTokenType::If => self.parse_if_statement(depth),
            MdTokenType::Print => self.parse_print_statement(),
            MdTokenType::For => self.parse_for_statement(depth),
            MdTokenType::Endfor => Ok(Statement::End(EndMarker::Endfor)),
            MdTokenType::Endif => Ok(Statement::End(EndMarker::Endif)),
            MdTokenType::Else => Ok(Statement::End(EndMarker::Else)),
            MdTokenType::Identifier(identifier) => self.parse_assignment(identifier),
            _ => Ok(Statement::Skip),
        }
    }

    /// Reads statements up to the first end mark, and returns them with the
    /// mark.
    pub fn parse_block(&mut self, depth: usize) -> (r: Result<
        (Vec<Statement>, EndMarker),
        ParseError,
    >)
        ensures
            final(self).pending() == parse_block_spec(
                old(self).pending(),
                depth as nat,
                Seq::empty(),
            ).rest,
            match parse_block_spec(old(self).pending(), depth as nat, Seq::empty()).result {
                Ok(v) => r matches Ok(block) && statement_views(block.0@) == v.0 && block.1 == v.1,
                Err(x) => r matches Err(y) && y == x,
            },
            final(self).pending().len() <= old(self).pending().len(),
        decreases old(self).pending().len(), 2nat,
    {
        let mut statements: Vec<Statement> = Vec::new();
        loop
            invariant
                parse_block_spec(self.pending(), depth as nat, statement_views(statements@))
                    == parse_block_spec(old(self).pending(), depth as nat, Seq::empty()),
                self.pending().len() <= old(self).pending().len(),
            decreases self.pending().len(),
        {
            let sttment = match self.parse_statement(depth) {
                Ok(s) => s,
                Err(e) => {
                    return Err(e);
                },
            };
            match sttment {
                Statement::End(marker) => {
                    return Ok((statements, marker));
                },
                Statement::Skip => {},
                other => {
                    proof {
                        lemma_statement_views_push(statements@, other);
                    }
                    statements.push(other);
                },
            }
        }
    }

    /// Reads a conditional, after `if`.
    pub fn parse_if_statement(&mut self, depth: usize) -> (r: Result<Statement, ParseError>)
        ensures
            final(self).pending() == parse_if_spec(old(self).pending(), depth as nat).rest,
            is_statement(r, parse_if_spec(old(self).pending(), depth as nat).result),
            final(self).pending().len() <= old(self).pending().len(),
        decreases old(self).pending().len(), 0nat,
    {
        if depth >= MAX_NESTING {
            return Err(ParseError::NestingTooDeep);
        }
        let condition = match self.parse_expression(depth) {
            Ok(c) => c,
            Err(e) => {
                return Err(e);
            },
        };
        match self.next() {
            Some(t) => match t.token_type {
                MdTokenType::Then => {},
                _ => {
                    return Err(ParseError::MissingToken);
                },
            },
            None => {
                return Err(ParseError::MissingToken);
            },
        }
        let (then_body, marker) = match self.parse_block(depth + 1) {
            Ok(block) => block,
            Err(e) => {
                return Err(e);
            },
        };
        match marker {
            EndMarker::Endif => {
                proof {
                    assert(statement_views(Seq::<Statement>::empty()) =~= Seq::empty());
                }
                Ok(Statement::IfStatement(condition, then_body, Vec::new()))
            },
            EndMarker::Else => {
                match self.parse_block(depth + 1) {
                    Ok((else_body, EndMarker::Endif)) => Ok(
                        Statement::IfStatement(condition, then_body, else_body),
                    ),
                    Ok(_) => Err(ParseError::UnbalancedNesting),
                    Err(e) => Err(e),
                }
            },
            _ => Err(ParseError::UnbalancedNesting),
        }
    }

    /// Reads a loop, after `for`.
    pub fn parse_for_statement(&mut self, depth: usize) -> (r: Result<Statement, ParseError>)
        ensures
            final(self).pending() == parse_for_spec(old(self).pending(), depth as nat).rest,
            is_statement(r, parse_for_spec(old(self).pending(), depth as nat).result),
            final(self).pending().len() <= old(self).pending().len(),
        decreases old(self).pending().len(), 0nat,
    {
        if depth >= MAX_NESTING {
            return Err(ParseError::NestingTooDeep);
        }
        let variable = match self.next() {
            Some(t) => match t.token_type {
                MdTokenType::Identifier(name) => name,
                _ => {
                    return Err(ParseError::MissingToken);
                },
            },
            None => {
                return Err(ParseError::MissingToken);
            },
        };
        match self.next() {
            Some(t) => match t.token_type {
                MdTokenType::In => {},
                _ => {
                    return Err(ParseError::MissingToken);
                },
            },
            None => {
                return Err(ParseError::MissingToken);
            },
        }
        let iterable = match self.next() {
            Some(t) => {
                let MdToken { token_type, lexem, line: _ } = t;
                match token_type {
                    MdTokenType::Dereference => Expr::Identifier(lexem),
                    MdTokenType::Identifier(name) => Expr::Identifier(name),
                    MdTokenType::List(text) => Expr::Raw(text),
                    _ => {
                        return Err(ParseError::MissingToken);
                    },
                }
            },
            None => {
                return Err(ParseError::MissingToken);
            },
        };
        match self.next() {
            Some(t) => match t.token_type {
                MdTokenType::Do => {},
                _ => {
                    return Err(ParseError::MissingToken);
                },
            },
            None => {
                return Err(ParseError::MissingToken);
            },
        }
        match self.parse_block(depth + 1) {
            Ok((body, EndMarker::Endfor)) => Ok(Statement::ForLoop(variable, iterable, body)),
            Ok(_) => Err(ParseError::UnbalancedNesting),
            Err(e) => Err(e),
        }
    }

    /// Reads the whole document.
    pub fn parse(&mut self) -> (r: Result<Vec<Statement>, ParseError>)
        ensures
            match parse_spec(old(self).pending()) {
                Ok(v) => r matches Ok(statements) && statement_views(statements@) == v,
                Err(x) => r matches Err(y) && y == x,
            },
            final(self).pending() == parse_block_spec(old(self).pending(), 0, Seq::empty()).rest,
    {
        match self.parse_block(0) {
            Ok((statements, EndMarker::EndOfFile)) => Ok(statements),
            Ok(_) => Err(ParseError::UnbalancedNesting),
            Err(e) => Err(e),
        }
    }
}

/// The list that holds `e` alone.
fn one(e: Expr) -> (v: Vec<Expr>)
    ensures
        v@ == seq![e],
        expr_views(v@) == seq![e@],
{
    let mut v: Vec<Expr> = Vec::new();
    proof {
        lemma_expr_views_push(v@, e);
    }
    v.push(e);
    assert(v@ =~= seq![e]);
    assert(expr_views(v@) =~= seq![e@]);
    v
}

} // verus!
