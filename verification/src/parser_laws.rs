//! Laws of the grammar: tokens are read from the left and never given back,
//! and a block wants its closing keyword.
use crate::ast::{EndMarker, ExprView, StatementView};
use crate::evaluator::{eval_all, eval_any, eval_bool, eval_value, EvalErrorView};
use crate::symbol::SymbolView;
use crate::md_lexer::{TokenKind, TokenView};
use crate::md_parser::{
    after, parse_and_rest, parse_and_spec, parse_assignment_spec, parse_atom_spec,
    parse_block_spec, parse_for_spec, parse_if_spec, parse_not_spec, parse_or_rest,
    done, parse_or_spec, parse_print_spec, parse_spec, parse_statement_spec,
    parse_string_spec, starts_with_word, terminated, Parsed, MAX_NESTING,
};
use vstd::prelude::*;

verus! {

/// Whether `a` is what is left of `b` after some of its first tokens are
/// taken.
pub open spec fn is_rest_of(a: Seq<TokenView>, b: Seq<TokenView>) -> bool {
    a.len() <= b.len() && a == b.skip(b.len() - a.len())
}

/// Whether the parse `p` of `rest` left a rest of `rest`, and took a token
/// if it gave a value.
pub open spec fn reads<T>(p: Parsed<T>, rest: Seq<TokenView>) -> bool {
    is_rest_of(p.rest, rest) && (p.result is Ok ==> p.rest.len() < rest.len())
}

/// All of `b` is a rest of `b`, and so is `b` without its first token.
pub proof fn lemma_rest_of_start(b: Seq<TokenView>)
    ensures
        is_rest_of(b, b),
        is_rest_of(after(b), b),
        b.len() > 0 ==> is_rest_of(b.drop_first(), b),
{
    assert(b =~= b.skip(0));
    if b.len() > 0 {
        assert(b.drop_first() =~= b.skip(1));
    }
}

/// A rest of a rest is a rest.
pub proof fn lemma_rest_of_rest(a: Seq<TokenView>, b: Seq<TokenView>, c: Seq<TokenView>)
    requires
        is_rest_of(a, b),
        is_rest_of(b, c),
    ensures
        is_rest_of(a, c),
{
    assert(a =~= c.skip(c.len() - a.len()));
}

/// What is left of a rest after one token more is a rest.
pub proof fn lemma_rest_of_after(a: Seq<TokenView>, b: Seq<TokenView>)
    requires
        is_rest_of(a, b),
    ensures
        is_rest_of(after(a), b),
        a.len() > 0 ==> is_rest_of(a.drop_first(), b),
{
    lemma_rest_of_start(a);
    lemma_rest_of_rest(after(a), a, b);
}

/// A chain of strings reads from the left and takes a token.
pub proof fn lemma_string_reads(rest: Seq<TokenView>, parts: Seq<ExprView>)
    ensures
        reads(parse_string_spec(rest, parts), rest),
    decreases rest.len(),
{
    lemma_rest_of_start(rest);
    if rest.len() > 0 {
        let r1 = rest.drop_first();
        lemma_rest_of_after(r1, rest);
        if rest[0].kind matches TokenKind::Operator(c) && c == '.' && r1.len() > 0 {
            if let TokenKind::String(s) = r1[0].kind {
                lemma_string_reads(r1.drop_first(), parts.push(ExprView::Quoted(s)));
                lemma_rest_of_rest(
                    parse_string_spec(r1.drop_first(), parts.push(ExprView::Quoted(s))).rest,
                    r1.drop_first(),
                    rest,
                );
            }
        }
    }
}

/// The end of an assignment reads from the left and takes a token.
pub proof fn lemma_terminated_reads(statement: StatementView, rest: Seq<TokenView>)
    ensures
        reads(terminated(statement, rest), rest),
{
    lemma_rest_of_start(rest);
}

/// An assignment reads from the left and takes a token.
pub proof fn lemma_assignment_reads(name: Seq<char>, rest: Seq<TokenView>)
    ensures
        reads(parse_assignment_spec(name, rest), rest),
        !(parse_assignment_spec(name, rest).result matches Ok(StatementView::End(_))),
{
    lemma_rest_of_start(rest);
    if rest.len() > 1 && rest[0].kind is Assign {
        let r1 = rest.drop_first();
        let r2 = r1.drop_first();
        lemma_rest_of_after(r1, rest);
        lemma_rest_of_after(r2, rest);
        match rest[1].kind {
            TokenKind::String(s) => {
                lemma_string_reads(r2, seq![ExprView::Quoted(s)]);
                lemma_rest_of_rest(
                    parse_string_spec(r2, seq![ExprView::Quoted(s)]).rest,
                    r2,
                    rest,
                );
            },
            TokenKind::Operator(c) => {
                if r2.len() > 0 {
                    lemma_rest_of_after(r2.drop_first(), rest);
                }
            },
            _ => {},
        }
    }
}

/// A print statement reads from the left and takes a token.
pub proof fn lemma_print_reads(rest: Seq<TokenView>)
    ensures
        reads(parse_print_spec(rest), rest),
        !(parse_print_spec(rest).result matches Ok(StatementView::End(_))),
{
    lemma_rest_of_start(rest);
    if rest.len() > 0 {
        if let TokenKind::String(s) = rest[0].kind {
            let r1 = rest.drop_first();
            lemma_string_reads(r1, seq![ExprView::Quoted(s)]);
            lemma_rest_of_rest(parse_string_spec(r1, seq![ExprView::Quoted(s)]).rest, r1, rest);
        }
    }
}

/// An operand reads from the left and takes a token.
pub proof fn lemma_atom_reads(rest: Seq<TokenView>, depth: nat)
    ensures
        reads(parse_atom_spec(rest, depth), rest),
    decreases rest.len(), 0nat,
{
    lemma_rest_of_start(rest);
    if rest.len() > 0 {
        let r1 = rest.drop_first();
        if rest[0].kind matches TokenKind::Operator(c) && c == '(' && depth < MAX_NESTING {
            lemma_or_reads(r1, depth + 1);
            let inner = parse_or_spec(r1, depth + 1);
            lemma_rest_of_rest(inner.rest, r1, rest);
            lemma_rest_of_after(inner.rest, rest);
        }
    }
}

/// An operand with its `not`s reads from the left and takes a token.
pub proof fn lemma_not_reads(rest: Seq<TokenView>, depth: nat)
    ensures
        reads(parse_not_spec(rest, depth), rest),
    decreases rest.len(), 1nat,
{
    lemma_rest_of_start(rest);
    if rest.len() > 0 && rest[0].kind == TokenKind::Identifier("not"@) {
        lemma_not_reads(rest.drop_first(), depth);
        lemma_rest_of_rest(parse_not_spec(rest.drop_first(), depth).rest, rest.drop_first(), rest);
    } else {
        lemma_atom_reads(rest, depth);
    }
}

/// The rest of a conjunction reads from the left.
pub proof fn lemma_and_rest_reads(rest: Seq<TokenView>, depth: nat, operands: Seq<ExprView>)
    ensures
        is_rest_of(parse_and_rest(rest, depth, operands).rest, rest),
    decreases rest.len(), 2nat,
{
    lemma_rest_of_start(rest);
    if rest.len() > 0 && rest[0].kind == TokenKind::Identifier("and"@) {
        let next = parse_not_spec(rest.drop_first(), depth);
        lemma_not_reads(rest.drop_first(), depth);
        lemma_rest_of_rest(next.rest, rest.drop_first(), rest);
        if let Ok(e) = next.result {
            lemma_and_rest_reads(next.rest, depth, operands.push(e));
            lemma_rest_of_rest(parse_and_rest(next.rest, depth, operands.push(e)).rest, next.rest, rest);
        }
    }
}

/// A conjunction reads from the left and takes a token.
pub proof fn lemma_and_reads(rest: Seq<TokenView>, depth: nat)
    ensures
        reads(parse_and_spec(rest, depth), rest),
    decreases rest.len(), 3nat,
{
    let first = parse_not_spec(rest, depth);
    lemma_not_reads(rest, depth);
    if let Ok(e) = first.result {
        lemma_and_rest_reads(first.rest, depth, seq![e]);
        lemma_rest_of_rest(parse_and_rest(first.rest, depth, seq![e]).rest, first.rest, rest);
    }
}

/// The rest of a disjunction reads from the left.
pub proof fn lemma_or_rest_reads(rest: Seq<TokenView>, depth: nat, operands: Seq<ExprView>)
    ensures
        is_rest_of(parse_or_rest(rest, depth, operands).rest, rest),
    decreases rest.len(), 4nat,
{
    lemma_rest_of_start(rest);
    if rest.len() > 0 && rest[0].kind == TokenKind::Identifier("or"@) {
        let next = parse_and_spec(rest.drop_first(), depth);
        lemma_and_reads(rest.drop_first(), depth);
        lemma_rest_of_rest(next.rest, rest.drop_first(), rest);
        if let Ok(e) = next.result {
            lemma_or_rest_reads(next.rest, depth, operands.push(e));
            lemma_rest_of_rest(parse_or_rest(next.rest, depth, operands.push(e)).rest, next.rest, rest);
        }
    }
}

/// A condition reads from the left and takes a token.
pub proof fn lemma_or_reads(rest: Seq<TokenView>, depth: nat)
    ensures
        reads(parse_or_spec(rest, depth), rest),
    decreases rest.len(), 5nat,
{
    let first = parse_and_spec(rest, depth);
    lemma_and_reads(rest, depth);
    if let Ok(e) = first.result {
        lemma_or_rest_reads(first.rest, depth, seq![e]);
        lemma_rest_of_rest(parse_or_rest(first.rest, depth, seq![e]).rest, first.rest, rest);
    }
}


/// Whether the parse `p` of `rest` left a rest of `rest`, and took a token
/// if there was one.
pub open spec fn reads_on<T>(p: Parsed<T>, rest: Seq<TokenView>) -> bool {
    is_rest_of(p.rest, rest) && (rest.len() > 0 ==> p.rest.len() < rest.len())
}

/// The keyword that the end mark `marker` stands for.
pub open spec fn closes(kind: TokenKind, marker: EndMarker) -> bool {
    match marker {
        EndMarker::Endfor => kind is Endfor,
        EndMarker::Endif => kind is Endif,
        EndMarker::Else => kind is Else,
        EndMarker::EndOfFile => kind is EndOfFile,
    }
}

/// A statement reads from the left and takes a token where there is one. It
/// is an end mark only where the tokens start with the keyword of the mark,
/// or where there are none.
pub proof fn lemma_statement_reads(rest: Seq<TokenView>, depth: nat)
    ensures
        reads_on(parse_statement_spec(rest, depth), rest),
        parse_statement_spec(rest, depth).result matches Ok(StatementView::End(marker))
            ==> rest.len() == 0 && marker == EndMarker::EndOfFile || rest.len() > 0 && closes(
            rest[0].kind,
            marker,
        ),
    decreases rest.len(), 1nat,
{
    lemma_rest_of_start(rest);
    if rest.len() > 0 {
        let r1 = rest.drop_first();
        match rest[0].kind {
            TokenKind::If => {
                lemma_if_reads(r1, depth);
                lemma_rest_of_rest(parse_if_spec(r1, depth).rest, r1, rest);
            },
            TokenKind::For => {
                lemma_for_reads(r1, depth);
                lemma_rest_of_rest(parse_for_spec(r1, depth).rest, r1, rest);
            },
            TokenKind::Print => {
                lemma_print_reads(r1);
                lemma_rest_of_rest(parse_print_spec(r1).rest, r1, rest);
            },
            TokenKind::Identifier(name) => {
                lemma_assignment_reads(name, r1);
                lemma_rest_of_rest(parse_assignment_spec(name, r1).rest, r1, rest);
            },
            _ => {},
        }
    }
}

/// A run of statements reads from the left.
pub proof fn lemma_block_reads(rest: Seq<TokenView>, depth: nat, body: Seq<StatementView>)
    ensures
        is_rest_of(parse_block_spec(rest, depth, body).rest, rest),
    decreases rest.len(), 2nat,
{
    let first = parse_statement_spec(rest, depth);
    lemma_statement_reads(rest, depth);
    if let Ok(statement) = first.result {
        if !(statement is End) && first.rest.len() < rest.len() {
            let grown = if statement is Skip {
                body
            } else {
                body.push(statement)
            };
            lemma_block_reads(first.rest, depth, grown);
            lemma_rest_of_rest(parse_block_spec(first.rest, depth, grown).rest, first.rest, rest);
        }
    }
}

/// A conditional reads from the left, and is no end mark.
pub proof fn lemma_if_reads(rest: Seq<TokenView>, depth: nat)
    ensures
        is_rest_of(parse_if_spec(rest, depth).rest, rest),
        !(parse_if_spec(rest, depth).result matches Ok(StatementView::End(_))),
    decreases rest.len(), 0nat,
{
    lemma_rest_of_start(rest);
    if depth < MAX_NESTING {
        let condition = parse_or_spec(rest, depth);
        lemma_or_reads(rest, depth);
        lemma_rest_of_after(condition.rest, rest);
        if condition.result is Ok && condition.rest.len() > 0 && condition.rest[0].kind is Then {
            let r1 = condition.rest.drop_first();
            let then_part = parse_block_spec(r1, depth + 1, Seq::empty());
            lemma_block_reads(r1, depth + 1, Seq::empty());
            lemma_rest_of_rest(then_part.rest, r1, rest);
            if then_part.result matches Ok((_, EndMarker::Else)) {
                let else_part = parse_block_spec(then_part.rest, depth + 1, Seq::empty());
                lemma_block_reads(then_part.rest, depth + 1, Seq::empty());
                lemma_rest_of_rest(else_part.rest, then_part.rest, rest);
            }
        }
    }
}

/// A loop reads from the left, and is no end mark.
pub proof fn lemma_for_reads(rest: Seq<TokenView>, depth: nat)
    ensures
        is_rest_of(parse_for_spec(rest, depth).rest, rest),
        !(parse_for_spec(rest, depth).result matches Ok(StatementView::End(_))),
    decreases rest.len(), 0nat,
{
    lemma_rest_of_start(rest);
    if depth < MAX_NESTING && rest.len() > 0 {
        let r1 = rest.drop_first();
        lemma_rest_of_after(r1, rest);
        if r1.len() > 0 {
            let r2 = r1.drop_first();
            lemma_rest_of_after(r2, rest);
            if r2.len() > 0 {
                let r3 = r2.drop_first();
                lemma_rest_of_after(r3, rest);
                if r3.len() > 0 {
                    let r4 = r3.drop_first();
                    let body = parse_block_spec(r4, depth + 1, Seq::empty());
                    lemma_block_reads(r4, depth + 1, Seq::empty());
                    lemma_rest_of_rest(body.rest, r4, rest);
                }
            }
        }
    }
}

/// Whether none of `rest` is the keyword `endfor`.
pub open spec fn without_endfor(rest: Seq<TokenView>) -> bool {
    forall|i: int| 0 <= i < rest.len() ==> !((#[trigger] rest[i]).kind is Endfor)
}

/// What is left of tokens without `endfor` is without `endfor`.
pub proof fn lemma_rest_without_endfor(a: Seq<TokenView>, b: Seq<TokenView>)
    requires
        is_rest_of(a, b),
        without_endfor(b),
    ensures
        without_endfor(a),
{
    assert forall|i: int| 0 <= i < a.len() implies !((#[trigger] a[i]).kind is Endfor) by {
        assert(a[i] == b[b.len() - a.len() + i]);
    }
}

/// Statements do not end in `endfor` where there is no `endfor`.
pub proof fn lemma_block_without_endfor(rest: Seq<TokenView>, depth: nat, body: Seq<StatementView>)
    requires
        without_endfor(rest),
    ensures
        !(parse_block_spec(rest, depth, body).result matches Ok((_, EndMarker::Endfor))),
    decreases rest.len(),
{
    let first = parse_statement_spec(rest, depth);
    lemma_statement_reads(rest, depth);
    if let Ok(statement) = first.result {
        if !(statement is End) && first.rest.len() < rest.len() {
            let grown = if statement is Skip {
                body
            } else {
                body.push(statement)
            };
            lemma_rest_without_endfor(first.rest, rest);
            lemma_block_without_endfor(first.rest, depth, grown);
        }
    }
}

/// A loop whose `endfor` is missing is an error: the statements after `do`
/// are never taken as closed where the tokens end, nor by another keyword.
pub proof fn lemma_for_wants_endfor(rest: Seq<TokenView>, depth: nat)
    requires
        without_endfor(rest),
    ensures
        parse_for_spec(rest, depth).result is Err,
{
    if depth < MAX_NESTING && rest.len() > 3 {
        let r4 = rest.drop_first().drop_first().drop_first().drop_first();
        lemma_rest_of_start(rest);
        lemma_rest_of_after(rest.drop_first(), rest);
        lemma_rest_of_after(rest.drop_first().drop_first(), rest);
        lemma_rest_of_after(rest.drop_first().drop_first().drop_first(), rest);
        lemma_rest_without_endfor(r4, rest);
        lemma_block_without_endfor(r4, depth + 1, Seq::empty());
    }
}

/// A document that opens a loop and holds no `endfor` after it is an error.
pub proof fn lemma_statement_wants_endfor(rest: Seq<TokenView>, depth: nat)
    requires
        rest.len() > 0,
        rest[0].kind is For,
        without_endfor(rest),
    ensures
        parse_statement_spec(rest, depth).result is Err,
{
    lemma_rest_of_start(rest);
    lemma_rest_without_endfor(rest.drop_first(), rest);
    lemma_for_wants_endfor(rest.drop_first(), depth);
}


/// Whether the token `t` is an operand of a condition by itself.
pub open spec fn is_operand(t: TokenView) -> bool {
    t.kind is True || t.kind is False || t.kind is Dereference
}

/// The operand that the token `t` is.
pub open spec fn operand_of(t: TokenView) -> ExprView {
    match t.kind {
        TokenKind::True => ExprView::Litteral(SymbolView::Boolean(true)),
        TokenKind::False => ExprView::Litteral(SymbolView::Boolean(false)),
        _ => ExprView::Identifier(t.lexem),
    }
}

/// Whether the token `t` is the word `word`.
pub open spec fn is_the_word(t: TokenView, word: Seq<char>) -> bool {
    t.kind == TokenKind::Identifier(word)
}

/// Whether no operand can be joined to a condition that `rest` follows.
pub open spec fn ends_condition(rest: Seq<TokenView>) -> bool {
    !starts_with_word(rest, "and"@) && !starts_with_word(rest, "or"@)
}

proof fn lemma_operand(t: TokenView, rest: Seq<TokenView>, depth: nat)
    requires
        is_operand(t),
    ensures
        parse_not_spec(seq![t] + rest, depth) == done(operand_of(t), rest),
{
    let tokens = seq![t] + rest;
    assert(tokens.drop_first() =~= rest);
    assert(tokens[0] == t);
    assert(parse_atom_spec(tokens, depth) == done(operand_of(t), rest));
}

/// `not` binds tighter than `and`: in `not a and b`, the `not` belongs to
/// `a` alone.
pub proof fn lemma_not_binds_tighter_than_and(
    not: TokenView,
    a: TokenView,
    and: TokenView,
    b: TokenView,
    rest: Seq<TokenView>,
    depth: nat,
)
    requires
        is_the_word(not, "not"@),
        is_the_word(and, "and"@),
        is_operand(a),
        is_operand(b),
        ends_condition(rest),
    ensures
        parse_or_spec(seq![not, a, and, b] + rest, depth) == done(
            ExprView::Or(
                seq![
                    ExprView::And(seq![ExprView::Not(Box::new(operand_of(a))), operand_of(b)]),
                ],
            ),
            rest,
        ),
{
    let t0 = seq![not, a, and, b] + rest;
    let t1 = seq![a] + (seq![and, b] + rest);
    let t2 = seq![and, b] + rest;
    let t3 = seq![b] + rest;
    let negated = ExprView::Not(Box::new(operand_of(a)));
    assert(t0.drop_first() =~= t1);
    assert(t2.drop_first() =~= t3);
    assert(t0[0] == not && t2[0] == and);
    lemma_operand(a, t2, depth);
    lemma_operand(b, rest, depth);
    assert(parse_not_spec(t0, depth) == done(negated, t2));
    assert(seq![negated].push(operand_of(b)) =~= seq![negated, operand_of(b)]);
    assert(parse_and_rest(rest, depth, seq![negated, operand_of(b)]) == done(
        ExprView::And(seq![negated, operand_of(b)]),
        rest,
    ));
    assert(parse_and_rest(t2, depth, seq![negated]) == done(
        ExprView::And(seq![negated, operand_of(b)]),
        rest,
    ));
    assert(parse_and_spec(t0, depth) == done(ExprView::And(seq![negated, operand_of(b)]), rest));
    assert(parse_or_rest(rest, depth, seq![ExprView::And(seq![negated, operand_of(b)])]) == done(
        ExprView::Or(seq![ExprView::And(seq![negated, operand_of(b)])]),
        rest,
    ));
}

/// `and` binds tighter than `or`: in `a or b and c`, the `and` joins `b`
/// and `c` alone.
pub proof fn lemma_and_binds_tighter_than_or(
    a: TokenView,
    or: TokenView,
    b: TokenView,
    and: TokenView,
    c: TokenView,
    rest: Seq<TokenView>,
    depth: nat,
)
    requires
        is_the_word(or, "or"@),
        is_the_word(and, "and"@),
        is_operand(a),
        is_operand(b),
        is_operand(c),
        ends_condition(rest),
    ensures
        parse_or_spec(seq![a, or, b, and, c] + rest, depth) == done(
            ExprView::Or(
                seq![
                    ExprView::And(seq![operand_of(a)]),
                    ExprView::And(seq![operand_of(b), operand_of(c)]),
                ],
            ),
            rest,
        ),
{
    reveal_strlit("or");
    reveal_strlit("and");
    let t0 = seq![a, or, b, and, c] + rest;
    let t0b = seq![a] + (seq![or, b, and, c] + rest);
    let t1 = seq![or, b, and, c] + rest;
    let t2 = seq![b] + (seq![and, c] + rest);
    let t3 = seq![and, c] + rest;
    let t4 = seq![c] + rest;
    let left = ExprView::And(seq![operand_of(a)]);
    let right = ExprView::And(seq![operand_of(b), operand_of(c)]);
    assert(t0 =~= t0b);
    assert(t1.drop_first() =~= t2);
    assert(t3.drop_first() =~= t4);
    assert(t1[0] == or && t3[0] == and);
    assert("or"@ != "and"@) by {
        assert("or"@.len() == 2 && "and"@.len() == 3);
    }
    lemma_operand(a, t1, depth);
    lemma_operand(b, t3, depth);
    lemma_operand(c, rest, depth);
    assert(!starts_with_word(t1, "and"@));
    assert(parse_and_rest(t1, depth, seq![operand_of(a)]) == done(left, t1));
    assert(parse_and_spec(t0, depth) == done(left, t1));
    assert(seq![operand_of(b)].push(operand_of(c)) =~= seq![operand_of(b), operand_of(c)]);
    assert(parse_and_rest(rest, depth, seq![operand_of(b), operand_of(c)]) == done(right, rest));
    assert(parse_and_rest(t3, depth, seq![operand_of(b)]) == done(right, rest));
    assert(parse_and_spec(t2, depth) == done(right, rest));
    assert(seq![left].push(right) =~= seq![left, right]);
    assert(parse_or_rest(rest, depth, seq![left, right]) == done(
        ExprView::Or(seq![left, right]),
        rest,
    ));
    assert(parse_or_rest(t1, depth, seq![left]) == done(ExprView::Or(seq![left, right]), rest));
}

/// The condition that holds the truth value `b`.
pub open spec fn truth(b: bool) -> ExprView {
    ExprView::Litteral(SymbolView::Boolean(b))
}

proof fn lemma_truth(
    b: bool,
    globals: Map<Seq<char>, SymbolView>,
    locals: Map<Seq<char>, SymbolView>,
)
    ensures
        eval_bool(truth(b), globals, locals) == Ok::<bool, EvalErrorView>(b),
{
    assert(eval_value(truth(b), globals, locals) == Ok::<SymbolView, EvalErrorView>(
        SymbolView::Boolean(b),
    ));
}

/// What the conditions `not x and y` and `x or y and z` come to, as the
/// grammar reads them: `(not x) and y`, and `x or (y and z)`. So `not true
/// and false` is false, and `true or false and false` is true.
pub proof fn lemma_precedence_in_truth_values(
    x: bool,
    y: bool,
    z: bool,
    globals: Map<Seq<char>, SymbolView>,
    locals: Map<Seq<char>, SymbolView>,
)
    ensures
        eval_bool(
            ExprView::Or(seq![ExprView::And(seq![ExprView::Not(Box::new(truth(x))), truth(y)])]),
            globals,
            locals,
        ) == Ok::<bool, EvalErrorView>(!x && y),
        eval_bool(
            ExprView::Or(seq![ExprView::And(seq![truth(x)]), ExprView::And(seq![truth(y), truth(z)])]),
            globals,
            locals,
        ) == Ok::<bool, EvalErrorView>(x || (y && z)),
{
    let none = Seq::<ExprView>::empty();
    let not_x = ExprView::Not(Box::new(truth(x)));
    lemma_truth(x, globals, locals);
    lemma_truth(y, globals, locals);
    lemma_truth(z, globals, locals);
    assert(eval_value(not_x, globals, locals) == Ok::<SymbolView, EvalErrorView>(SymbolView::Boolean(!x)));
    assert(eval_bool(not_x, globals, locals) == Ok::<bool, EvalErrorView>(!x));
    assert(eval_all(none, globals, locals) == Ok::<bool, EvalErrorView>(true));
    assert(eval_any(none, globals, locals) == Ok::<bool, EvalErrorView>(false));
    // (not x) and y
    assert(seq![truth(y)].drop_first() =~= none);
    assert(eval_all(seq![truth(y)], globals, locals) == Ok::<bool, EvalErrorView>(y));
    assert(seq![not_x, truth(y)].drop_first() =~= seq![truth(y)]);
    let first = ExprView::And(seq![not_x, truth(y)]);
    assert(eval_all(seq![not_x, truth(y)], globals, locals) == Ok::<bool, EvalErrorView>(!x && y));
    assert(eval_value(first, globals, locals) == Ok::<SymbolView, EvalErrorView>(SymbolView::Boolean(!x && y)));
    assert(eval_bool(first, globals, locals) == Ok::<bool, EvalErrorView>(!x && y));
    assert(seq![first].drop_first() =~= none);
    assert(eval_any(seq![first], globals, locals) == Ok::<bool, EvalErrorView>(!x && y));
    assert(eval_value(ExprView::Or(seq![first]), globals, locals) == Ok::<SymbolView, EvalErrorView>(SymbolView::Boolean(!x && y)));
    // x or (y and z)
    let left = ExprView::And(seq![truth(x)]);
    let right = ExprView::And(seq![truth(y), truth(z)]);
    assert(seq![truth(x)].drop_first() =~= none);
    assert(eval_all(seq![truth(x)], globals, locals) == Ok::<bool, EvalErrorView>(x));
    assert(eval_value(left, globals, locals) == Ok::<SymbolView, EvalErrorView>(SymbolView::Boolean(x)));
    assert(eval_bool(left, globals, locals) == Ok::<bool, EvalErrorView>(x));
    assert(seq![truth(z)].drop_first() =~= none);
    assert(eval_all(seq![truth(z)], globals, locals) == Ok::<bool, EvalErrorView>(z));
    assert(seq![truth(y), truth(z)].drop_first() =~= seq![truth(z)]);
    assert(eval_all(seq![truth(y), truth(z)], globals, locals) == Ok::<bool, EvalErrorView>(y && z));
    assert(eval_value(right, globals, locals) == Ok::<SymbolView, EvalErrorView>(SymbolView::Boolean(y && z)));
    assert(eval_bool(right, globals, locals) == Ok::<bool, EvalErrorView>(y && z));
    assert(seq![right].drop_first() =~= none);
    assert(eval_any(seq![right], globals, locals) == Ok::<bool, EvalErrorView>(y && z));
    assert(seq![left, right].drop_first() =~= seq![right]);
    assert(eval_any(seq![left, right], globals, locals) == Ok::<bool, EvalErrorView>(x || (y && z)));
    assert(eval_value(ExprView::Or(seq![left, right]), globals, locals) == Ok::<SymbolView, EvalErrorView>(SymbolView::Boolean(x || (y && z))));
}


/// Whether the statement `s` can stand in a finished tree: it is no end
/// mark and no statement that was passed over, and neither is any statement
/// inside it.
pub open spec fn is_finished(s: StatementView) -> bool
    decreases s,
{
    match s {
        StatementView::End(_) => false,
        StatementView::Skip => false,
        StatementView::IfStatement(_, then_body, else_body) => all_finished(then_body)
            && all_finished(else_body),
        StatementView::ForLoop(_, _, body) => all_finished(body),
        _ => true,
    }
}

/// Whether all of `body` can stand in a finished tree.
pub open spec fn all_finished(body: Seq<StatementView>) -> bool
    decreases body,
{
    body.len() == 0 || (all_finished(body.drop_last()) && is_finished(body.last()))
}

/// A statement that is parsed is an end mark, a statement passed over, or a
/// finished one.
pub proof fn lemma_statement_finished(rest: Seq<TokenView>, depth: nat)
    ensures
        parse_statement_spec(rest, depth).result matches Ok(s) ==> s is End || s is Skip
            || is_finished(s),
    decreases rest.len(), 1nat,
{
    if rest.len() > 0 {
        let r1 = rest.drop_first();
        match rest[0].kind {
            TokenKind::If => {
                lemma_if_finished(r1, depth);
            },
            TokenKind::For => {
                lemma_for_finished(r1, depth);
            },
            TokenKind::Identifier(name) => {
                lemma_assignment_finished(name, r1);
            },
            _ => {},
        }
    }
}

proof fn lemma_assignment_finished(name: Seq<char>, rest: Seq<TokenView>)
    ensures
        parse_assignment_spec(name, rest).result matches Ok(s) ==> s is Assignment,
{
}

/// The statements of a block that is parsed are finished, where those
/// before them are.
pub proof fn lemma_block_finished(rest: Seq<TokenView>, depth: nat, body: Seq<StatementView>)
    requires
        all_finished(body),
    ensures
        parse_block_spec(rest, depth, body).result matches Ok(block) ==> all_finished(block.0),
    decreases rest.len(), 2nat,
{
    let first = parse_statement_spec(rest, depth);
    lemma_statement_finished(rest, depth);
    if let Ok(statement) = first.result {
        if !(statement is End) && first.rest.len() < rest.len() {
            let grown = if statement is Skip {
                body
            } else {
                body.push(statement)
            };
            assert(all_finished(grown)) by {
                if !(statement is Skip) {
                    assert(grown.drop_last() =~= body);
                }
            }
            lemma_block_finished(first.rest, depth, grown);
        }
    }
}

/// A conditional that is parsed is finished.
pub proof fn lemma_if_finished(rest: Seq<TokenView>, depth: nat)
    ensures
        parse_if_spec(rest, depth).result matches Ok(s) ==> is_finished(s),
    decreases rest.len(), 0nat,
{
    if depth < MAX_NESTING {
        let condition = parse_or_spec(rest, depth);
        lemma_or_reads(rest, depth);
        if condition.result is Ok && condition.rest.len() > 0 && condition.rest[0].kind is Then {
            let r1 = condition.rest.drop_first();
            let then_part = parse_block_spec(r1, depth + 1, Seq::empty());
            lemma_block_finished(r1, depth + 1, Seq::empty());
            if then_part.result matches Ok((_, EndMarker::Else)) {
                if then_part.rest.len() < rest.len() {
                    lemma_block_finished(then_part.rest, depth + 1, Seq::empty());
                }
            }
        }
    }
}

/// A loop that is parsed is finished.
pub proof fn lemma_for_finished(rest: Seq<TokenView>, depth: nat)
    ensures
        parse_for_spec(rest, depth).result matches Ok(s) ==> is_finished(s),
    decreases rest.len(), 0nat,
{
    if depth < MAX_NESTING && rest.len() > 3 {
        let r4 = rest.drop_first().drop_first().drop_first().drop_first();
        lemma_block_finished(r4, depth + 1, Seq::empty());
    }
}

/// The tree of a document holds no end mark and no statement that was
/// passed over, at any depth.
pub proof fn lemma_document_is_finished(tokens: Seq<TokenView>)
    ensures
        parse_spec(tokens) matches Ok(statements) ==> all_finished(statements),
{
    lemma_block_finished(tokens, 0, Seq::empty());
}

} // verus!
