//! Laws of rendering, proved of the definitions in the other modules.
use crate::ast::{EndMarker, ExprView, StatementView};
use crate::evaluator::{
    concat_text, eval_value, interpolate, lookup, reason_of, run_block, run_loop,
    run_statement, stopped, EvalErrorView, Run, Scope,
};
use crate::md_lexer::{
    blank, line_after, next_token_spec, scan_into, scan_spec, start_cursor,
    text_end, Cursor, TokenKind, TokenView,
};
use crate::md_parser::{parse_block_spec, parse_spec, parse_statement_spec, ParseError};
use crate::symbol::{display, item_text, kind_of, scalar_of, value_of, SymbolView};
use crate::text::{
    escape_of, lemma_run_end, run_end, run_start, unescape_from, unescaped, whitespace,
    without_brackets,
};
use crate::{render_pass, render_spec, statements_of, Rendered, RenderErrorView};
use vstd::prelude::*;

verus! {

/// Whether `s` is plain text: no `{{` occurs in it.
pub open spec fn is_plain(s: Seq<char>) -> bool {
    forall|i: int| 0 <= i && i + 1 < s.len() ==> !(#[trigger] s[i] == '{' && s[i + 1] == '{')
}

/// Plain text is one run of text up to its end.
pub proof fn lemma_plain_text_end(s: Seq<char>, i: int)
    requires
        is_plain(s),
        0 <= i <= s.len(),
    ensures
        text_end(s, i) == s.len(),
    decreases s.len() - i,
{
    if i < s.len() {
        lemma_plain_text_end(s, i + 1);
    }
}

/// Plain text is one statement: the one that writes it as it is.
pub proof fn lemma_plain_statements(document: Seq<char>)
    requires
        is_plain(document),
    ensures
        statements_of(document) == Ok::<Seq<StatementView>, RenderErrorView>(
            seq![
                StatementView::PrintStatement(
                    ExprView::Litteral(SymbolView::String(document)),
                    false,
                ),
            ],
        ),
{
    let n = document.len() as int;
    let line = line_after(1, document, 0, n);
    let text = TokenView { kind: TokenKind::MdText, lexem: document, line };
    let end = TokenView { kind: TokenKind::EndOfFile, lexem: Seq::empty(), line };
    let inside = Cursor { pos: n, line, in_code: true };
    lemma_plain_text_end(document, 0);
    assert(document.subrange(0, n) =~= document);
    assert(next_token_spec(document, start_cursor()).token == Ok::<TokenView, TokenView>(text));
    assert(next_token_spec(document, start_cursor()).next == inside);
    assert(run_end(document, n, blank()) == n);
    assert(line_after(line, document, n, n) == line);
    assert(next_token_spec(document, inside).token == Ok::<TokenView, TokenView>(end));
    assert(scan_into(document, inside, seq![text]).tokens == Ok::<Seq<TokenView>, TokenView>(
        seq![text].push(end),
    ));
    assert(Seq::<TokenView>::empty().push(text) =~= seq![text]);
    assert(scan_spec(document) == Ok::<Seq<TokenView>, TokenView>(seq![text].push(end)));
    let tokens = seq![text].push(end).drop_last();
    assert(tokens =~= seq![text]);
    let statement = StatementView::PrintStatement(
        ExprView::Litteral(SymbolView::String(document)),
        false,
    );
    assert(tokens.drop_first() =~= Seq::<TokenView>::empty());
    assert(parse_statement_spec(tokens, 0).result == Ok::<StatementView, ParseError>(statement));
    assert(parse_statement_spec(tokens, 0).rest == Seq::<TokenView>::empty());
    assert(Seq::<StatementView>::empty().push(statement) =~= seq![statement]);
    assert(parse_statement_spec(Seq::<TokenView>::empty(), 0).result == Ok::<
        StatementView,
        ParseError,
    >(StatementView::End(EndMarker::EndOfFile)));
    assert(parse_block_spec(Seq::<TokenView>::empty(), 0, seq![statement]).result == Ok::<
        (Seq<StatementView>, EndMarker),
        ParseError,
    >((seq![statement], EndMarker::EndOfFile)));
    assert(parse_spec(tokens) == Ok::<Seq<StatementView>, ParseError>(seq![statement]));
}

/// A document without `{{` renders to itself, character for character,
/// whatever the global variables are, and leaves them as they are.
pub proof fn lemma_plain_text_pass(document: Seq<char>, globals: Map<Seq<char>, SymbolView>)
    requires
        is_plain(document),
    ensures
        render_pass(document, globals) == Ok::<Rendered, RenderErrorView>(
            Rendered { text: document, globals },
        ),
{
    lemma_plain_statements(document);
    let statement = StatementView::PrintStatement(
        ExprView::Litteral(SymbolView::String(document)),
        false,
    );
    let start = Run { globals, locals: Map::empty(), output: Seq::empty(), error: None };
    let value = ExprView::Litteral(SymbolView::String(document));
    assert(eval_value(value, globals, Map::empty()) == Ok::<SymbolView, EvalErrorView>(
        SymbolView::String(document),
    ));
    assert(interpolate(value, globals, Map::empty()) == Ok::<Seq<char>, EvalErrorView>(document));
    assert(Seq::<char>::empty() + document =~= document);
    let after = Run { output: document, ..start };
    assert(run_statement(statement, start) == after);
    assert(seq![statement].drop_first() =~= Seq::<StatementView>::empty());
    assert(run_block(Seq::<StatementView>::empty(), after) == after);
    assert(run_block(seq![statement], start) == after);
}

/// A document without `{{` renders to itself, character for character. A
/// preamble does not change that, unless it fails: then its error is the
/// result.
pub proof fn lemma_plain_text_renders_to_itself(document: Seq<char>, preamble: Option<Seq<char>>)
    requires
        is_plain(document),
    ensures
        render_spec(document, preamble) == (match preamble {
            None => Ok::<Seq<char>, RenderErrorView>(document),
            Some(p) => match render_pass(p, Map::empty()) {
                Ok(_) => Ok(document),
                Err(e) => Err(e),
            },
        }),
{
    match preamble {
        None => {
            lemma_plain_text_pass(document, Map::empty());
        },
        Some(p) => {
            match render_pass(p, Map::empty()) {
                Ok(seed) => {
                    lemma_plain_text_pass(document, seed.globals);
                },
                Err(_) => {},
            }
        },
    }
}

/// What a document renders to depends on the document and on what the
/// global variables are bound to, and on nothing else: two scopes with the
/// same bindings, however they came about, give the same result.
pub proof fn lemma_same_bindings_same_rendering(document: Seq<char>, a: Scope, b: Scope)
    requires
        a@ =~= b@,
    ensures
        render_pass(document, a@) == render_pass(document, b@),
{
}


/// A string literal without a backslash stands for itself.
pub proof fn lemma_plain_literal(s: Seq<char>)
    requires
        forall|j: int| 0 <= j < s.len() ==> #[trigger] s[j] != '\\',
    ensures
        unescaped(s) == s,
{
    lemma_unescape_plain(s, 0);
    assert(s.subrange(0, s.len() as int) =~= s);
}

proof fn lemma_unescape_plain(s: Seq<char>, i: int)
    requires
        0 <= i <= s.len(),
        forall|j: int| i <= j < s.len() ==> #[trigger] s[j] != '\\',
    ensures
        unescape_from(s, i) == s.subrange(i, s.len() as int),
    decreases s.len() - i,
{
    if i < s.len() {
        lemma_unescape_plain(s, i + 1);
        assert(seq![s[i]] + s.subrange(i + 1, s.len() as int) =~= s.subrange(i, s.len() as int));
    } else {
        assert(s.subrange(i, s.len() as int) =~= Seq::<char>::empty());
    }
}

/// Replacing escape sequences from a position on looks at nothing before
/// that position.
pub proof fn lemma_unescape_from_rest(s: Seq<char>, k: int, j: int)
    requires
        0 <= k <= s.len(),
        0 <= j,
    ensures
        unescape_from(s, k + j) == unescape_from(s.skip(k), j),
    decreases s.len() - (k + j),
{
    if k + j < s.len() {
        lemma_unescape_from_rest(s, k, j + 1);
        if k + j + 1 < s.len() {
            lemma_unescape_from_rest(s, k, j + 2);
        }
    }
}

/// In a string literal, a backslash with the letter of an escape sequence
/// after it stands for one character: `\n` for a line break, and so on. The
/// text before it is kept, where it holds no backslash, and the text after
/// it is read in the same way.
pub proof fn lemma_escape_is_replaced(before: Seq<char>, code: char, after: Seq<char>)
    requires
        forall|i: int| 0 <= i < before.len() ==> before[i] != '\\',
        escape_of(code) is Some,
    ensures
        unescaped(before + seq!['\\', code] + after) == before + seq![escape_of(code)->0]
            + unescaped(after),
        escape_of('n') == Some('\n'),
{
    let s = before + seq!['\\', code] + after;
    let n = before.len() as int;
    assert(s.skip(n + 2) =~= after);
    lemma_unescape_from_rest(s, n + 2, 0);
    lemma_escape_after_plain(s, n, 0);
    assert(s.subrange(0, n) =~= before);
}

proof fn lemma_escape_after_plain(s: Seq<char>, n: int, i: int)
    requires
        0 <= i <= n,
        n + 1 < s.len(),
        forall|j: int| 0 <= j < n ==> s[j] != '\\',
        s[n] == '\\',
        escape_of(s[n + 1]) is Some,
    ensures
        unescape_from(s, i) == s.subrange(i, n) + seq![escape_of(s[n + 1])->0] + unescape_from(
            s,
            n + 2,
        ),
    decreases n - i,
{
    let tail = seq![escape_of(s[n + 1])->0] + unescape_from(s, n + 2);
    if i < n {
        lemma_escape_after_plain(s, n, i + 1);
        assert(seq![s[i]] + (s.subrange(i + 1, n) + tail) =~= s.subrange(i, n) + tail);
        assert(s.subrange(i + 1, n) + seq![escape_of(s[n + 1])->0] + unescape_from(s, n + 2)
            =~= s.subrange(i + 1, n) + tail);
        assert(s.subrange(i, n) + seq![escape_of(s[n + 1])->0] + unescape_from(s, n + 2)
            =~= s.subrange(i, n) + tail);
    } else {
        assert(s.subrange(n, n) + tail =~= tail);
        assert(s.subrange(n, n) + seq![escape_of(s[n + 1])->0] + unescape_from(s, n + 2)
            =~= tail);
    }
}

/// A loop over a value that is no list stops the run with an error that
/// names the kind of the value, and nothing is written: over a number, the
/// error reads `Integer is not iterable`.
pub proof fn lemma_loop_wants_a_list(
    variable: Seq<char>,
    iterable: ExprView,
    body: Seq<StatementView>,
    run: Run,
    value: SymbolView,
)
    requires
        run.error is None,
        eval_value(iterable, run.globals, run.locals) == Ok::<SymbolView, EvalErrorView>(value),
        !(value is List),
    ensures
        run_statement(StatementView::ForLoop(variable, iterable, body), run) == stopped(
            run,
            EvalErrorView::NotIterable(kind_of(value)),
        ),
        value is Integer ==> reason_of(EvalErrorView::NotIterable(kind_of(value))) == "Integer"@
            + " is not iterable"@,
{
}


/// A variable that was assigned a value prints as the text of that value,
/// with a line break after it, unless a loop has bound the same name.
pub proof fn lemma_assignment_then_print(
    name: Seq<char>,
    value: ExprView,
    run: Run,
    v: SymbolView,
    text: Seq<char>,
)
    requires
        run.error is None,
        !run.locals.contains_key(name),
        eval_value(value, run.globals, run.locals) == Ok::<SymbolView, EvalErrorView>(v),
        display(v) == Some(text),
    ensures
        run_block(
            seq![
                StatementView::Assignment(name, value),
                StatementView::PrintStatement(ExprView::Identifier(name), true),
            ],
            run,
        ) == (Run {
            globals: run.globals.insert(name, v),
            output: (run.output + text).push('\n'),
            ..run
        }),
{
    let assign = StatementView::Assignment(name, value);
    let print = StatementView::PrintStatement(ExprView::Identifier(name), true);
    let assigned = Run { globals: run.globals.insert(name, v), ..run };
    let printed = Run { output: (run.output + text).push('\n'), ..assigned };
    assert(run_statement(assign, run) == assigned);
    assert(lookup(name, assigned.globals, assigned.locals) == Some(v));
    assert(eval_value(ExprView::Identifier(name), assigned.globals, assigned.locals) == Ok::<
        SymbolView,
        EvalErrorView,
    >(v));
    assert(interpolate(ExprView::Identifier(name), assigned.globals, assigned.locals) == Ok::<
        Seq<char>,
        EvalErrorView,
    >(text));
    assert(run_statement(print, assigned) == printed);
    assert(seq![assign, print].drop_first() =~= seq![print]);
    assert(seq![print].drop_first() =~= Seq::<StatementView>::empty());
    assert(run_block(Seq::<StatementView>::empty(), printed) == printed);
    assert(run_block(seq![print], assigned) == printed);
}

/// Two string literals joined by `.` give the text of the first followed by
/// the text of the second.
pub proof fn lemma_concatenation(
    first: Seq<char>,
    second: Seq<char>,
    globals: Map<Seq<char>, SymbolView>,
    locals: Map<Seq<char>, SymbolView>,
)
    ensures
        eval_value(
            ExprView::Concat(seq![ExprView::Quoted(first), ExprView::Quoted(second)]),
            globals,
            locals,
        ) == Ok::<SymbolView, EvalErrorView>(
            SymbolView::String(unescaped(first) + unescaped(second)),
        ),
{
    let a = ExprView::Quoted(first);
    let b = ExprView::Quoted(second);
    assert(eval_value(a, globals, locals) == Ok::<SymbolView, EvalErrorView>(
        SymbolView::String(unescaped(first)),
    ));
    assert(eval_value(b, globals, locals) == Ok::<SymbolView, EvalErrorView>(
        SymbolView::String(unescaped(second)),
    ));
    assert(interpolate(a, globals, locals) == Ok::<Seq<char>, EvalErrorView>(unescaped(first)));
    assert(interpolate(b, globals, locals) == Ok::<Seq<char>, EvalErrorView>(unescaped(second)));
    assert(seq![a, b].drop_first() =~= seq![b]);
    assert(seq![b].drop_first() =~= Seq::<ExprView>::empty());
    assert(Seq::<char>::empty() + unescaped(first) =~= unescaped(first));
    let all = unescaped(first) + unescaped(second);
    assert(concat_text(Seq::<ExprView>::empty(), all, globals, locals) == Ok::<
        Seq<char>,
        EvalErrorView,
    >(all));
    assert(concat_text(seq![b], unescaped(first), globals, locals) == Ok::<
        Seq<char>,
        EvalErrorView,
    >(all));
    assert(concat_text(seq![a, b], Seq::empty(), globals, locals) == Ok::<
        Seq<char>,
        EvalErrorView,
    >(all));
}

/// The variable of a loop is unbound when the loop is done: what it was
/// bound to does not leak out of the loop.
pub proof fn lemma_loop_variable_does_not_leak(
    variable: Seq<char>,
    iterable: ExprView,
    body: Seq<StatementView>,
    run: Run,
)
    requires
        run.error is None,
    ensures
        run_statement(StatementView::ForLoop(variable, iterable, body), run).error is None
            ==> !run_statement(
            StatementView::ForLoop(variable, iterable, body),
            run,
        ).locals.contains_key(variable),
{
}

/// The lines that the values `items` print as, each with its line break, in
/// order.
pub open spec fn lines_of(items: Seq<SymbolView>) -> Seq<char>
    decreases items.len(),
{
    if items.len() == 0 {
        Seq::empty()
    } else {
        (display(items[0])->0).push('\n') + lines_of(items.drop_first())
    }
}

/// A loop that prints its variable writes the items of its list in their
/// order, one to a line.
pub proof fn lemma_loop_prints_in_order(variable: Seq<char>, items: Seq<SymbolView>, run: Run)
    requires
        run.error is None,
        forall|i: int| 0 <= i < items.len() ==> display(#[trigger] items[i]) is Some,
    ensures
        run_loop(
            variable,
            items,
            seq![StatementView::PrintStatement(ExprView::Identifier(variable), true)],
            run,
        ).output == run.output + lines_of(items),
        run_loop(
            variable,
            items,
            seq![StatementView::PrintStatement(ExprView::Identifier(variable), true)],
            run,
        ).error is None,
        run_loop(
            variable,
            items,
            seq![StatementView::PrintStatement(ExprView::Identifier(variable), true)],
            run,
        ).globals == run.globals,
    decreases items.len(),
{
    let print = StatementView::PrintStatement(ExprView::Identifier(variable), true);
    if items.len() == 0 {
        assert(run.output + lines_of(items) =~= run.output);
    } else {
        let bound = Run { locals: run.locals.insert(variable, items[0]), ..run };
        let line = (display(items[0])->0).push('\n');
        let printed = Run { output: (run.output + display(items[0])->0).push('\n'), ..bound };
        assert(lookup(variable, bound.globals, bound.locals) == Some(items[0]));
        assert(eval_value(ExprView::Identifier(variable), bound.globals, bound.locals) == Ok::<
            SymbolView,
            EvalErrorView,
        >(items[0]));
        assert(interpolate(ExprView::Identifier(variable), bound.globals, bound.locals) == Ok::<
            Seq<char>,
            EvalErrorView,
        >(display(items[0])->0));
        assert(run_statement(print, bound) == printed);
        assert(seq![print].drop_first() =~= Seq::<StatementView>::empty());
        assert(run_block(Seq::<StatementView>::empty(), printed) == printed);
        assert(run_block(seq![print], bound) == printed);
        assert forall|i: int| 0 <= i < items.drop_first().len() implies display(
            #[trigger] items.drop_first()[i],
        ) is Some by {
            assert(items.drop_first()[i] == items[i + 1]);
        }
        lemma_loop_prints_in_order(variable, items.drop_first(), printed);
        assert(printed.output + lines_of(items.drop_first()) =~= run.output + lines_of(items));
    }
}


/// Text from which the brackets were taken holds none.
pub proof fn lemma_without_brackets(s: Seq<char>)
    ensures
        !without_brackets(s).contains('['),
        !without_brackets(s).contains(']'),
    decreases s.len(),
{
    if s.len() > 0 {
        lemma_without_brackets(s.drop_last());
        let init = without_brackets(s.drop_last());
        if !(s.last() == '[' || s.last() == ']') {
            assert forall|i: int| 0 <= i < init.push(s.last()).len() implies init.push(s.last())[i]
                != '[' && init.push(s.last())[i] != ']' by {
                if i < init.len() {
                    assert(init.contains(init[i]));
                }
            }
        }
    }
}

proof fn lemma_run_start_in_bounds(s: Seq<char>, lo: int, hi: int, p: spec_fn(char) -> bool)
    requires
        0 <= lo <= hi <= s.len(),
    ensures
        lo <= run_start(s, lo, hi, p) <= hi,
    decreases hi - lo,
{
    if lo < hi && p(s[hi - 1]) {
        lemma_run_start_in_bounds(s, lo, hi - 1, p);
    }
}

/// The items of a list are read by the same rule as any value: the text of
/// an item holds no bracket, so that it is the text of a single value.
pub proof fn lemma_item_is_read_as_a_value(part: Seq<char>)
    ensures
        value_of(item_text(part)) == scalar_of(item_text(part)),
{
    let bare = without_brackets(part);
    lemma_without_brackets(part);
    lemma_run_end(bare, 0, whitespace());
    let a = run_end(bare, 0, whitespace());
    lemma_run_start_in_bounds(bare, a, bare.len() as int, whitespace());
    let text = item_text(part);
    assert forall|i: int| 0 <= i < text.len() implies text[i] != '[' by {
        assert(text[i] == bare[a + i]);
        assert(bare.contains(bare[a + i]));
    }
}

} // verus!
