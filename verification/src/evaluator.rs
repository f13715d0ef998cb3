//! The evaluator: runs statements against the variables and collects the
//! text they write.
use crate::ast::{
    expr_views, lemma_expr_views, lemma_statement_views, statement_views, Expr, ExprView,
    Statement, StatementView,
};
use crate::symbol::{
    display, field_views, get_symbol_from_variable_value, kind_name, kind_of,
    lemma_field_views, lemma_symbol_views, symbol_views, value_of, Symbol, SymbolKind, SymbolView,
};
use crate::text::{is_word, push_char, push_unescaped, unescaped};
use vstd::prelude::*;

verus! {

/// The map that a list of bindings stands for: a later binding of a name
/// overrides an earlier one.
pub open spec fn bindings(entries: Seq<(Seq<char>, SymbolView)>) -> Map<Seq<char>, SymbolView>
    decreases entries.len(),
{
    if entries.len() == 0 {
        Map::empty()
    } else {
        bindings(entries.drop_last()).insert(entries.last().0, entries.last().1)
    }
}

/// A name that no binding has is not in the map.
pub proof fn lemma_bindings_absent(entries: Seq<(Seq<char>, SymbolView)>, name: Seq<char>)
    requires
        forall|j: int| 0 <= j < entries.len() ==> (#[trigger] entries[j]).0 != name,
    ensures
        !bindings(entries).contains_key(name),
    decreases entries.len(),
{
    if entries.len() > 0 {
        assert(entries.last().0 != name);
        assert forall|j: int| 0 <= j < entries.drop_last().len() implies (#[trigger] entries.drop_last()[j]).0
            != name by {
            assert(entries.drop_last()[j] == entries[j]);
        }
        lemma_bindings_absent(entries.drop_last(), name);
    }
}

/// The last binding of a name is the one that the map holds.
pub proof fn lemma_bindings_last(entries: Seq<(Seq<char>, SymbolView)>, i: int)
    requires
        0 <= i < entries.len(),
        forall|j: int| i < j < entries.len() ==> (#[trigger] entries[j]).0 != entries[i].0,
    ensures
        bindings(entries).contains_key(entries[i].0),
        bindings(entries)[entries[i].0] == entries[i].1,
    decreases entries.len(),
{
    if i < entries.len() - 1 {
        assert(entries.last().0 != entries[i].0);
        assert forall|j: int| i < j < entries.drop_last().len() implies (#[trigger] entries.drop_last()[j]).0
            != entries.drop_last()[i].0 by {
            assert(entries.drop_last()[j] == entries[j]);
        }
        lemma_bindings_last(entries.drop_last(), i);
    }
}

/// Taking one binding out changes the map at the name of that binding at
/// most.
pub proof fn lemma_bindings_remove(entries: Seq<(Seq<char>, SymbolView)>, i: int, name: Seq<char>)
    requires
        0 <= i < entries.len(),
        name != entries[i].0,
    ensures
        bindings(entries.remove(i)).contains_key(name) == bindings(entries).contains_key(name),
        bindings(entries.remove(i)).contains_key(name) ==> bindings(entries.remove(i))[name]
            == bindings(entries)[name],
    decreases entries.len(),
{
    if i == entries.len() - 1 {
        assert(entries.remove(i) =~= entries.drop_last());
    } else {
        assert(entries.remove(i).drop_last() =~= entries.drop_last().remove(i));
        assert(entries.remove(i).last() == entries.last());
        lemma_bindings_remove(entries.drop_last(), i, name);
    }
}

/// Whether `a` and `b` hold the same for every name but `name`.
pub open spec fn same_but(
    a: Map<Seq<char>, SymbolView>,
    b: Map<Seq<char>, SymbolView>,
    name: Seq<char>,
) -> bool {
    forall|key: Seq<char>|
        key != name ==> (#[trigger] a.contains_key(key)) == b.contains_key(key) && (a.contains_key(
            key,
        ) ==> a[key] == b[key])
}

/// A set of variables: each name is bound to one value at most.
#[derive(Debug)]
pub struct Scope {
    entries: Vec<(String, Symbol)>,
}

impl View for Scope {
    type V = Map<Seq<char>, SymbolView>;

    closed spec fn view(&self) -> Map<Seq<char>, SymbolView> {
        bindings(field_views(self.entries@))
    }
}

impl Scope {
    /// The scope without variables.
    pub fn new() -> (scope: Self)
        ensures
            scope@ == Map::<Seq<char>, SymbolView>::empty(),
    {
        Scope { entries: Vec::new() }
    }

    /// The place of a binding of `name`, where there is one.
    fn position(&self, name: &str) -> (r: Option<usize>)
        ensures
            match r {
                Some(i) => i < self.entries@.len() && self.entries@[i as int].0@ == name@ && forall|
                    j: int,
                |
                    i < j < self.entries@.len() ==> (#[trigger] self.entries@[j]).0@ != name@,
                None => forall|j: int|
                    0 <= j < self.entries@.len() ==> (#[trigger] self.entries@[j]).0@ != name@,
            },
    {
        let mut i = self.entries.len();
        while i > 0
            invariant
                i <= self.entries@.len(),
                forall|j: int|
                    i <= j < self.entries@.len() ==> (#[trigger] self.entries@[j]).0@ != name@,
            decreases i,
        {
            i -= 1;
            if is_word(&self.entries[i].0, name) {
                return Some(i);
            }
        }
        None
    }

    /// The value of the variable `name`, where it has one.
    pub fn get(&self, name: &str) -> (r: Option<&Symbol>)
        ensures
            match r {
                Some(v) => self@.contains_key(name@) && v@ == self@[name@],
                None => !self@.contains_key(name@),
            },
    {
        proof {
            lemma_field_views(self.entries@);
        }
        match self.position(name) {
            Some(i) => {
                proof {
                    lemma_bindings_last(field_views(self.entries@), i as int);
                }
                Some(&self.entries[i].1)
            },
            None => {
                proof {
                    lemma_bindings_absent(field_views(self.entries@), name@);
                }
                None
            },
        }
    }

    /// Takes the variable `name` out of the scope.
    pub fn remove(&mut self, name: &str)
        ensures
            final(self)@ == old(self)@.remove(name@),
    {
        loop
            invariant
                same_but(self@, old(self)@, name@),
            decreases self.entries@.len(),
        {
            proof {
                lemma_field_views(self.entries@);
            }
            match self.position(name) {
                Some(i) => {
                    let ghost before = self.entries@;
                    self.entries.remove(i);
                    proof {
                        lemma_field_views(self.entries@);
                        assert(field_views(self.entries@) =~= field_views(before).remove(i as int));
                        assert forall|key: Seq<char>| key != name@ implies (#[trigger] self@.contains_key(
                            key,
                        )) == old(self)@.contains_key(key) && (self@.contains_key(key) ==> self@[key]
                            == old(self)@[key]) by {
                            lemma_bindings_remove(field_views(before), i as int, key);
                        }
                    }
                },
                None => {
                    proof {
                        lemma_bindings_absent(field_views(self.entries@), name@);
                        assert(self@ =~= old(self)@.remove(name@));
                    }
                    return ;
                },
            }
        }
    }

    /// Binds the variable `name` to `value`, whatever it was bound to.
    pub fn insert(&mut self, name: String, value: Symbol)
        ensures
            final(self)@ == old(self)@.insert(name@, value@),
    {
        self.remove(name.as_str());
        let ghost before = self.entries@;
        self.entries.push((name, value));
        proof {
            assert(self.entries@.drop_last() =~= before);
            let grown = field_views(before).push((name@, value@));
            assert(field_views(self.entries@) == grown);
            assert(grown.drop_last() =~= field_views(before));
            assert(self@ == bindings(field_views(before)).insert(name@, value@));
            assert(self@ =~= old(self)@.insert(name@, value@));
        }
    }
}


/// Why statements cannot be run.
#[derive(Debug, PartialEq)]
pub enum EvalError {
    /// A condition or a loop names a variable that has no value.
    UnknownVariable(String),
    /// A condition has a value of this kind, which is no boolean.
    NotBoolean(SymbolKind),
    /// A loop is to run over a value of this kind, which is no list.
    NotIterable(SymbolKind),
    /// A value of this kind is to be written, which has no text.
    NotPrintable(SymbolKind),
    /// The text of a value stands for no value.
    InvalidValue(String),
}

/// `EvalError` as a mathematical value.
pub enum EvalErrorView {
    UnknownVariable(Seq<char>),
    NotBoolean(SymbolKind),
    NotIterable(SymbolKind),
    NotPrintable(SymbolKind),
    InvalidValue(Seq<char>),
}

impl View for EvalError {
    type V = EvalErrorView;

    open spec fn view(&self) -> EvalErrorView {
        match self {
            EvalError::UnknownVariable(name) => EvalErrorView::UnknownVariable(name@),
            EvalError::NotBoolean(kind) => EvalErrorView::NotBoolean(*kind),
            EvalError::NotIterable(kind) => EvalErrorView::NotIterable(*kind),
            EvalError::NotPrintable(kind) => EvalErrorView::NotPrintable(*kind),
            EvalError::InvalidValue(text) => EvalErrorView::InvalidValue(text@),
        }
    }
}

/// The reason that the error `e` gives, in words.
pub open spec fn reason_of(e: EvalErrorView) -> Seq<char> {
    match e {
        EvalErrorView::UnknownVariable(name) => "couldn't find variable "@ + name,
        EvalErrorView::NotBoolean(kind) => "variable needs to be boolean, found "@ + kind_name(
            kind,
        ),
        EvalErrorView::NotIterable(kind) => kind_name(kind) + " is not iterable"@,
        EvalErrorView::NotPrintable(kind) => kind_name(kind) + " has no text"@,
        EvalErrorView::InvalidValue(text) => "invalid value "@ + text,
    }
}

impl EvalError {
    /// The reason in words, naming the variable, the kind or the text at
    /// fault.
    pub fn reason(&self) -> (r: String)
        ensures
            r@ == reason_of(self@),
    {
        match self {
            EvalError::UnknownVariable(name) => {
                String::from_str("couldn't find variable ").concat(name.as_str())
            },
            EvalError::NotBoolean(kind) => {
                String::from_str("variable needs to be boolean, found ").concat(
                    kind.name().as_str(),
                )
            },
            EvalError::NotIterable(kind) => kind.name().concat(" is not iterable"),
            EvalError::NotPrintable(kind) => kind.name().concat(" has no text"),
            EvalError::InvalidValue(text) => {
                String::from_str("invalid value ").concat(text.as_str())
            },
        }
    }
}

/// The value of the variable `name`: the local one, else the global one.
pub open spec fn lookup(
    name: Seq<char>,
    globals: Map<Seq<char>, SymbolView>,
    locals: Map<Seq<char>, SymbolView>,
) -> Option<SymbolView> {
    if locals.contains_key(name) {
        Some(locals[name])
    } else if globals.contains_key(name) {
        Some(globals[name])
    } else {
        None
    }
}

/// The value of the expression `e`.
///
/// A string literal gives its text with the escape sequences replaced, the
/// text of a value the value it stands for, a concatenation the joined texts
/// of its parts. A variable must have a value. `not`, `and` and `or` give a
/// boolean.
pub open spec fn eval_value(
    e: ExprView,
    globals: Map<Seq<char>, SymbolView>,
    locals: Map<Seq<char>, SymbolView>,
) -> Result<SymbolView, EvalErrorView>
    decreases e, 0nat,
{
    match e {
        ExprView::Litteral(v) => Ok(v),
        ExprView::Identifier(name) => match lookup(name, globals, locals) {
            Some(v) => Ok(v),
            None => Err(EvalErrorView::UnknownVariable(name)),
        },
        ExprView::Quoted(raw) => Ok(SymbolView::String(unescaped(raw))),
        ExprView::Raw(text) => match value_of(text) {
            Some(v) => Ok(v),
            None => Err(EvalErrorView::InvalidValue(text)),
        },
        ExprView::Concat(parts) => match concat_text(parts, Seq::empty(), globals, locals) {
            Ok(text) => Ok(SymbolView::String(text)),
            Err(x) => Err(x),
        },
        ExprView::Not(inner) => match eval_bool(*inner, globals, locals) {
            Ok(b) => Ok(SymbolView::Boolean(!b)),
            Err(x) => Err(x),
        },
        ExprView::And(operands) => match eval_all(operands, globals, locals) {
            Ok(b) => Ok(SymbolView::Boolean(b)),
            Err(x) => Err(x),
        },
        ExprView::Or(operands) => match eval_any(operands, globals, locals) {
            Ok(b) => Ok(SymbolView::Boolean(b)),
            Err(x) => Err(x),
        },
    }
}

/// The truth of the condition `e`: its value, which must be a boolean.
pub open spec fn eval_bool(
    e: ExprView,
    globals: Map<Seq<char>, SymbolView>,
    locals: Map<Seq<char>, SymbolView>,
) -> Result<bool, EvalErrorView>
    decreases e, 1nat,
{
    match eval_value(e, globals, locals) {
        Ok(SymbolView::Boolean(b)) => Ok(b),
        Ok(v) => Err(EvalErrorView::NotBoolean(kind_of(v))),
        Err(x) => Err(x),
    }
}

/// Whether all of `operands` hold. They are taken from the left, and none is
/// looked at after the first that does not hold.
pub open spec fn eval_all(
    operands: Seq<ExprView>,
    globals: Map<Seq<char>, SymbolView>,
    locals: Map<Seq<char>, SymbolView>,
) -> Result<bool, EvalErrorView>
    decreases operands, 0nat,
{
    if operands.len() == 0 {
        Ok(true)
    } else {
        match eval_bool(operands[0], globals, locals) {
            Ok(true) => eval_all(operands.drop_first(), globals, locals),
            other => other,
        }
    }
}

/// Whether one of `operands` holds. They are taken from the left, and none
/// is looked at after the first that holds.
pub open spec fn eval_any(
    operands: Seq<ExprView>,
    globals: Map<Seq<char>, SymbolView>,
    locals: Map<Seq<char>, SymbolView>,
) -> Result<bool, EvalErrorView>
    decreases operands, 0nat,
{
    if operands.len() == 0 {
        Ok(false)
    } else {
        match eval_bool(operands[0], globals, locals) {
            Ok(false) => eval_any(operands.drop_first(), globals, locals),
            other => other,
        }
    }
}

/// The text that the expression `e` writes: `null` for a variable without a
/// value, else the text of its value.
pub open spec fn interpolate(
    e: ExprView,
    globals: Map<Seq<char>, SymbolView>,
    locals: Map<Seq<char>, SymbolView>,
) -> Result<Seq<char>, EvalErrorView>
    decreases e, 1nat,
{
    if e matches ExprView::Identifier(name) && lookup(name, globals, locals) is None {
        Ok("null"@)
    } else {
        match eval_value(e, globals, locals) {
            Ok(v) => match display(v) {
                Some(text) => Ok(text),
                None => Err(EvalErrorView::NotPrintable(kind_of(v))),
            },
            Err(x) => Err(x),
        }
    }
}

/// `text`, followed by the texts that `parts` write, in order.
pub open spec fn concat_text(
    parts: Seq<ExprView>,
    text: Seq<char>,
    globals: Map<Seq<char>, SymbolView>,
    locals: Map<Seq<char>, SymbolView>,
) -> Result<Seq<char>, EvalErrorView>
    decreases parts, 0nat,
{
    if parts.len() == 0 {
        Ok(text)
    } else {
        match interpolate(parts[0], globals, locals) {
            Ok(next) => concat_text(parts.drop_first(), text + next, globals, locals),
            Err(x) => Err(x),
        }
    }
}

/// The items of the list that the expression `e` gives.
pub open spec fn eval_list(
    e: ExprView,
    globals: Map<Seq<char>, SymbolView>,
    locals: Map<Seq<char>, SymbolView>,
) -> Result<Seq<SymbolView>, EvalErrorView> {
    match eval_value(e, globals, locals) {
        Ok(SymbolView::List(items)) => Ok(items),
        Ok(v) => Err(EvalErrorView::NotIterable(kind_of(v))),
        Err(x) => Err(x),
    }
}

/// The state of a run: the variables, the text written so far, and the
/// error that stopped the run, if one did.
pub struct Run {
    pub globals: Map<Seq<char>, SymbolView>,
    pub locals: Map<Seq<char>, SymbolView>,
    pub output: Seq<char>,
    pub error: Option<EvalErrorView>,
}

/// The run `run`, stopped by the error `e`.
pub open spec fn stopped(run: Run, e: EvalErrorView) -> Run {
    Run { error: Some(e), ..run }
}

/// The state after the statement `s`, run in the state `run`.
///
/// A stopped run stays as it is. An assignment binds a global variable. A
/// print statement writes. A conditional runs one of its bodies. A loop
/// takes the items of its list as they are when it starts, binds its
/// variable locally to each in turn and runs its body; when all are done it
/// unbinds the variable.
pub open spec fn run_statement(s: StatementView, run: Run) -> Run
    decreases s, 0nat,
{
    if run.error is Some {
        run
    } else {
        match s {
            StatementView::Assignment(name, value) => match eval_value(
                value,
                run.globals,
                run.locals,
            ) {
                Ok(v) => Run { globals: run.globals.insert(name, v), ..run },
                Err(x) => stopped(run, x),
            },
            StatementView::PrintStatement(value, newline) => match interpolate(
                value,
                run.globals,
                run.locals,
            ) {
                Ok(text) => Run {
                    output: if newline {
                        (run.output + text).push('\n')
                    } else {
                        run.output + text
                    },
                    ..run
                },
                Err(x) => stopped(run, x),
            },
            StatementView::IfStatement(condition, then_body, else_body) => match eval_bool(
                condition,
                run.globals,
                run.locals,
            ) {
                Ok(true) => run_block(then_body, run),
                Ok(false) => run_block(else_body, run),
                Err(x) => stopped(run, x),
            },
            StatementView::ForLoop(variable, iterable, body) => match eval_list(
                iterable,
                run.globals,
                run.locals,
            ) {
                Ok(items) => {
                    let end = run_loop(variable, items, body, run);
                    if end.error is Some {
                        end
                    } else {
                        Run { locals: end.locals.remove(variable), ..end }
                    }
                },
                Err(x) => stopped(run, x),
            },
            StatementView::Skip => run,
            StatementView::End(_) => run,
        }
    }
}

/// The state after the statements `statements`, run in order.
pub open spec fn run_block(statements: Seq<StatementView>, run: Run) -> Run
    decreases statements, 0nat,
{
    if statements.len() == 0 {
        run
    } else {
        run_block(statements.drop_first(), run_statement(statements[0], run))
    }
}

/// The state after the body `body`, run once for each of `items` with
/// `variable` bound to it, as long as the run is not stopped.
pub open spec fn run_loop(
    variable: Seq<char>,
    items: Seq<SymbolView>,
    body: Seq<StatementView>,
    run: Run,
) -> Run
    decreases body, items.len(),
{
    if items.len() == 0 || run.error is Some {
        run
    } else {
        run_loop(
            variable,
            items.drop_first(),
            body,
            run_block(body, Run { locals: run.locals.insert(variable, items[0]), ..run }),
        )
    }
}

/// A stopped run stays as it is, whatever statements follow.
pub proof fn lemma_stopped_stays(statements: Seq<StatementView>, run: Run)
    requires
        run.error is Some,
    ensures
        run_block(statements, run) == run,
    decreases statements.len(),
{
    if statements.len() > 0 {
        assert(run_statement(statements[0], run) == run);
        lemma_stopped_stays(statements.drop_first(), run);
    }
}

/// What statements write when run on the variables `globals` and `locals`,
/// or the error that stops them.
pub open spec fn output_of(
    statements: Seq<StatementView>,
    globals: Map<Seq<char>, SymbolView>,
    locals: Map<Seq<char>, SymbolView>,
) -> Result<Seq<char>, EvalErrorView> {
    let end = run_block(
        statements,
        Run { globals, locals, output: Seq::empty(), error: None },
    );
    match end.error {
        Some(x) => Err(x),
        None => Ok(end.output),
    }
}


/// Whether `r` is the value or the error `p`.
pub open spec fn is_symbol(
    r: Result<Symbol, EvalError>,
    p: Result<SymbolView, EvalErrorView>,
) -> bool {
    match p {
        Ok(v) => r matches Ok(s) && s@ == v,
        Err(x) => r matches Err(e) && e@ == x,
    }
}

/// Whether `r` is the truth value or the error `p`.
pub open spec fn is_bool(r: Result<bool, EvalError>, p: Result<bool, EvalErrorView>) -> bool {
    match p {
        Ok(v) => r matches Ok(b) && b == v,
        Err(x) => r matches Err(e) && e@ == x,
    }
}

/// Whether `r` is the text or the error `p`.
pub open spec fn is_text(
    r: Result<String, EvalError>,
    p: Result<Seq<char>, EvalErrorView>,
) -> bool {
    match p {
        Ok(v) => r matches Ok(s) && s@ == v,
        Err(x) => r matches Err(e) && e@ == x,
    }
}

/// The variables that statements run on: the global ones, which live as long
/// as the evaluator, and the local ones, which loops bind.
pub struct Evaluator {
    pub globals: Scope,
    pub locals: Scope,
}

impl Evaluator {
    /// An evaluator with the global variables `globals` and no local ones.
    pub fn new(globals: Scope) -> (evaluator: Self)
        ensures
            evaluator.globals@ == globals@,
            evaluator.locals@ == Map::<Seq<char>, SymbolView>::empty(),
    {
        Evaluator { globals, locals: Scope::new() }
    }

    /// The state of a run that has written `output` on the variables as
    /// they are.
    pub open spec fn state(&self, output: Seq<char>) -> Run {
        Run { globals: self.globals@, locals: self.locals@, output, error: None }
    }

    /// Whether the evaluator, the text `output` and the result `r` are what
    /// the run `end` leaves.
    pub open spec fn reaches(&self, output: Seq<char>, r: Result<(), EvalError>, end: Run) -> bool {
        &&& self.globals@ == end.globals
        &&& self.locals@ == end.locals
        &&& output == end.output
        &&& match end.error {
            None => r is Ok,
            Some(x) => r matches Err(e) && e@ == x,
        }
    }

    /// The value of the variable `name`: the local one, else the global one.
    pub fn lookup(&self, name: &str) -> (r: Option<&Symbol>)
        ensures
            match lookup(name@, self.globals@, self.locals@) {
                Some(v) => r matches Some(s) && s@ == v,
                None => r is None,
            },
    {
        match self.locals.get(name) {
            Some(v) => Some(v),
            None => self.globals.get(name),
        }
    }

    /// The value of the expression `e`.
    pub fn evaluate(&self, e: &Expr) -> (r: Result<Symbol, EvalError>)
        ensures
            is_symbol(r, eval_value(e@, self.globals@, self.locals@)),
        decreases e, 0nat,
    {
        match e {
            Expr::Litteral(v) => Ok(v.clone()),
            Expr::Identifier(name) => match self.lookup(name.as_str()) {
                Some(v) => Ok(v.clone()),
                None => Err(EvalError::UnknownVariable(name.clone())),
            },
            Expr::Quoted(raw) => {
                let mut text = String::new();
                push_unescaped(&mut text, raw.as_str());
                assert(text@ =~= unescaped(raw@));
                Ok(Symbol::String(text))
            },
            Expr::Raw(text) => match get_symbol_from_variable_value(text.clone()) {
                Some(v) => Ok(v),
                None => Err(EvalError::InvalidValue(text.clone())),
            },
            Expr::Concat(parts) => {
                let ghost views = expr_views(parts@);
                let mut text = String::new();
                let mut i: usize = 0;
                assert(views.skip(0) =~= views);
                while i < parts.len()
                    invariant
                        i <= parts@.len(),
                        *e == Expr::Concat(*parts),
                        views == expr_views(parts@),
                        concat_text(views.skip(i as int), text@, self.globals@, self.locals@)
                            == concat_text(views, Seq::empty(), self.globals@, self.locals@),
                    decreases parts@.len() - i,
                {
                    proof {
                        lemma_expr_views(parts@);
                        assert(decreases_to!(e => e->Concat_0));
                        assert(decreases_to!(parts => parts@));
                        assert(decreases_to!(parts@ => parts@[i as int]));
                        assert(views.skip(i as int).drop_first() =~= views.skip(i + 1));
                    }
                    match self.interpolate(&parts[i]) {
                        Ok(next) => {
                            text.append(next.as_str());
                        },
                        Err(x) => {
                            return Err(x);
                        },
                    }
                    i += 1;
                }
                proof {
                    lemma_expr_views(parts@);
                }
                Ok(Symbol::String(text))
            },
            Expr::Not(inner) => {
                proof {
                    assert(decreases_to!(e => e->Not_0));
                }
                match self.condition(inner) {
                    Ok(b) => Ok(Symbol::Boolean(!b)),
                    Err(x) => Err(x),
                }
            },
            Expr::And(operands) => {
                let ghost views = expr_views(operands@);
                let mut i: usize = 0;
                assert(views.skip(0) =~= views);
                while i < operands.len()
                    invariant
                        i <= operands@.len(),
                        *e == Expr::And(*operands),
                        views == expr_views(operands@),
                        eval_all(views.skip(i as int), self.globals@, self.locals@) == eval_all(
                            views,
                            self.globals@,
                            self.locals@,
                        ),
                    decreases operands@.len() - i,
                {
                    proof {
                        lemma_expr_views(operands@);
                        assert(decreases_to!(e => e->And_0));
                        assert(decreases_to!(operands => operands@));
                        assert(decreases_to!(operands@ => operands@[i as int]));
                        assert(views.skip(i as int).drop_first() =~= views.skip(i + 1));
                    }
                    match self.condition(&operands[i]) {
                        Ok(true) => {},
                        Ok(false) => {
                            return Ok(Symbol::Boolean(false));
                        },
                        Err(x) => {
                            return Err(x);
                        },
                    }
                    i += 1;
                }
                proof {
                    lemma_expr_views(operands@);
                }
                Ok(Symbol::Boolean(true))
            },
            Expr::Or(operands) => {
                let ghost views = expr_views(operands@);
                let mut i: usize = 0;
                assert(views.skip(0) =~= views);
                while i < operands.len()
                    invariant
                        i <= operands@.len(),
                        *e == Expr::Or(*operands),
                        views == expr_views(operands@),
                        eval_any(views.skip(i as int), self.globals@, self.locals@) == eval_any(
                            views,
                            self.globals@,
                            self.locals@,
                        ),
                    decreases operands@.len() - i,
                {
                    proof {
                        lemma_expr_views(operands@);
                        assert(decreases_to!(e => e->Or_0));
                        assert(decreases_to!(operands => operands@));
                        assert(decreases_to!(operands@ => operands@[i as int]));
                        assert(views.skip(i as int).drop_first() =~= views.skip(i + 1));
                    }
                    match self.condition(&operands[i]) {
                        Ok(false) => {},
                        Ok(true) => {
                            return Ok(Symbol::Boolean(true));
                        },
                        Err(x) => {
                            return Err(x);
                        },
                    }
                    i += 1;
                }
                proof {
                    lemma_expr_views(operands@);
                }
                Ok(Symbol::Boolean(false))
            },
        }
    }

    /// The truth of the condition `e`.
    pub fn condition(&self, e: &Expr) -> (r: Result<bool, EvalError>)
        ensures
            is_bool(r, eval_bool(e@, self.globals@, self.locals@)),
        decreases e, 1nat,
    {
        match self.evaluate(e) {
            Ok(Symbol::Boolean(b)) => Ok(b),
            Ok(v) => Err(EvalError::NotBoolean(v.kind())),
            Err(x) => Err(x),
        }
    }

    /// The text that the expression `e` writes.
    pub fn interpolate(&self, e: &Expr) -> (r: Result<String, EvalError>)
        ensures
            is_text(r, interpolate(e@, self.globals@, self.locals@)),
        decreases e, 1nat,
    {
        if let Expr::Identifier(name) = e {
            if self.lookup(name.as_str()).is_none() {
                return Ok(String::from_str("null"));
            }
        }
        match self.evaluate(e) {
            Ok(v) => match v.to_string() {
                Some(text) => Ok(text),
                None => Err(EvalError::NotPrintable(v.kind())),
            },
            Err(x) => Err(x),
        }
    }

    /// Runs the statement `statement`, appending what it writes to `out`.
    pub fn execute_statement(&mut self, statement: &Statement, out: &mut String) -> (r: Result<
        (),
        EvalError,
    >)
        ensures
            final(self).reaches(
                final(out)@,
                r,
                run_statement(statement@, old(self).state(old(out)@)),
            ),
        decreases statement, 0nat,
    {
        match statement {
            Statement::Skip => Ok(()),
            Statement::End(_) => Ok(()),
            Statement::Assignment(identifier, value) => {
                match self.evaluate(value) {
                    Ok(v) => {
                        self.globals.insert(identifier.clone(), v);
                        Ok(())
                    },
                    Err(x) => Err(x),
                }
            },
            Statement::PrintStatement(printed_value, newline) => {
                match self.interpolate(printed_value) {
                    Ok(text) => {
                        out.append(text.as_str());
                        if *newline {
                            push_char(out, '\n');
                        }
                        Ok(())
                    },
                    Err(x) => Err(x),
                }
            },
            Statement::IfStatement(condition, then_body, else_body) => {
                proof {
                    assert(decreases_to!(statement => statement->IfStatement_1));
                    assert(decreases_to!(statement => statement->IfStatement_2));
                }
                match self.condition(condition) {
                    Ok(true) => self.execute_block(then_body, out),
                    Ok(false) => self.execute_block(else_body, out),
                    Err(x) => Err(x),
                }
            },
            Statement::ForLoop(variable, iterable, body) => {
                let list = match self.evaluate(iterable) {
                    Ok(Symbol::List(items)) => items,
                    Ok(v) => {
                        return Err(EvalError::NotIterable(v.kind()));
                    },
                    Err(x) => {
                        return Err(x);
                    },
                };
                let ghost items = symbol_views(list@);
                let ghost start = self.state(out@);
                let ghost whole = run_loop(variable@, items, statement_views(body@), start);
                let mut i: usize = 0;
                assert(items.skip(0) =~= items);
                while i < list.len()
                    invariant
                        i <= list@.len(),
                        *statement == Statement::ForLoop(*variable, *iterable, *body),
                        items == symbol_views(list@),
                        whole == run_loop(variable@, items, statement_views(body@), start),
                        run_statement(statement@, old(self).state(old(out)@)) == (if whole.error is Some {
                            whole
                        } else {
                            Run { locals: whole.locals.remove(variable@), ..whole }
                        }),
                        run_loop(
                            variable@,
                            items.skip(i as int),
                            statement_views(body@),
                            self.state(out@),
                        ) == run_loop(variable@, items, statement_views(body@), start),
                    decreases list@.len() - i,
                {
                    proof {
                        lemma_symbol_views(list@);
                        assert(decreases_to!(statement => statement->ForLoop_2));
                        assert(items.skip(i as int).drop_first() =~= items.skip(i + 1));
                    }
                    let ghost before = self.state(out@);
                    self.locals.insert(variable.clone(), list[i].clone());
                    let ghost end = run_block(
                        statement_views(body@),
                        Run { locals: before.locals.insert(variable@, items[i as int]), ..before },
                    );
                    match self.execute_block(body, out) {
                        Ok(()) => {},
                        Err(x) => {
                            assert(run_loop(
                                variable@,
                                items.skip(i + 1),
                                statement_views(body@),
                                end,
                            ) == end);
                            return Err(x);
                        },
                    }
                    i += 1;
                }
                proof {
                    lemma_symbol_views(list@);
                }
                self.locals.remove(variable.as_str());
                Ok(())
            },
        }
    }

    /// Runs the statements `statements` in order, appending what they write
    /// to `out`, up to the first that fails.
    pub fn execute_block(&mut self, statements: &Vec<Statement>, out: &mut String) -> (r: Result<
        (),
        EvalError,
    >)
        ensures
            final(self).reaches(
                final(out)@,
                r,
                run_block(statement_views(statements@), old(self).state(old(out)@)),
            ),
        decreases statements, 1nat,
    {
        let ghost views = statement_views(statements@);
        let mut i: usize = 0;
        assert(views.skip(0) =~= views);
        while i < statements.len()
            invariant
                i <= statements@.len(),
                views == statement_views(statements@),
                run_block(views.skip(i as int), self.state(out@)) == run_block(
                    views,
                    old(self).state(old(out)@),
                ),
            decreases statements@.len() - i,
        {
            proof {
                lemma_statement_views(statements@);
                assert(decreases_to!(statements => statements@));
                assert(decreases_to!(statements@ => statements@[i as int]));
                assert(views.skip(i as int).drop_first() =~= views.skip(i + 1));
            }
            let ghost before = self.state(out@);
            match self.execute_statement(&statements[i], out) {
                Ok(()) => {},
                Err(x) => {
                    proof {
                        lemma_stopped_stays(
                            views.skip(i + 1),
                            run_statement(views[i as int], before),
                        );
                    }
                    return Err(x);
                },
            }
            i += 1;
        }
        proof {
            lemma_statement_views(statements@);
        }
        Ok(())
    }

    /// Runs the statements `statements` and returns what they write. A
    /// failure leaves no text.
    pub fn render(&mut self, statements: &Vec<Statement>) -> (r: Result<String, EvalError>)
        ensures
            is_text(
                r,
                output_of(statement_views(statements@), old(self).globals@, old(self).locals@),
            ),
            final(self).globals@ == run_block(
                statement_views(statements@),
                old(self).state(Seq::empty()),
            ).globals,
            final(self).locals@ == run_block(
                statement_views(statements@),
                old(self).state(Seq::empty()),
            ).locals,
    {
        let mut out = String::new();
        match self.execute_block(statements, &mut out) {
            Ok(()) => Ok(out),
            Err(x) => Err(x),
        }
    }
}

} // verus!
