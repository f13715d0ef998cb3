use mdtemplate::ast::{Expr, Statement};
use mdtemplate::evaluator::{EvalError, Evaluator, Scope};
use mdtemplate::symbol::{Symbol, SymbolKind};
use mdtemplate::{render_with, RenderError};

fn string(s: &str) -> Symbol {
    Symbol::String(s.to_string())
}

fn variable(s: &str) -> Expr {
    Expr::Identifier(s.to_string())
}

fn print(e: Expr) -> Statement {
    Statement::PrintStatement(e, true)
}

fn scope(bindings: Vec<(&str, Symbol)>) -> Scope {
    let mut scope = Scope::new();
    for (name, value) in bindings {
        scope.insert(name.to_string(), value);
    }
    scope
}

#[test]
fn scope_binds_and_unbinds() {
    let mut s = Scope::new();
    assert_eq!(s.get("a"), None);
    s.insert("a".to_string(), Symbol::Integer(1));
    s.insert("b".to_string(), Symbol::Integer(2));
    assert_eq!(s.get("a"), Some(&Symbol::Integer(1)));
    assert_eq!(s.get("b"), Some(&Symbol::Integer(2)));
    s.insert("a".to_string(), Symbol::Integer(3));
    assert_eq!(s.get("a"), Some(&Symbol::Integer(3)));
    assert_eq!(s.get("b"), Some(&Symbol::Integer(2)));
    s.remove("a");
    assert_eq!(s.get("a"), None);
    assert_eq!(s.get("b"), Some(&Symbol::Integer(2)));
    s.remove("a");
    s.remove("zz");
    assert_eq!(s.get("b"), Some(&Symbol::Integer(2)));
    assert_eq!(s.get(""), None);
}

#[test]
fn local_variables_come_first() {
    let mut e = Evaluator::new(scope(vec![("x", string("global")), ("y", string("only"))]));
    e.locals.insert("x".to_string(), string("local"));
    assert_eq!(e.lookup("x"), Some(&string("local")));
    assert_eq!(e.lookup("y"), Some(&string("only")));
    assert_eq!(e.lookup("z"), None);
}

#[test]
fn values_of_expressions() {
    let e = Evaluator::new(scope(vec![("n", Symbol::Integer(4))]));
    assert_eq!(e.evaluate(&Expr::Litteral(Symbol::Boolean(true))), Ok(Symbol::Boolean(true)));
    assert_eq!(e.evaluate(&variable("n")), Ok(Symbol::Integer(4)));
    assert_eq!(e.evaluate(&variable("m")), Err(EvalError::UnknownVariable("m".to_string())));
    assert_eq!(e.evaluate(&Expr::Quoted("a\\tb".to_string())), Ok(string("a\tb")));
    assert_eq!(e.evaluate(&Expr::Raw("-12".to_string())), Ok(Symbol::Integer(-12)));
    assert_eq!(e.evaluate(&Expr::Raw("x".to_string())), Err(EvalError::InvalidValue("x".to_string())));
    let parts = vec![Expr::Quoted("n=".to_string()), variable("n"), variable("m")];
    assert_eq!(e.evaluate(&Expr::Concat(parts)), Ok(string("n=4null")));
    assert_eq!(e.evaluate(&Expr::Concat(vec![])), Ok(string("")));
    assert_eq!(e.evaluate(&Expr::And(vec![])), Ok(Symbol::Boolean(true)));
    assert_eq!(e.evaluate(&Expr::Or(vec![])), Ok(Symbol::Boolean(false)));
    assert_eq!(
        e.evaluate(&Expr::Not(Box::new(variable("n")))),
        Err(EvalError::NotBoolean(SymbolKind::Integer))
    );
}

#[test]
fn texts_of_expressions() {
    let list = Symbol::List(vec![Symbol::Integer(1), string("b")]);
    let e = Evaluator::new(scope(vec![("l", list), ("s", Symbol::Struct(vec![]))]));
    assert_eq!(e.interpolate(&variable("l")), Ok("1, b".to_string()));
    assert_eq!(e.interpolate(&variable("missing")), Ok("null".to_string()));
    assert_eq!(e.interpolate(&variable("s")), Err(EvalError::NotPrintable(SymbolKind::Struct)));
    assert_eq!(e.interpolate(&Expr::Quoted("q\\0".to_string())), Ok("q\0".to_string()));
    assert_eq!(e.interpolate(&Expr::Litteral(string("a\\nb"))), Ok("a\\nb".to_string()));
    assert_eq!(e.interpolate(&Expr::Raw("[2,3]".to_string())), Ok("2, 3".to_string()));
    assert_eq!(
        e.interpolate(&Expr::Or(vec![Expr::Litteral(Symbol::Boolean(true))])),
        Ok("true".to_string())
    );
}

#[test]
fn truth_of_conditions() {
    let e = Evaluator::new(scope(vec![("t", Symbol::Boolean(true)), ("n", Symbol::Integer(0))]));
    assert_eq!(e.condition(&variable("t")), Ok(true));
    assert_eq!(e.condition(&Expr::Raw("False".to_string())), Ok(false));
    assert_eq!(e.condition(&variable("n")), Err(EvalError::NotBoolean(SymbolKind::Integer)));
    assert_eq!(e.condition(&variable("u")), Err(EvalError::UnknownVariable("u".to_string())));
    assert_eq!(
        e.condition(&Expr::And(vec![variable("t"), variable("n"), variable("u")])),
        Err(EvalError::NotBoolean(SymbolKind::Integer))
    );
    assert_eq!(e.condition(&Expr::Or(vec![variable("t"), variable("u")])), Ok(true));
}

#[test]
fn statements_change_the_variables() {
    let mut e = Evaluator::new(Scope::new());
    let mut out = String::from("kept ");
    let assign = Statement::Assignment("x".to_string(), Expr::Raw("[1, 2]".to_string()));
    assert_eq!(e.execute_statement(&assign, &mut out), Ok(()));
    assert_eq!(e.globals.get("x"), Some(&Symbol::List(vec![Symbol::Integer(1), Symbol::Integer(2)])));
    let each = Statement::ForLoop(
        "i".to_string(),
        variable("x"),
        vec![
            print(variable("i")),
            Statement::Assignment("last".to_string(), variable("i")),
            Statement::Skip,
        ],
    );
    assert_eq!(e.execute_statement(&each, &mut out), Ok(()));
    assert_eq!(out, "kept 1\n2\n");
    assert_eq!(e.globals.get("last"), Some(&Symbol::Integer(2)));
    assert_eq!(e.locals.get("i"), None);
}

#[test]
fn a_failure_keeps_what_was_done_before_it() {
    let mut e = Evaluator::new(Scope::new());
    let mut out = String::new();
    let body = vec![
        print(Expr::Quoted("a".to_string())),
        Statement::Assignment("x".to_string(), Expr::Raw("1".to_string())),
        print(Expr::Litteral(Symbol::Struct(vec![]))),
        print(Expr::Quoted("b".to_string())),
    ];
    assert_eq!(e.execute_block(&body, &mut out), Err(EvalError::NotPrintable(SymbolKind::Struct)));
    assert_eq!(out, "a\n");
    assert_eq!(e.globals.get("x"), Some(&Symbol::Integer(1)));
    assert_eq!(e.render(&body), Err(EvalError::NotPrintable(SymbolKind::Struct)));
}

#[test]
fn a_failing_loop_keeps_its_variable() {
    let mut e = Evaluator::new(Scope::new());
    let mut out = String::new();
    let each = Statement::ForLoop(
        "i".to_string(),
        Expr::Raw("[1, 2]".to_string()),
        vec![print(variable("i")), Statement::IfStatement(variable("i"), vec![], vec![])],
    );
    assert_eq!(e.execute_statement(&each, &mut out), Err(EvalError::NotBoolean(SymbolKind::Integer)));
    assert_eq!(out, "1\n");
    assert_eq!(e.locals.get("i"), Some(&Symbol::Integer(1)));
}

#[test]
fn loops_want_lists() {
    let mut e = Evaluator::new(scope(vec![("n", Symbol::Integer(3)), ("s", string("abc"))]));
    let mut out = String::new();
    let over = |name: &str| Statement::ForLoop("i".to_string(), variable(name), vec![print(variable("i"))]);
    assert_eq!(e.execute_statement(&over("n"), &mut out), Err(EvalError::NotIterable(SymbolKind::Integer)));
    assert_eq!(e.execute_statement(&over("s"), &mut out), Err(EvalError::NotIterable(SymbolKind::String)));
    assert_eq!(e.execute_statement(&over("u"), &mut out), Err(EvalError::UnknownVariable("u".to_string())));
    assert_eq!(out, "");
}

#[test]
fn reasons_name_what_is_at_fault() {
    assert_eq!(EvalError::UnknownVariable("x".to_string()).reason(), "couldn't find variable x");
    assert_eq!(
        EvalError::NotBoolean(SymbolKind::List).reason(),
        "variable needs to be boolean, found List"
    );
    assert_eq!(EvalError::NotIterable(SymbolKind::Integer).reason(), "Integer is not iterable");
    assert_eq!(EvalError::NotPrintable(SymbolKind::Struct).reason(), "Struct has no text");
    assert_eq!(EvalError::InvalidValue("1x".to_string()).reason(), "invalid value 1x");
}

#[test]
fn rendering_on_given_variables() {
    let globals = scope(vec![("who", string("you")), ("xs", Symbol::List(vec![Symbol::Integer(1)]))]);
    let (text, after) = render_with("Hi {{ print $who ;; who := 'me' ;; }}", globals).expect("it renders");
    assert_eq!(text, "Hi you\n");
    assert_eq!(after.get("who"), Some(&string("me")));
    assert_eq!(after.get("xs"), Some(&Symbol::List(vec![Symbol::Integer(1)])));
    let again = render_with("{{ print $s ;; }}", scope(vec![("s", Symbol::Struct(vec![]))]));
    match again {
        Err(RenderError::Eval(e)) => assert_eq!(e, EvalError::NotPrintable(SymbolKind::Struct)),
        other => panic!("expected an error, got {:?}", other.map(|p| p.0)),
    }
}

#[test]
fn order_of_bindings_does_not_matter() {
    let a = scope(vec![("x", Symbol::Integer(1)), ("y", Symbol::Integer(2))]);
    let mut b = scope(vec![("y", Symbol::Integer(0)), ("z", Symbol::Integer(9)), ("x", Symbol::Integer(1))]);
    b.insert("y".to_string(), Symbol::Integer(2));
    b.remove("z");
    let document = "{{ print $x ;; print $y ;; print $z ;; }}";
    let first = render_with(document, a).map(|p| p.0);
    let second = render_with(document, b).map(|p| p.0);
    assert_eq!(first, second);
    assert_eq!(first, Ok("1\n2\nnull\n".to_string()));
}
