use std::collections::VecDeque;

use mdtemplate::ast::{EndMarker, Expr, Statement};
use mdtemplate::md_lexer::{MdLexer, MdToken, MdTokenType};
use mdtemplate::md_parser::{MdParser, ParseError};
use mdtemplate::symbol::Symbol;

fn parser(source: &str) -> MdParser {
    let mut lexer = MdLexer::new(source);
    lexer.scan_tokens().expect("the source scans");
    MdParser::new(lexer.into_tokens())
}

fn parse(source: &str) -> Result<Vec<Statement>, ParseError> {
    parser(source).parse()
}

fn text(s: &str) -> Statement {
    Statement::PrintStatement(Expr::Litteral(Symbol::String(s.to_string())), false)
}

fn quoted(s: &str) -> Expr {
    Expr::Quoted(s.to_string())
}

fn variable(s: &str) -> Expr {
    Expr::Identifier(s.to_string())
}

fn truth(b: bool) -> Expr {
    Expr::Litteral(Symbol::Boolean(b))
}

fn print(e: Expr) -> Statement {
    Statement::PrintStatement(e, true)
}

#[test]
fn text_is_a_print_without_line_break() {
    assert_eq!(parse("hello"), Ok(vec![text("hello")]));
    assert_eq!(parse(""), Ok(vec![text("")]));
}

#[test]
fn no_tokens_no_statements() {
    assert_eq!(MdParser::new(VecDeque::new()).parse(), Ok(vec![]));
}

#[test]
fn end_of_input_token_ends_the_document() {
    let mut tokens = VecDeque::new();
    tokens.push_back(MdToken { token_type: MdTokenType::MdText, lexem: "a".to_string(), line: 1 });
    tokens.push_back(MdToken { token_type: MdTokenType::EndOfFile, lexem: String::new(), line: 1 });
    tokens.push_back(MdToken { token_type: MdTokenType::MdText, lexem: "b".to_string(), line: 1 });
    assert_eq!(MdParser::new(tokens).parse(), Ok(vec![text("a")]));
}

#[test]
fn assignment_of_a_chain_of_strings() {
    assert_eq!(
        parse("{{ x := 'a' . \"b\" ;; }}"),
        Ok(vec![
            text(""),
            Statement::Assignment("x".to_string(), Expr::Concat(vec![quoted("a"), quoted("b")])),
            text(""),
        ])
    );
}

#[test]
fn assignment_of_value_text() {
    let raw = |s: &str| Expr::Raw(s.to_string());
    assert_eq!(
        parse("{{ a := [1, 2] ;; b := 12 ;; c := -3 ;; d := +4 ;; e := True ;; f := word ;;"),
        Ok(vec![
            text(""),
            Statement::Assignment("a".to_string(), raw("[1, 2]")),
            Statement::Assignment("b".to_string(), raw("12")),
            Statement::Assignment("c".to_string(), raw("-3")),
            Statement::Assignment("d".to_string(), raw("+4")),
            Statement::Assignment("e".to_string(), raw("True")),
            Statement::Assignment("f".to_string(), raw("word")),
        ])
    );
}

#[test]
fn malformed_assignments() {
    for source in [
        "{{ x",
        "{{ x y",
        "{{ x :=",
        "{{ x := $y ;;",
        "{{ x := true ;;",
        "{{ x := * 3 ;;",
        "{{ x := - ;;",
        "{{ x := - 'a' ;;",
        "{{ x := 3",
        "{{ x := 3 4 ;;",
        "{{ x := [1] }}",
    ] {
        assert_eq!(parse(source), Err(ParseError::MalformedAssignment), "parsing {:?}", source);
    }
    for source in ["{{ x := 'a'", "{{ x := 'a' .", "{{ x := 'a' . b ;;", "{{ x := 'a' + 'b' ;;", "{{ x := 'a' }}"] {
        assert_eq!(parse(source), Err(ParseError::MissingToken), "parsing {:?}", source);
    }
}

#[test]
fn print_statements() {
    assert_eq!(
        parse("{{ print \"a\" ;; print $b ;; print c ;;"),
        Ok(vec![
            text(""),
            print(Expr::Concat(vec![quoted("a")])),
            print(variable("b")),
            print(variable("c")),
        ])
    );
}

#[test]
fn conditions_follow_precedence() {
    let cond = |source: &str| match parse(source) {
        Ok(mut statements) => match statements.remove(1) {
            Statement::IfStatement(c, _, _) => c,
            other => panic!("expected a conditional, got {:?}", other),
        },
        Err(e) => panic!("{:?} does not parse: {:?}", source, e),
    };
    assert_eq!(
        cond("{{ if not true and false then endif"),
        Expr::Or(vec![Expr::And(vec![Expr::Not(Box::new(truth(true))), truth(false)])])
    );
    assert_eq!(
        cond("{{ if true or false and false then endif"),
        Expr::Or(vec![Expr::And(vec![truth(true)]), Expr::And(vec![truth(false), truth(false)])])
    );
    assert_eq!(
        cond("{{ if not not $x then endif"),
        Expr::Or(vec![Expr::And(vec![Expr::Not(Box::new(Expr::Not(Box::new(variable("x")))))])])
    );
    assert_eq!(
        cond("{{ if (true or $y) and false then endif"),
        Expr::Or(vec![Expr::And(vec![
            Expr::Or(vec![Expr::And(vec![truth(true)]), Expr::And(vec![variable("y")])]),
            truth(false),
        ])])
    );
}

#[test]
fn conditionals_keep_both_bodies() {
    assert_eq!(
        parse("{{ if true then print \"a\" ;; else print \"b\" ;; print \"c\" ;; endif }}"),
        Ok(vec![
            text(""),
            Statement::IfStatement(
                Expr::Or(vec![Expr::And(vec![truth(true)])]),
                vec![print(Expr::Concat(vec![quoted("a")]))],
                vec![print(Expr::Concat(vec![quoted("b")])), print(Expr::Concat(vec![quoted("c")]))],
            ),
            text(""),
        ])
    );
}

#[test]
fn loops_nest() {
    assert_eq!(
        parse("{{ for a in $xs do for b in [1] do print $b ;; endfor endfor"),
        Ok(vec![
            text(""),
            Statement::ForLoop(
                "a".to_string(),
                variable("xs"),
                vec![Statement::ForLoop(
                    "b".to_string(),
                    Expr::Raw("[1]".to_string()),
                    vec![print(variable("b"))],
                )],
            ),
        ])
    );
}

#[test]
fn invalid_conditions() {
    for source in [
        "{{ if then endif",
        "{{ if",
        "{{ if x then endif",
        "{{ if 'a' then endif",
        "{{ if not then endif",
        "{{ if true and then endif",
        "{{ if true or",
        "{{ if ( true then endif",
        "{{ if ( true",
        "{{ if () then endif",
        "{{ if + then endif",
    ] {
        assert_eq!(parse(source), Err(ParseError::InvalidCondition), "parsing {:?}", source);
    }
    for source in ["{{ if true", "{{ if true true then endif", "{{ if true ) then endif"] {
        assert_eq!(parse(source), Err(ParseError::MissingToken), "parsing {:?}", source);
    }
}

#[test]
fn unbalanced_blocks() {
    for source in [
        "{{ endfor",
        "{{ endif",
        "{{ else",
        "{{ if true then",
        "{{ if true then else",
        "{{ if true then else else endif",
        "{{ if true then endfor",
        "{{ for x in [1] do",
        "{{ for x in [1] do endif",
        "{{ for x in [1] do else endfor",
        "{{ for x in [1] do if true then endfor endif",
    ] {
        assert_eq!(parse(source), Err(ParseError::UnbalancedNesting), "parsing {:?}", source);
    }
}

#[test]
fn parentheses_have_a_depth_limit() {
    let nested = |n: usize| format!("{{{{ if {}true{} then endif", "(".repeat(n), ")".repeat(n));
    assert!(parse(&nested(64)).is_ok());
    assert_eq!(parse(&nested(65)), Err(ParseError::NestingTooDeep));
}

#[test]
fn statements_one_by_one() {
    let mut p = parser("a{{ endif x := 'v' ;; . }}");
    assert_eq!(p.parse_statement(0), Ok(text("a")));
    assert_eq!(p.parse_statement(0), Ok(Statement::End(EndMarker::Endif)));
    assert_eq!(
        p.parse_statement(0),
        Ok(Statement::Assignment("x".to_string(), Expr::Concat(vec![quoted("v")])))
    );
    assert_eq!(p.parse_statement(0), Ok(Statement::Skip));
    assert_eq!(p.parse_statement(0), Ok(Statement::Skip));
    assert_eq!(p.parse_statement(0), Ok(text("")));
    assert_eq!(p.parse_statement(0), Ok(Statement::End(EndMarker::EndOfFile)));
    assert_eq!(p.parse_statement(0), Ok(Statement::End(EndMarker::EndOfFile)));
}

#[test]
fn blocks_stop_at_their_end_mark() {
    let mut p = parser("{{ print $a ;; else print $b ;; endfor");
    assert_eq!(p.parse_block(0), Ok((vec![text(""), print(variable("a"))], EndMarker::Else)));
    assert_eq!(p.parse_block(0), Ok((vec![print(variable("b"))], EndMarker::Endfor)));
    assert_eq!(p.parse_block(0), Ok((vec![], EndMarker::EndOfFile)));
}

#[test]
fn parts_of_statements_on_their_own() {
    let mut p = parser("{{ := 'a' ;; \"s\" . \"t\" ;; true or false then endif v in [2] do endfor not $q");
    assert_eq!(p.parse_statement(0), Ok(text("")));
    assert_eq!(
        p.parse_assignment("n".to_string()),
        Ok(Statement::Assignment("n".to_string(), Expr::Concat(vec![quoted("a")])))
    );
    assert_eq!(p.parse_print_statement(), Ok(print(Expr::Concat(vec![quoted("s"), quoted("t")]))));
    assert_eq!(
        p.parse_if_statement(0),
        Ok(Statement::IfStatement(
            Expr::Or(vec![Expr::And(vec![truth(true)]), Expr::And(vec![truth(false)])]),
            vec![],
            vec![],
        ))
    );
    assert_eq!(
        p.parse_for_statement(3),
        Ok(Statement::ForLoop("v".to_string(), Expr::Raw("[2]".to_string()), vec![]))
    );
    assert_eq!(
        p.parse_expression(0),
        Ok(Expr::Or(vec![Expr::And(vec![Expr::Not(Box::new(variable("q")))])]))
    );
    assert_eq!(p.parse_if_statement(64), Err(ParseError::NestingTooDeep));
    assert_eq!(p.parse_for_statement(64), Err(ParseError::NestingTooDeep));
}
