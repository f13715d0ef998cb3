use mdtemplate::evaluator::EvalError;
use mdtemplate::md_lexer::{LexerError, MdTokenType};
use mdtemplate::md_parser::ParseError;
use mdtemplate::symbol::SymbolKind;
use mdtemplate::{render, RenderError};

fn text(document: &str) -> String {
    render(document, None).expect("the document renders")
}

#[test]
fn plain_text_renders_to_itself() {
    let document = "# Title\n\nSome { text } with a lone } and a \\n that stays.\n";
    assert_eq!(text(document), document);
    assert_eq!(text(""), "");
    assert_eq!(text("{"), "{");
    assert_eq!(text("a{b"), "a{b");
}

#[test]
fn assignment_then_print() {
    assert_eq!(text("{{ x := 'hi' ;; print $x ;; }}"), "hi\n");
}

#[test]
fn string_concatenation() {
    assert_eq!(text("{{ x := 'a' . 'b' ;; print $x ;; }}"), "ab\n");
    assert_eq!(text("{{ print \"a\" . \"b\" . \"c\" ;; }}"), "abc\n");
}

#[test]
fn escapes_are_replaced_in_string_literals() {
    assert_eq!(text("{{ print \"a\\nb\" ;; }}"), "a\nb\n");
    assert_eq!(text("{{ print \"t\\tr\\rz\\0q\\\\b\\'\" ;; }}"), "t\tr\rz\0q\\b'\n");
    assert_eq!(text("{{ x := 'it\\'s' ;; print $x ;; }}"), "it's\n");
    assert_eq!(text("{{ print \"a\\qb\" ;; }}"), "a\\qb\n");
}

#[test]
fn not_binds_tighter_than_and() {
    let document = "{{ if not true and false then print \"yes\" ;; else print \"no\" ;; endif }}";
    assert_eq!(text(document), "no\n");
}

#[test]
fn and_binds_tighter_than_or() {
    let document = "{{ if true or false and false then print \"yes\" ;; else print \"no\" ;; endif }}";
    assert_eq!(text(document), "yes\n");
}

#[test]
fn parentheses_group_conditions() {
    let document = "{{ if (true or false) and false then print \"yes\" ;; else print \"no\" ;; endif }}";
    assert_eq!(text(document), "no\n");
    let twice = "{{ if not not true then print \"yes\" ;; endif }}";
    assert_eq!(text(twice), "yes\n");
}

#[test]
fn conditions_stop_at_the_deciding_operand() {
    assert_eq!(text("{{ if false and $missing then print \"a\" ;; else print \"b\" ;; endif }}"), "b\n");
    assert_eq!(text("{{ if true or $missing then print \"a\" ;; else print \"b\" ;; endif }}"), "a\n");
    assert_eq!(
        render("{{ if true and $missing then print \"a\" ;; endif }}", None),
        Err(RenderError::Eval(EvalError::UnknownVariable("missing".to_string())))
    );
}

#[test]
fn list_iteration_order_and_scoping() {
    assert_eq!(text("{{ for v in [1, 2, 3] do print $v ;; endfor print $v ;; }}"), "1\n2\n3\nnull\n");
}

#[test]
fn loop_over_a_variable() {
    let document = "{{ xs := ['a', 'b'] ;; for x in $xs do print $x ;; endfor }}";
    assert_eq!(text(document), "a\nb\n");
    let bare = "{{ xs := [True, 7] ;; for x in xs do print $x ;; endfor }}";
    assert_eq!(text(bare), "true\n7\n");
}

#[test]
fn loop_variable_shadows_a_global() {
    let document = "{{ v := 'g' ;; for v in [1] do print $v ;; endfor print $v ;; }}";
    assert_eq!(text(document), "1\ng\n");
}

#[test]
fn loop_takes_the_list_as_it_is_at_the_start() {
    let document = "{{ xs := [1, 2] ;; for x in $xs do xs := [9] ;; print $x ;; endfor print $xs ;; }}";
    assert_eq!(text(document), "1\n2\n9\n");
}

#[test]
fn nested_loops_with_one_name_lose_the_outer_binding() {
    let document = "{{ for v in [1, 2] do for v in [7] do print $v ;; endfor print $v ;; endfor }}";
    assert_eq!(text(document), "7\nnull\n7\nnull\n");
}

#[test]
fn nested_loops_with_two_names() {
    let document = "{{ for a in [1, 2] do for b in [3, 4] do print $a ;; print $b ;; endfor endfor }}";
    assert_eq!(text(document), "1\n3\n1\n4\n2\n3\n2\n4\n");
}

#[test]
fn iterating_an_integer_fails() {
    let r = render("before {{ n := 5 ;; for v in $n do print $v ;; endfor }}", None);
    assert_eq!(r, Err(RenderError::Eval(EvalError::NotIterable(SymbolKind::Integer))));
    let reason = EvalError::NotIterable(SymbolKind::Integer).reason();
    assert_eq!(reason, "Integer is not iterable");
}

#[test]
fn for_without_endfor_fails() {
    assert_eq!(
        render("{{ for v in [1] do print $v ;; }}", None),
        Err(RenderError::Parse(ParseError::UnbalancedNesting))
    );
    assert_eq!(
        render("{{ if true then print \"a\" ;; }}", None),
        Err(RenderError::Parse(ParseError::UnbalancedNesting))
    );
}

#[test]
fn closing_keyword_without_opener_fails() {
    for document in ["{{ endfor }}", "{{ endif }}", "{{ else }}"] {
        assert_eq!(render(document, None), Err(RenderError::Parse(ParseError::UnbalancedNesting)));
    }
    assert_eq!(
        render("{{ for v in [1] do endif }}", None),
        Err(RenderError::Parse(ParseError::UnbalancedNesting))
    );
    assert_eq!(
        render("{{ if true then endfor }}", None),
        Err(RenderError::Parse(ParseError::UnbalancedNesting))
    );
}

#[test]
fn rendering_twice_gives_the_same() {
    let document = "a {{ x := [3, 1, 2] ;; for v in $x do print $v ;; endfor if true then print $x ;; endif }} z";
    let preamble = "{{ y := 'seed' ;; }}";
    let first = render(document, Some(preamble));
    let second = render(document, Some(preamble));
    assert_eq!(first, second);
    assert_eq!(first, Ok("a 3\n1\n2\n3, 1, 2\n z".to_string()));
}

#[test]
fn preamble_seeds_the_globals_and_writes_nothing() {
    let preamble = "ignored {{ name := 'World' ;; print $name ;; }}";
    assert_eq!(render("Hello {{ print $name ;; }}!", Some(preamble)), Ok("Hello World\n!".to_string()));
    assert_eq!(render("Hello {{ print $name ;; }}!", None), Ok("Hello null\n!".to_string()));
}

#[test]
fn failing_preamble_fails_the_render() {
    assert_eq!(
        render("plain", Some("{{ x := foo ;; }}")),
        Err(RenderError::Eval(EvalError::InvalidValue("foo".to_string())))
    );
}

#[test]
fn text_around_blocks_is_kept() {
    assert_eq!(text("a\n{{ print \"b\" ;; }}\nc{{ print \"d\" ;; }}"), "a\nb\n\ncd\n");
}

#[test]
fn if_else_branches() {
    assert_eq!(text("{{ if false then print \"a\" ;; else print \"b\" ;; endif }}"), "b\n");
    assert_eq!(text("{{ if true then print \"a\" ;; else print \"b\" ;; endif }}"), "a\n");
    assert_eq!(text("{{ if false then print \"a\" ;; endif }}"), "");
    let nested = "{{ if true then if false then print \"x\" ;; else print \"y\" ;; endif print \"z\" ;; endif }}";
    assert_eq!(text(nested), "y\nz\n");
}

#[test]
fn condition_on_a_variable() {
    assert_eq!(text("{{ b := True ;; if $b then print \"yes\" ;; endif }}"), "yes\n");
    assert_eq!(text("{{ b := False ;; if not $b then print \"yes\" ;; endif }}"), "yes\n");
    assert_eq!(
        render("{{ if $b then print \"yes\" ;; endif }}", None),
        Err(RenderError::Eval(EvalError::UnknownVariable("b".to_string())))
    );
    assert_eq!(
        render("{{ b := 'text' ;; if $b then print \"yes\" ;; endif }}", None),
        Err(RenderError::Eval(EvalError::NotBoolean(SymbolKind::String)))
    );
}

#[test]
fn invalid_condition_fails() {
    assert_eq!(
        render("{{ if 5 then print \"a\" ;; endif }}", None),
        Err(RenderError::Parse(ParseError::InvalidCondition))
    );
    assert_eq!(
        render("{{ if (true then print \"a\" ;; endif }}", None),
        Err(RenderError::Parse(ParseError::InvalidCondition))
    );
    assert_eq!(
        render("{{ if true print \"a\" ;; endif }}", None),
        Err(RenderError::Parse(ParseError::MissingToken))
    );
}

#[test]
fn assignment_values() {
    assert_eq!(text("{{ n := 42 ;; print $n ;; }}"), "42\n");
    assert_eq!(text("{{ n := -7 ;; print $n ;; }}"), "-7\n");
    assert_eq!(text("{{ n := +7 ;; print $n ;; }}"), "7\n");
    assert_eq!(text("{{ b := True ;; print $b ;; }}"), "true\n");
    assert_eq!(text("{{ l := [1, 'two', False] ;; print $l ;; }}"), "1, two, false\n");
    assert_eq!(text("{{ l := [] ;; print $l ;; }}"), "\n");
    assert_eq!(text("{{ x := 'a' ;; x := 'b' ;; print $x ;; }}"), "b\n");
}

#[test]
fn malformed_assignments_fail() {
    assert_eq!(
        render("{{ x 'a' ;; }}", None),
        Err(RenderError::Parse(ParseError::MalformedAssignment))
    );
    assert_eq!(
        render("{{ x := ;; }}", None),
        Err(RenderError::Parse(ParseError::MalformedAssignment))
    );
    assert_eq!(
        render("{{ x := 5 }}", None),
        Err(RenderError::Parse(ParseError::MalformedAssignment))
    );
    assert_eq!(
        render("{{ x := 'a' 'b' ;; }}", None),
        Err(RenderError::Parse(ParseError::MissingToken))
    );
    assert_eq!(
        render("{{ x := 'a' . 5 ;; }}", None),
        Err(RenderError::Parse(ParseError::MissingToken))
    );
}

#[test]
fn invalid_value_text_fails_when_run() {
    assert_eq!(
        render("{{ x := [1, b] ;; }}", None),
        Err(RenderError::Eval(EvalError::InvalidValue("[1, b]".to_string())))
    );
    assert_eq!(
        render("{{ x := 99999999999 ;; }}", None),
        Err(RenderError::Eval(EvalError::InvalidValue("99999999999".to_string())))
    );
    assert_eq!(text("{{ if false then x := nonsense ;; endif }}"), "");
}

#[test]
fn unknown_character_fails() {
    match render("line\n{{ x := 'a' ;; # }}", None) {
        Err(RenderError::Lex(LexerError::UnknownChar(t))) => {
            assert_eq!(t.token_type, MdTokenType::Unknown('#'));
            assert_eq!(t.lexem, "#");
            assert_eq!(t.line, 2);
        }
        other => panic!("expected a scan error, got {:?}", other),
    }
}

#[test]
fn nesting_has_a_limit() {
    let mut deep = String::from("{{ ");
    for _ in 0..64 {
        deep.push_str("if true then ");
    }
    deep.push_str("print \"x\" ;; ");
    for _ in 0..64 {
        deep.push_str("endif ");
    }
    deep.push_str("}}");
    assert_eq!(render(&deep, None), Ok("x\n".to_string()));
    let mut deeper = String::from("{{ ");
    for _ in 0..65 {
        deeper.push_str("if true then ");
    }
    for _ in 0..65 {
        deeper.push_str("endif ");
    }
    deeper.push_str("}}");
    assert_eq!(render(&deeper, None), Err(RenderError::Parse(ParseError::NestingTooDeep)));
}

#[test]
fn stray_tokens_are_passed_over() {
    assert_eq!(text("{{ ;; 5 + . \"s\" print \"a\" ;; }}"), "a\n");
}

#[test]
fn print_needs_something_to_print() {
    assert_eq!(render("{{ print ;; }}", None), Err(RenderError::Parse(ParseError::MissingToken)));
    assert_eq!(render("{{ print", None), Err(RenderError::Parse(ParseError::MissingToken)));
    assert_eq!(text("{{ x := 'v' ;; print x }}"), "v\n");
}

#[test]
fn loop_header_must_be_complete() {
    for document in [
        "{{ for",
        "{{ for 5 in [1] do endfor }}",
        "{{ for v [1] do endfor }}",
        "{{ for v in 5 do endfor }}",
        "{{ for v in [1] endfor }}",
    ] {
        assert_eq!(render(document, None), Err(RenderError::Parse(ParseError::MissingToken)));
    }
}
