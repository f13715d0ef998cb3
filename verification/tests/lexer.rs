use mdtemplate::md_lexer::{keyword, LexerError, MdLexer, MdToken, MdTokenType};

fn tokens(source: &str) -> Vec<MdToken> {
    let mut lexer = MdLexer::new(source);
    let end = lexer.scan_tokens().expect("the source scans");
    assert_eq!(end.token_type, MdTokenType::EndOfFile);
    assert_eq!(end.lexem, "");
    lexer.tokens.into_iter().collect()
}

fn kinds(source: &str) -> Vec<MdTokenType> {
    tokens(source).into_iter().map(|t| t.token_type).collect()
}

fn failure(source: &str) -> MdToken {
    let mut lexer = MdLexer::new(source);
    match lexer.scan_tokens() {
        Err(LexerError::UnknownChar(t)) => {
            assert!(lexer.tokens.is_empty());
            t
        }
        Ok(_) => panic!("{:?} scans", source),
    }
}

fn token(token_type: MdTokenType, lexem: &str, line: i64) -> MdToken {
    MdToken { token_type, lexem: lexem.to_string(), line }
}

fn word(name: &str) -> MdTokenType {
    MdTokenType::Identifier(name.to_string())
}

#[test]
fn plain_text_is_one_token() {
    let mut lexer = MdLexer::new("hello\nworld");
    let end = lexer.scan_tokens().expect("plain text scans");
    assert_eq!(end, token(MdTokenType::EndOfFile, "", 2));
    assert_eq!(lexer.tokens.len(), 1);
    assert_eq!(lexer.tokens[0], token(MdTokenType::MdText, "hello\nworld", 2));
}

#[test]
fn empty_source_is_one_empty_text() {
    assert_eq!(tokens(""), vec![token(MdTokenType::MdText, "", 1)]);
}

#[test]
fn directive_tokens_in_order() {
    assert_eq!(
        tokens("{{ x := 'hi' ;; print $x ;; }}"),
        vec![
            token(MdTokenType::MdText, "", 1),
            token(word("x"), "x", 1),
            token(MdTokenType::Assign, ":=", 1),
            token(MdTokenType::String("hi".to_string()), "hi", 1),
            token(MdTokenType::EndStatement, ";;", 1),
            token(MdTokenType::Print, "print", 1),
            token(MdTokenType::Dereference, "x", 1),
            token(MdTokenType::EndStatement, ";;", 1),
            token(MdTokenType::CodeEnd, "}}", 1),
            token(MdTokenType::MdText, "", 1),
        ]
    );
}

#[test]
fn text_ends_at_the_first_pair_of_braces() {
    assert_eq!(
        tokens("a{b{{ }}c{"),
        vec![
            token(MdTokenType::MdText, "a{b", 1),
            token(MdTokenType::CodeEnd, "}}", 1),
            token(MdTokenType::MdText, "c{", 1),
        ]
    );
    assert_eq!(failure("{{{").token_type, MdTokenType::Unknown('{'));
}

#[test]
fn lines_are_counted_in_text_and_between_tokens() {
    assert_eq!(
        tokens("a\nb\n{{\n\n x \n}}\nend"),
        vec![
            token(MdTokenType::MdText, "a\nb\n", 3),
            token(word("x"), "x", 5),
            token(MdTokenType::CodeEnd, "}}", 6),
            token(MdTokenType::MdText, "\nend", 7),
        ]
    );
}

#[test]
fn line_breaks_inside_strings_are_not_counted() {
    assert_eq!(
        tokens("{{ \"a\nb\" x"),
        vec![
            token(MdTokenType::MdText, "", 1),
            token(MdTokenType::String("a\nb".to_string()), "a\nb", 1),
            token(word("x"), "x", 1),
        ]
    );
}

#[test]
fn keywords_are_told_from_identifiers() {
    assert_eq!(
        kinds("{{ if then else endif for in do endfor print true false }}"),
        vec![
            MdTokenType::MdText,
            MdTokenType::If,
            MdTokenType::Then,
            MdTokenType::Else,
            MdTokenType::Endif,
            MdTokenType::For,
            MdTokenType::In,
            MdTokenType::Do,
            MdTokenType::Endfor,
            MdTokenType::Print,
            MdTokenType::True,
            MdTokenType::False,
            MdTokenType::CodeEnd,
            MdTokenType::MdText,
        ]
    );
    assert_eq!(
        kinds("{{ If THEN True False iff _x x1 not and or"),
        vec![
            MdTokenType::MdText,
            word("If"),
            word("THEN"),
            word("True"),
            word("False"),
            word("iff"),
            word("_x"),
            word("x1"),
            word("not"),
            word("and"),
            word("or"),
        ]
    );
    assert_eq!(keyword(&"endfor".to_string()), MdTokenType::Endfor);
    assert_eq!(keyword(&"Endfor".to_string()), word("Endfor"));
}

#[test]
fn identifiers_take_letters_and_digits_of_any_script() {
    assert_eq!(
        tokens("{{ caf\u{e9}_2\u{663} x"),
        vec![
            token(MdTokenType::MdText, "", 1),
            token(word("caf\u{e9}_2\u{663}"), "caf\u{e9}_2\u{663}", 1),
            token(word("x"), "x", 1),
        ]
    );
    assert_eq!(failure("{{ \u{e9}").token_type, MdTokenType::Unknown('\u{e9}'));
}

#[test]
fn whitespace_of_any_script_is_passed_over() {
    assert_eq!(
        kinds("{{\u{a0}\t\r\n\u{2003}x\u{3000}"),
        vec![MdTokenType::MdText, word("x")]
    );
}

#[test]
fn strings_in_both_quotes() {
    assert_eq!(
        kinds("{{ \"a 'b' c\" 'd \"e\" f' \"\" ''"),
        vec![
            MdTokenType::MdText,
            MdTokenType::String("a 'b' c".to_string()),
            MdTokenType::String("d \"e\" f".to_string()),
            MdTokenType::String(String::new()),
            MdTokenType::String(String::new()),
        ]
    );
}

#[test]
fn escaped_quotes_do_not_end_a_string() {
    assert_eq!(
        kinds("{{ \"a\\\"b\" 'c\\'d' \"e\\\\\" x"),
        vec![
            MdTokenType::MdText,
            MdTokenType::String("a\\\"b".to_string()),
            MdTokenType::String("c\\'d".to_string()),
            MdTokenType::String("e\\\\".to_string()),
            word("x"),
        ]
    );
}

#[test]
fn open_string_runs_to_the_end() {
    assert_eq!(
        kinds("{{ \"abc }} d"),
        vec![MdTokenType::MdText, MdTokenType::String("abc }} d".to_string())]
    );
    assert_eq!(kinds("{{ 'a\\"), vec![MdTokenType::MdText, MdTokenType::String("a\\".to_string())]);
    assert_eq!(kinds("{{ '"), vec![MdTokenType::MdText, MdTokenType::String(String::new())]);
}

#[test]
fn numbers_are_read_in_decimal() {
    assert_eq!(
        tokens("{{ 0 42 007 2147483647 2147483648 99999999999999999999 12ab"),
        vec![
            token(MdTokenType::MdText, "", 1),
            token(MdTokenType::Number(0), "0", 1),
            token(MdTokenType::Number(42), "42", 1),
            token(MdTokenType::Number(7), "007", 1),
            token(MdTokenType::Number(2147483647), "2147483647", 1),
            token(MdTokenType::Number(0), "2147483648", 1),
            token(MdTokenType::Number(0), "99999999999999999999", 1),
            token(MdTokenType::Number(12), "12", 1),
            token(word("ab"), "ab", 1),
        ]
    );
}

#[test]
fn operators_are_single_characters() {
    assert_eq!(
        tokens("{{ +-*/.()"),
        vec![
            token(MdTokenType::MdText, "", 1),
            token(MdTokenType::Operator('+'), "+", 1),
            token(MdTokenType::Operator('-'), "-", 1),
            token(MdTokenType::Operator('*'), "*", 1),
            token(MdTokenType::Operator('/'), "/", 1),
            token(MdTokenType::Operator('.'), ".", 1),
            token(MdTokenType::Operator('('), "(", 1),
            token(MdTokenType::Operator(')'), ")", 1),
        ]
    );
}

#[test]
fn lists_are_kept_as_written() {
    assert_eq!(
        tokens("{{ [1, 'a b' ,True] [] [x"),
        vec![
            token(MdTokenType::MdText, "", 1),
            token(MdTokenType::List("[1, 'a b' ,True]".to_string()), "[1, 'a b' ,True]", 1),
            token(MdTokenType::List("[]".to_string()), "[]", 1),
            token(MdTokenType::List("[x".to_string()), "[x", 1),
        ]
    );
}

#[test]
fn dereference_carries_the_name() {
    assert_eq!(
        tokens("{{ $name $ $1a"),
        vec![
            token(MdTokenType::MdText, "", 1),
            token(MdTokenType::Dereference, "name", 1),
            token(MdTokenType::Dereference, "", 1),
            token(MdTokenType::Dereference, "1a", 1),
        ]
    );
}

#[test]
fn halves_of_two_character_tokens_are_errors() {
    assert_eq!(failure("{{ : x"), token(MdTokenType::Unknown(':'), ":", 1));
    assert_eq!(failure("{{ :"), token(MdTokenType::Unknown(':'), ":", 1));
    assert_eq!(failure("{{ ; ;"), token(MdTokenType::Unknown(';'), ";", 1));
    assert_eq!(failure("{{ }"), token(MdTokenType::Unknown('}'), "}", 1));
    assert_eq!(failure("{{ } }"), token(MdTokenType::Unknown('}'), "}", 1));
}

#[test]
fn other_characters_are_errors_with_their_line() {
    assert_eq!(failure("a\n{{ x\n\n # }}"), token(MdTokenType::Unknown('#'), "#", 4));
    assert_eq!(failure("{{ , }}"), token(MdTokenType::Unknown(','), ",", 1));
    assert_eq!(failure("{{ ] }}"), token(MdTokenType::Unknown(']'), "]", 1));
    assert_eq!(failure("{{ = }}"), token(MdTokenType::Unknown('='), "=", 1));
}

#[test]
fn scanning_step_by_step() {
    let mut lexer = MdLexer::new("t{{ a }}u");
    assert_eq!(lexer.next_token(), Ok(token(MdTokenType::MdText, "t", 1)));
    assert_eq!(lexer.next_token(), Ok(token(word("a"), "a", 1)));
    assert_eq!(lexer.next_token(), Ok(token(MdTokenType::CodeEnd, "}}", 1)));
    assert_eq!(lexer.next_token(), Ok(token(MdTokenType::MdText, "u", 1)));
    assert_eq!(lexer.next_token(), Ok(token(MdTokenType::EndOfFile, "", 1)));
    assert_eq!(lexer.next_token(), Ok(token(MdTokenType::EndOfFile, "", 1)));
    assert!(lexer.tokens.is_empty());
}

#[test]
fn scanners_on_their_own() {
    let mut lexer = MdLexer::new(" \n ab1 12x\"q\\\"r\"[1]z{{");
    lexer.consume_whitespace();
    assert_eq!(lexer.scan_identifier(), "ab1");
    assert_eq!(lexer.scan_identifier(), "");
    lexer.consume_whitespace();
    assert_eq!(lexer.scan_number_unparsed(), "12");
    assert_eq!(lexer.scan_number_unparsed(), "");
    assert_eq!(lexer.scan_identifier(), "x");
    assert_eq!(lexer.scan_string(), "q\\\"r");
    assert_eq!(lexer.scan_list(), "[1]");
    assert_eq!(lexer.scan_md_txt(), "z");
    assert_eq!(lexer.scan_md_txt(), "");
    assert_eq!(lexer.scan_string(), "");
    let end = lexer.next_token().expect("the end is a token");
    assert_eq!(end, token(MdTokenType::EndOfFile, "", 2));
}

#[test]
fn tokens_can_be_taken_from_the_scanner() {
    let mut lexer = MdLexer::new("a{{ b");
    lexer.scan_tokens().expect("the source scans");
    let taken: Vec<MdToken> = lexer.into_tokens().into_iter().collect();
    assert_eq!(taken, vec![token(MdTokenType::MdText, "a", 1), token(word("b"), "b", 1)]);
}
