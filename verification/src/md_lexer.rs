//! The scanner: turns a document into tokens, switching between plain text
//! and the directives between `{{` and `}}`.
use crate::text::{
    char_is_alphanumeric, char_is_whitespace, chars_of, find_char, is_alphanumeric, is_digit,
    is_whitespace, is_word, lemma_find_char, lemma_find_char_is, lemma_run_end, lemma_run_end_is,
    parse_i32, parse_integer, push_char, run_end, string_of,
};
use std::collections::VecDeque;
use vstd::prelude::*;

verus! {

/// The kind of a token, with what the kind carries.
#[derive(Debug, Clone, PartialEq)]
pub enum MdTokenType {
    MdText,
    Identifier(String),
    String(String),
    Number(i32),
    Operator(char),
    Dereference,
    List(String),
    If,
    Then,
    Else,
    Endif,
    For,
    In,
    Do,
    Endfor,
    EndOfFile,
    Print,
    True,
    False,
    Assign,
    CodeStart,
    CodeEnd,
    EndStatement,
    Unknown(char),
}

/// A token: its kind, the text it was read from and the line it ends on.
#[derive(Debug, Clone, PartialEq)]
pub struct MdToken {
    pub token_type: MdTokenType,
    pub lexem: String,
    pub line: i64,
}

/// The character that stopped a scan, as a token of kind `Unknown`.
#[derive(Debug, Clone, PartialEq)]
pub enum LexerError {
    UnknownChar(MdToken),
}

/// `MdTokenType` as a mathematical value.
pub enum TokenKind {
    MdText,
    Identifier(Seq<char>),
    String(Seq<char>),
    Number(i32),
    Operator(char),
    Dereference,
    List(Seq<char>),
    If,
    Then,
    Else,
    Endif,
    For,
    In,
    Do,
    Endfor,
    EndOfFile,
    Print,
    True,
    False,
    Assign,
    CodeStart,
    CodeEnd,
    EndStatement,
    Unknown(char),
}

/// `MdToken` as a mathematical value.
pub struct TokenView {
    pub kind: TokenKind,
    pub lexem: Seq<char>,
    pub line: i64,
}

impl View for MdTokenType {
    type V = TokenKind;

    open spec fn view(&self) -> TokenKind {
        match self {
            MdTokenType::MdText => TokenKind::MdText,
            MdTokenType::Identifier(s) => TokenKind::Identifier(s@),
            MdTokenType::String(s) => TokenKind::String(s@),
            MdTokenType::Number(n) => TokenKind::Number(*n),
            MdTokenType::Operator(c) => TokenKind::Operator(*c),
            MdTokenType::Dereference => TokenKind::Dereference,
            MdTokenType::List(s) => TokenKind::List(s@),
            MdTokenType::If => TokenKind::If,
            MdTokenType::Then => TokenKind::Then,
            MdTokenType::Else => TokenKind::Else,
            MdTokenType::Endif => TokenKind::Endif,
            MdTokenType::For => TokenKind::For,
            MdTokenType::In => TokenKind::In,
            MdTokenType::Do => TokenKind::Do,
            MdTokenType::Endfor => TokenKind::Endfor,
            MdTokenType::EndOfFile => TokenKind::EndOfFile,
            MdTokenType::Print => TokenKind::Print,
            MdTokenType::True => TokenKind::True,
            MdTokenType::False => TokenKind::False,
            MdTokenType::Assign => TokenKind::Assign,
            MdTokenType::CodeStart => TokenKind::CodeStart,
            MdTokenType::CodeEnd => TokenKind::CodeEnd,
            MdTokenType::EndStatement => TokenKind::EndStatement,
            MdTokenType::Unknown(c) => TokenKind::Unknown(*c),
        }
    }
}

impl View for MdToken {
    type V = TokenView;

    open spec fn view(&self) -> TokenView {
        TokenView { kind: self.token_type@, lexem: self.lexem@, line: self.line }
    }
}

impl View for LexerError {
    type V = TokenView;

    open spec fn view(&self) -> TokenView {
        match self {
            LexerError::UnknownChar(t) => t@,
        }
    }
}

/// The tokens of `tokens` as mathematical values.
pub open spec fn token_views(tokens: Seq<MdToken>) -> Seq<TokenView> {
    tokens.map_values(|t: MdToken| t@)
}

/// Where a scan stands: the position in the source, the line reached and
/// whether it is inside a directive block.
pub struct Cursor {
    pub pos: int,
    pub line: i64,
    pub in_code: bool,
}

/// One step of a scan: the token read, or the token of the character that
/// stopped it, and where the scan stands afterwards.
pub struct Scanned {
    pub token: Result<TokenView, TokenView>,
    pub next: Cursor,
}

/// The class of characters skipped between tokens.
pub open spec fn blank() -> spec_fn(char) -> bool {
    |c: char| c == '\n' || char_is_whitespace(c)
}

/// Whether `c` can start a word.
pub open spec fn is_word_start(c: char) -> bool {
    ('a' <= c && c <= 'z') || ('A' <= c && c <= 'Z') || c == '_'
}

/// The class of characters that a word is made of.
pub open spec fn word_char() -> spec_fn(char) -> bool {
    |c: char| is_word_start(c) || char_is_alphanumeric(c)
}

/// The class of decimal digits.
pub open spec fn digit() -> spec_fn(char) -> bool {
    |c: char| is_digit(c)
}

/// Whether `c` is a token by itself.
pub open spec fn is_operator(c: char) -> bool {
    c == '+' || c == '-' || c == '*' || c == '/' || c == '.' || c == '(' || c == ')'
}

/// The kind of the word `word`: that of the keyword it spells, else an
/// identifier.
pub open spec fn word_kind(word: Seq<char>) -> TokenKind {
    if word == "if"@ {
        TokenKind::If
    } else if word == "then"@ {
        TokenKind::Then
    } else if word == "else"@ {
        TokenKind::Else
    } else if word == "endif"@ {
        TokenKind::Endif
    } else if word == "for"@ {
        TokenKind::For
    } else if word == "in"@ {
        TokenKind::In
    } else if word == "do"@ {
        TokenKind::Do
    } else if word == "endfor"@ {
        TokenKind::Endfor
    } else if word == "print"@ {
        TokenKind::Print
    } else if word == "true"@ {
        TokenKind::True
    } else if word == "false"@ {
        TokenKind::False
    } else {
        TokenKind::Identifier(word)
    }
}

/// The value of a number token read from `digits`: the number they write,
/// or 0 where that does not fit.
pub open spec fn number_value(digits: Seq<char>) -> i32 {
    match parse_i32(digits) {
        Some(n) => n,
        None => 0,
    }
}

/// The number of line breaks in `s[from..to]`.
pub open spec fn newlines(s: Seq<char>, from: int, to: int) -> nat
    decreases to - from,
{
    if to <= from {
        0
    } else {
        newlines(s, from, to - 1) + if s[to - 1] == '\n' {
            1nat
        } else {
            0nat
        }
    }
}

/// The line reached from `line` after reading `s[from..to]`. The count stops
/// at the largest `i64`.
pub open spec fn line_after(line: i64, s: Seq<char>, from: int, to: int) -> i64 {
    let reached = line + newlines(s, from, to);
    if reached > i64::MAX {
        i64::MAX
    } else {
        reached as i64
    }
}

/// The end of the plain text that starts at `i`: the position of the next
/// `{{`, or the end of `s`.
pub open spec fn text_end(s: Seq<char>, i: int) -> int
    decreases s.len() - i,
{
    if 0 <= i < s.len() && !(s[i] == '{' && i + 1 < s.len() && s[i + 1] == '{') {
        text_end(s, i + 1)
    } else {
        i
    }
}

/// The end of the content of a quoted string whose content starts at `i`:
/// the position of the next `quote` that no backslash precedes, or the end
/// of `s`. A backslash takes the character after it along.
pub open spec fn quoted_end(s: Seq<char>, i: int, quote: char) -> int
    decreases s.len() - i,
{
    if i < 0 || i >= s.len() || s[i] == quote {
        i
    } else if s[i] == '\\' && i + 1 < s.len() {
        quoted_end(s, i + 2, quote)
    } else {
        quoted_end(s, i + 1, quote)
    }
}

/// The position after the closing character that stands at `e`; `e` itself
/// where the source ends there.
pub open spec fn past(s: Seq<char>, e: int) -> int {
    if e < s.len() {
        e + 1
    } else {
        e
    }
}

/// The token of the character `c` that stopped a scan on line `line`.
pub open spec fn unknown(c: char, line: i64) -> TokenView {
    TokenView { kind: TokenKind::Unknown(c), lexem: seq![c], line }
}

/// The token that starts at position `p` of `s`, inside a directive block,
/// where `p` holds a character that is not blank.
pub open spec fn code_token(s: Seq<char>, p: int, line: i64) -> Scanned {
    let c = s[p];
    let twice = p + 1 < s.len() && s[p + 1] == c;
    if is_word_start(c) {
        let e = run_end(s, p, word_char());
        let word = s.subrange(p, e);
        Scanned {
            token: Ok(TokenView { kind: word_kind(word), lexem: word, line }),
            next: Cursor { pos: e, line, in_code: true },
        }
    } else if c == '"' || c == '\'' {
        let e = quoted_end(s, p + 1, c);
        let content = s.subrange(p + 1, e);
        Scanned {
            token: Ok(TokenView { kind: TokenKind::String(content), lexem: content, line }),
            next: Cursor { pos: past(s, e), line, in_code: true },
        }
    } else if is_digit(c) {
        let e = run_end(s, p, digit());
        let digits = s.subrange(p, e);
        Scanned {
            token: Ok(TokenView { kind: TokenKind::Number(number_value(digits)), lexem: digits, line }),
            next: Cursor { pos: e, line, in_code: true },
        }
    } else if c == '[' {
        let e = past(s, find_char(s, p, ']'));
        let list = s.subrange(p, e);
        Scanned {
            token: Ok(TokenView { kind: TokenKind::List(list), lexem: list, line }),
            next: Cursor { pos: e, line, in_code: true },
        }
    } else if is_operator(c) {
        Scanned {
            token: Ok(TokenView { kind: TokenKind::Operator(c), lexem: seq![c], line }),
            next: Cursor { pos: p + 1, line, in_code: true },
        }
    } else if c == ':' && p + 1 < s.len() && s[p + 1] == '=' {
        Scanned {
            token: Ok(TokenView { kind: TokenKind::Assign, lexem: ":="@, line }),
            next: Cursor { pos: p + 2, line, in_code: true },
        }
    } else if c == '$' {
        let e = run_end(s, p + 1, word_char());
        Scanned {
            token: Ok(TokenView { kind: TokenKind::Dereference, lexem: s.subrange(p + 1, e), line }),
            next: Cursor { pos: e, line, in_code: true },
        }
    } else if c == '}' && twice {
        Scanned {
            token: Ok(TokenView { kind: TokenKind::CodeEnd, lexem: "}}"@, line }),
            next: Cursor { pos: p + 2, line, in_code: false },
        }
    } else if c == ';' && twice {
        Scanned {
            token: Ok(TokenView { kind: TokenKind::EndStatement, lexem: ";;"@, line }),
            next: Cursor { pos: p + 2, line, in_code: true },
        }
    } else {
        Scanned { token: Err(unknown(c, line)), next: Cursor { pos: p + 1, line, in_code: true } }
    }
}

/// Where a scan stands after the plain text at `c`: past the `{{` that ends
/// the text, where there is one, and inside a block in any case.
pub open spec fn past_text(s: Seq<char>, c: Cursor) -> Cursor {
    let e = text_end(s, c.pos);
    Cursor {
        pos: if e < s.len() {
            e + 2
        } else {
            e
        },
        line: line_after(c.line, s, c.pos, e),
        in_code: true,
    }
}

/// Where a scan stands after the blanks at `c`.
pub open spec fn past_blanks(s: Seq<char>, c: Cursor) -> Cursor {
    let e = run_end(s, c.pos, blank());
    Cursor { pos: e, line: line_after(c.line, s, c.pos, e), in_code: c.in_code }
}

/// The next token of `s` for a scan that stands at `c`.
///
/// Outside a directive block it is the plain text up to the next `{{`, which
/// is passed over; at the end of `s` too, the block counts as entered, so
/// that the end of input is read as a token of its own. Inside a block,
/// blanks are passed over first.
pub open spec fn next_token_spec(s: Seq<char>, c: Cursor) -> Scanned {
    if !c.in_code {
        let next = past_text(s, c);
        Scanned {
            token: Ok(
                TokenView {
                    kind: TokenKind::MdText,
                    lexem: s.subrange(c.pos, text_end(s, c.pos)),
                    line: next.line,
                },
            ),
            next,
        }
    } else {
        let start = past_blanks(s, c);
        if start.pos < s.len() {
            code_token(s, start.pos, start.line)
        } else {
            Scanned {
                token: Ok(
                    TokenView { kind: TokenKind::EndOfFile, lexem: Seq::empty(), line: start.line },
                ),
                next: Cursor { in_code: true, ..start },
            }
        }
    }
}

/// A whole scan: the tokens read, the last of them the end of input, or the
/// token of the character that stopped it; and where the scan stood then.
pub struct Scan {
    pub tokens: Result<Seq<TokenView>, TokenView>,
    pub end: Cursor,
}

/// A step never moves backwards nor past the end, and only two steps stay in
/// place: the one that enters a block at the end of the source, and the one
/// that reads the end of input.
pub proof fn lemma_step_advances(s: Seq<char>, c: Cursor)
    requires
        0 <= c.pos <= s.len(),
    ensures
        c.pos <= next_token_spec(s, c).next.pos <= s.len(),
        next_token_spec(s, c).next.pos == c.pos ==> (!c.in_code && next_token_spec(
            s,
            c,
        ).next.in_code) || next_token_spec(s, c).token == Ok::<TokenView, TokenView>(
            TokenView {
                kind: TokenKind::EndOfFile,
                lexem: Seq::empty(),
                line: next_token_spec(s, c).next.line,
            },
        ),
{
    if !c.in_code {
        lemma_text_end(s, c.pos);
    } else {
        lemma_run_end(s, c.pos, blank());
        let p = run_end(s, c.pos, blank());
        if p < s.len() {
            lemma_run_end(s, p, word_char());
            lemma_run_end(s, p, digit());
            lemma_run_end(s, p + 1, word_char());
            lemma_quoted_end(s, p + 1, s[p]);
            lemma_find_char(s, p, ']');
            assert(word_char()(s[p]) == (is_word_start(s[p]) || char_is_alphanumeric(s[p])));
            assert(digit()(s[p]) == is_digit(s[p]));
        }
    }
}

/// Characterises `text_end`.
pub proof fn lemma_text_end(s: Seq<char>, i: int)
    requires
        0 <= i <= s.len(),
    ensures
        i <= text_end(s, i) <= s.len(),
        text_end(s, i) < s.len() ==> text_end(s, i) + 1 < s.len() && s[text_end(s, i)] == '{' && s[text_end(
            s,
            i,
        ) + 1] == '{',
        forall|j: int|
            i <= j < text_end(s, i) ==> !(#[trigger] s[j] == '{' && j + 1 < s.len() && s[j + 1]
                == '{'),
    decreases s.len() - i,
{
    if i < s.len() && !(s[i] == '{' && i + 1 < s.len() && s[i + 1] == '{') {
        lemma_text_end(s, i + 1);
    }
}

/// The content of a quoted string ends within the source.
pub proof fn lemma_quoted_end(s: Seq<char>, i: int, quote: char)
    requires
        0 <= i <= s.len(),
    ensures
        i <= quoted_end(s, i, quote) <= s.len(),
    decreases s.len() - i,
{
    if i < s.len() && s[i] != quote {
        if s[i] == '\\' && i + 1 < s.len() {
            lemma_quoted_end(s, i + 2, quote);
        } else {
            lemma_quoted_end(s, i + 1, quote);
        }
    }
}

/// The scan of `s` from `c` on, with the tokens read before in `acc`: it
/// goes on token by token until the end of input is read or a character
/// stops it.
pub open spec fn scan_into(s: Seq<char>, c: Cursor, acc: Seq<TokenView>) -> Scan
    decreases
            s.len() - c.pos,
            (if c.in_code {
                0int
            } else {
                1int
            }),
    when 0 <= c.pos <= s.len()
{
    let step = next_token_spec(s, c);
    match step.token {
        Err(e) => Scan { tokens: Err(e), end: step.next },
        Ok(t) => if t.kind is EndOfFile {
            Scan { tokens: Ok(acc.push(t)), end: step.next }
        } else {
            proof {
                lemma_step_advances(s, c);
            }
            scan_into(s, step.next, acc.push(t))
        },
    }
}

/// Where every scan starts: the first character, line 1, outside a block.
pub open spec fn start_cursor() -> Cursor {
    Cursor { pos: 0, line: 1, in_code: false }
}

/// The tokens of the document `s`, the last of them the end of input, or
/// the token of the character that stops the scan.
pub open spec fn scan_spec(s: Seq<char>) -> Result<Seq<TokenView>, TokenView> {
    scan_into(s, start_cursor(), Seq::empty()).tokens
}


/// A scanner over one document.
pub struct MdLexer {
    source_code: Vec<char>,
    position: usize,
    pub tokens: VecDeque<MdToken>,
    current_pos: i64,
    is_code_bloc: bool,
}

fn is_blank(c: char) -> (r: bool)
    ensures
        r == blank()(c),
{
    c == '\n' || is_whitespace(c)
}

fn starts_word(c: char) -> (r: bool)
    ensures
        r == is_word_start(c),
{
    ('a' <= c && c <= 'z') || ('A' <= c && c <= 'Z') || c == '_'
}

fn is_word_char(c: char) -> (r: bool)
    ensures
        r == word_char()(c),
{
    starts_word(c) || is_alphanumeric(c)
}

fn is_decimal(c: char) -> (r: bool)
    ensures
        r == digit()(c),
{
    '0' <= c && c <= '9'
}

fn is_operator_char(c: char) -> (r: bool)
    ensures
        r == is_operator(c),
{
    c == '+' || c == '-' || c == '*' || c == '/' || c == '.' || c == '(' || c == ')'
}

/// The token kind of the word `word`.
pub fn keyword(word: &String) -> (r: MdTokenType)
    ensures
        r@ == word_kind(word@),
{
    if is_word(word, "if") {
        MdTokenType::If
    } else if is_word(word, "then") {
        MdTokenType::Then
    } else if is_word(word, "else") {
        MdTokenType::Else
    } else if is_word(word, "endif") {
        MdTokenType::Endif
    } else if is_word(word, "for") {
        MdTokenType::For
    } else if is_word(word, "in") {
        MdTokenType::In
    } else if is_word(word, "do") {
        MdTokenType::Do
    } else if is_word(word, "endfor") {
        MdTokenType::Endfor
    } else if is_word(word, "print") {
        MdTokenType::Print
    } else if is_word(word, "true") {
        MdTokenType::True
    } else if is_word(word, "false") {
        MdTokenType::False
    } else {
        MdTokenType::Identifier(word.clone())
    }
}

impl MdLexer {
    /// The characters of the document.
    pub closed spec fn source(&self) -> Seq<char> {
        self.source_code@
    }

    /// Where the scan stands.
    pub closed spec fn cursor(&self) -> Cursor {
        Cursor { pos: self.position as int, line: self.current_pos, in_code: self.is_code_bloc }
    }

    /// The tokens read so far, the end of input left out.
    pub closed spec fn pending(&self) -> Seq<MdToken> {
        self.tokens@
    }

    /// The scan stands within the document.
    pub closed spec fn wf(&self) -> bool {
        self.position <= self.source_code@.len()
    }

    /// `self` is a scanner in good order over the document of `before`, with
    /// the tokens of `before`, that stands at `at`.
    pub open spec fn moved_from(&self, before: &MdLexer, at: Cursor) -> bool {
        &&& self.wf()
        &&& self.source() == before.source()
        &&& self.pending() == before.pending()
        &&& self.cursor() == at
    }

    /// A scanner at the start of `input`, with no token read.
    pub fn new(input: &str) -> (lexer: Self)
        ensures
            lexer.wf(),
            lexer.source() == input@,
            lexer.cursor() == start_cursor(),
            lexer.pending() == Seq::<MdToken>::empty(),
    {
        MdLexer {
            source_code: chars_of(input),
            position: 0,
            tokens: VecDeque::new(),
            current_pos: 1,
            is_code_bloc: false,
        }
    }

    /// Passes over blanks, counting the line breaks among them.
    pub fn consume_whitespace(&mut self)
        requires
            old(self).wf(),
        ensures
            final(self).moved_from(old(self), past_blanks(old(self).source(), old(self).cursor())),
    {
        let n = self.source_code.len();
        let ghost start = self.position as int;
        while self.position < n && is_blank(self.source_code[self.position])
            invariant
                start <= self.position <= n == self.source_code@.len(),
                self.source_code == old(self).source_code,
                self.tokens == old(self).tokens,
                self.is_code_bloc == old(self).is_code_bloc,
                start == old(self).position,
                forall|j: int| start <= j < self.position ==> blank()(#[trigger] self.source_code@[j]),
                self.current_pos == line_after(
                    old(self).current_pos,
                    self.source_code@,
                    start,
                    self.position as int,
                ),
            decreases n - self.position,
        {
            assert(newlines(self.source_code@, start, self.position + 1) == newlines(
                self.source_code@,
                start,
                self.position as int,
            ) + if self.source_code@[self.position as int] == '\n' {
                1nat
            } else {
                0nat
            });
            if self.source_code[self.position] == '\n' && self.current_pos < i64::MAX {
                self.current_pos += 1;
            }
            self.position += 1;
        }
        proof {
            lemma_run_end_is(self.source_code@, start, self.position as int, blank());
        }
    }

    /// Reads the longest run of word characters and returns it.
    pub fn scan_identifier(&mut self) -> (word: String)
        requires
            old(self).wf(),
        ensures
            ({
                let s = old(self).source();
                let c = old(self).cursor();
                let e = run_end(s, c.pos, word_char());
                &&& final(self).moved_from(old(self), Cursor { pos: e, ..c })
                &&& word@ == s.subrange(c.pos, e)
            }),
    {
        let n = self.source_code.len();
        let start = self.position;
        while self.position < n && is_word_char(self.source_code[self.position])
            invariant
                start <= self.position <= n == self.source_code@.len(),
                self.source_code == old(self).source_code,
                self.tokens == old(self).tokens,
                self.is_code_bloc == old(self).is_code_bloc,
                self.current_pos == old(self).current_pos,
                start == old(self).position,
                forall|j: int|
                    start <= j < self.position ==> word_char()(#[trigger] self.source_code@[j]),
            decreases n - self.position,
        {
            self.position += 1;
        }
        proof {
            lemma_run_end_is(self.source_code@, start as int, self.position as int, word_char());
        }
        string_of(&self.source_code, start, self.position)
    }

    /// Reads the longest run of decimal digits and returns it.
    pub fn scan_number_unparsed(&mut self) -> (digits: String)
        requires
            old(self).wf(),
        ensures
            ({
                let s = old(self).source();
                let c = old(self).cursor();
                let e = run_end(s, c.pos, digit());
                &&& final(self).moved_from(old(self), Cursor { pos: e, ..c })
                &&& digits@ == s.subrange(c.pos, e)
            }),
    {
        let n = self.source_code.len();
        let start = self.position;
        while self.position < n && is_decimal(self.source_code[self.position])
            invariant
                start <= self.position <= n == self.source_code@.len(),
                self.source_code == old(self).source_code,
                self.tokens == old(self).tokens,
                self.is_code_bloc == old(self).is_code_bloc,
                self.current_pos == old(self).current_pos,
                start == old(self).position,
                forall|j: int| start <= j < self.position ==> digit()(#[trigger] self.source_code@[j]),
            decreases n - self.position,
        {
            self.position += 1;
        }
        proof {
            lemma_run_end_is(self.source_code@, start as int, self.position as int, digit());
        }
        string_of(&self.source_code, start, self.position)
    }

    /// Reads a quoted string, the scan standing on its opening quote, and
    /// returns what stands between the quotes, escape sequences untouched.
    /// A string that the source ends in is taken as closed there. At the end
    /// of the source nothing is read.
    pub fn scan_string(&mut self) -> (content: String)
        requires
            old(self).wf(),
        ensures
            old(self).cursor().pos < old(self).source().len() ==> ({
                let s = old(self).source();
                let p = old(self).cursor().pos;
                let e = quoted_end(s, p + 1, s[p]);
                &&& final(self).moved_from(old(self), Cursor { pos: past(s, e), ..old(self).cursor() })
                &&& content@ == s.subrange(p + 1, e)
            }),
            old(self).cursor().pos >= old(self).source().len() ==> final(self).moved_from(
                old(self),
                old(self).cursor(),
            ) && content@ == Seq::<char>::empty(),
    {
        let n = self.source_code.len();
        if self.position >= n {
            return String::new();
        }
        let quote = self.source_code[self.position];
        let start = self.position + 1;
        let mut end = start;
        while end < n && self.source_code[end] != quote
            invariant
                start <= end <= n == self.source_code@.len(),
                quoted_end(self.source_code@, start as int, quote) == quoted_end(
                    self.source_code@,
                    end as int,
                    quote,
                ),
            decreases n - end,
        {
            if self.source_code[end] == '\\' && end + 1 < n {
                end += 2;
            } else {
                end += 1;
            }
        }
        proof {
            lemma_quoted_end(self.source_code@, start as int, quote);
        }
        let content = string_of(&self.source_code, start, end);
        self.position = if end < n {
            end + 1
        } else {
            end
        };
        content
    }

    /// Reads a list literal, the scan standing on its opening bracket, up to
    /// and with the next closing bracket, and returns it as written. A list
    /// that the source ends in is taken as closed there.
    pub fn scan_list(&mut self) -> (list: String)
        requires
            old(self).wf(),
        ensures
            ({
                let s = old(self).source();
                let c = old(self).cursor();
                let e = past(s, find_char(s, c.pos, ']'));
                &&& final(self).moved_from(old(self), Cursor { pos: e, ..c })
                &&& list@ == s.subrange(c.pos, e)
            }),
    {
        let n = self.source_code.len();
        let start = self.position;
        let mut end = start;
        while end < n && self.source_code[end] != ']'
            invariant
                start <= end <= n == self.source_code@.len(),
                forall|j: int| start <= j < end ==> #[trigger] self.source_code@[j] != ']',
            decreases n - end,
        {
            end += 1;
        }
        proof {
            lemma_find_char_is(self.source_code@, start as int, end as int, ']');
        }
        if end < n {
            end += 1;
        }
        self.position = end;
        string_of(&self.source_code, start, end)
    }

    /// Reads plain text up to the next `{{`, passes over the `{{` and enters
    /// the block; returns the text.
    pub fn scan_md_txt(&mut self) -> (txt: String)
        requires
            old(self).wf(),
        ensures
            ({
                let s = old(self).source();
                let c = old(self).cursor();
                &&& final(self).moved_from(old(self), past_text(s, c))
                &&& txt@ == s.subrange(c.pos, text_end(s, c.pos))
            }),
    {
        let n = self.source_code.len();
        let start = self.position;
        let mut end = start;
        while end < n && !(self.source_code[end] == '{' && end + 1 < n && self.source_code[end + 1]
            == '{')
            invariant
                start <= end <= n == self.source_code@.len(),
                self.source_code == old(self).source_code,
                self.tokens == old(self).tokens,
                self.position == old(self).position,
                self.is_code_bloc == old(self).is_code_bloc,
                text_end(self.source_code@, start as int) == text_end(self.source_code@, end as int),
                self.current_pos == line_after(
                    old(self).current_pos,
                    self.source_code@,
                    start as int,
                    end as int,
                ),
            decreases n - end,
        {
            assert(newlines(self.source_code@, start as int, end + 1) == newlines(
                self.source_code@,
                start as int,
                end as int,
            ) + if self.source_code@[end as int] == '\n' {
                1nat
            } else {
                0nat
            });
            if self.source_code[end] == '\n' && self.current_pos < i64::MAX {
                self.current_pos += 1;
            }
            end += 1;
        }
        proof {
            lemma_text_end(self.source_code@, start as int);
        }
        let txt = string_of(&self.source_code, start, end);
        self.position = if end < n {
            end + 2
        } else {
            end
        };
        self.is_code_bloc = true;
        txt
    }

    /// Reads the next token.
    pub fn next_token(&mut self) -> (r: Result<MdToken, LexerError>)
        requires
            old(self).wf(),
        ensures
            final(self).moved_from(
                old(self),
                next_token_spec(old(self).source(), old(self).cursor()).next,
            ),
            match next_token_spec(old(self).source(), old(self).cursor()).token {
                Ok(t) => r matches Ok(token) && token@ == t,
                Err(e) => r matches Err(error) && error@ == e,
            },
    {
        if !self.is_code_bloc {
            let txt = self.scan_md_txt();
            return Ok(MdToken { token_type: MdTokenType::MdText, line: self.current_pos, lexem: txt });
        }
        self.consume_whitespace();
        let n = self.source_code.len();
        if self.position >= n {
            return Ok(
                MdToken {
                    token_type: MdTokenType::EndOfFile,
                    line: self.current_pos,
                    lexem: String::new(),
                },
            );
        }
        let ch = self.source_code[self.position];
        let twice = self.position + 1 < n && self.source_code[self.position + 1] == ch;
        let line = self.current_pos;
        if starts_word(ch) {
            let value = self.scan_identifier();
            Ok(MdToken { token_type: keyword(&value), line, lexem: value })
        } else if ch == '"' || ch == '\'' {
            let value = self.scan_string();
            Ok(MdToken { token_type: MdTokenType::String(value.clone()), line, lexem: value })
        } else if is_decimal(ch) {
            let value = self.scan_number_unparsed();
            let number = match parse_integer(&chars_of(value.as_str())) {
                Some(n) => n,
                None => 0,
            };
            Ok(MdToken { token_type: MdTokenType::Number(number), line, lexem: value })
        } else if ch == '[' {
            let value = self.scan_list();
            Ok(MdToken { token_type: MdTokenType::List(value.clone()), line, lexem: value })
        } else if is_operator_char(ch) {
            self.position += 1;
            Ok(MdToken { token_type: MdTokenType::Operator(ch), line, lexem: single(ch) })
        } else if ch == ':' && self.position + 1 < n && self.source_code[self.position + 1] == '=' {
            self.position += 2;
            Ok(MdToken { token_type: MdTokenType::Assign, line, lexem: String::from_str(":=") })
        } else if ch == '$' {
            self.position += 1;
            let identifier = self.scan_identifier();
            Ok(MdToken { token_type: MdTokenType::Dereference, line, lexem: identifier })
        } else if ch == '}' && twice {
            self.position += 2;
            self.is_code_bloc = false;
            Ok(MdToken { token_type: MdTokenType::CodeEnd, line, lexem: String::from_str("}}") })
        } else if ch == ';' && twice {
            self.position += 2;
            Ok(
                MdToken {
                    token_type: MdTokenType::EndStatement,
                    line,
                    lexem: String::from_str(";;"),
                },
            )
        } else {
            self.position += 1;
            Err(
                LexerError::UnknownChar(
                    MdToken { token_type: MdTokenType::Unknown(ch), line, lexem: single(ch) },
                ),
            )
        }
    }

    /// Reads the whole document. On success the tokens read are appended to
    /// `tokens`, but for the end of input, which is returned. On failure
    /// `tokens` is emptied and the character that stopped the scan is
    /// returned as an error.
    pub fn scan_tokens(&mut self) -> (r: Result<MdToken, LexerError>)
        requires
            old(self).wf(),
        ensures
            final(self).wf(),
            final(self).source() == old(self).source(),
            final(self).cursor() == scan_into(
                old(self).source(),
                old(self).cursor(),
                token_views(old(self).pending()),
            ).end,
            match scan_into(
                old(self).source(),
                old(self).cursor(),
                token_views(old(self).pending()),
            ).tokens {
                Ok(all) => r matches Ok(end) && token_views(final(self).pending()).push(end@)
                    == all,
                Err(e) => r matches Err(error) && error@ == e && final(self).pending().len() == 0,
            },
    {
        loop
            invariant
                self.wf(),
                self.source_code@ == old(self).source_code@,
                scan_into(self.source_code@, self.cursor(), token_views(self.tokens@))
                    == scan_into(
                    old(self).source_code@,
                    old(self).cursor(),
                    token_views(old(self).tokens@),
                ),
            decreases
                    self.source_code@.len() - self.position,
                    (if self.is_code_bloc {
                        0int
                    } else {
                        1int
                    }),
        {
            proof {
                lemma_step_advances(self.source_code@, self.cursor());
            }
            let ghost before = self.tokens@;
            match self.next_token() {
                Ok(tkn) => {
                    if let MdTokenType::EndOfFile = tkn.token_type {
                        return Ok(tkn);
                    }
                    self.tokens.push_back(tkn);
                    assert(token_views(self.tokens@) =~= token_views(before).push(tkn@));
                },
                Err(e) => {
                    self.tokens.clear();
                    return Err(e);
                },
            }
        }
    }

    /// Gives up the scanner for the tokens it has read.
    pub fn into_tokens(self) -> (tokens: VecDeque<MdToken>)
        ensures
            tokens@ == self.pending(),
    {
        self.tokens
    }
}

/// The string made of `c` alone.
fn single(c: char) -> (s: String)
    ensures
        s@ == seq![c],
{
    let mut s = String::new();
    push_char(&mut s, c);
    assert(s@ =~= seq![c]);
    s
}

} // verus!
