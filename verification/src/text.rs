//! Character-level helpers: the two Unicode classes the scanner asks std for,
//! conversions between strings and character vectors, and the small text
//! rules (escapes, trimming, decimal numbers) shared by the other modules.
use vstd::prelude::*;

verus! {

/// The answer of `char::is_whitespace` for `c` (the Unicode `White_Space`
/// property, which std keeps as a table).
pub uninterp spec fn char_is_whitespace(c: char) -> bool;

/// The answer of `char::is_alphanumeric` for `c` (Unicode `Alphabetic` or a
/// numeric category, which std keeps as tables).
pub uninterp spec fn char_is_alphanumeric(c: char) -> bool;

/// Calls `char::is_whitespace`. Trusted: the result is the named answer of
/// that std function for the same character; nothing else is claimed.
#[verifier::external_body]
pub(crate) fn is_whitespace(c: char) -> (r: bool)
    ensures
        r == char_is_whitespace(c),
{
    c.is_whitespace()
}

/// Calls `char::is_alphanumeric`. Trusted: the result is the named answer of
/// that std function for the same character; nothing else is claimed.
#[verifier::external_body]
pub(crate) fn is_alphanumeric(c: char) -> (r: bool)
    ensures
        r == char_is_alphanumeric(c),
{
    c.is_alphanumeric()
}

/// Calls `String::push`. Trusted: the string afterwards is the string before
/// with `c` appended as its last character.
#[verifier::external_body]
pub(crate) fn push_char(s: &mut String, c: char)
    ensures
        final(s)@ == old(s)@.push(c),
{
    s.push(c)
}

/// The characters of `s`, in order.
pub fn chars_of(s: &str) -> (v: Vec<char>)
    ensures
        v@ == s@,
{
    let mut v: Vec<char> = Vec::new();
    for c in it: s.chars()
        invariant
            v@ == it.seq().subrange(0, it.index() as int),
            it.seq() == s@,
    {
        v.push(c);
        assert(v@ =~= it.seq().subrange(0, it.index() + 1));
    }
    assert(v@ =~= s@);
    v
}

/// The string made of `v[from..to]`.
pub fn string_of(v: &Vec<char>, from: usize, to: usize) -> (s: String)
    requires
        from <= to <= v@.len(),
    ensures
        s@ == v@.subrange(from as int, to as int),
{
    let mut s = String::new();
    let mut i: usize = from;
    while i < to
        invariant
            from <= i <= to <= v@.len(),
            s@ == v@.subrange(from as int, i as int),
        decreases to - i,
    {
        push_char(&mut s, v[i]);
        i += 1;
        assert(s@ =~= v@.subrange(from as int, i as int));
    }
    s
}

/// Whether `value` reads exactly `word`.
pub fn is_word(value: &String, word: &str) -> (r: bool)
    ensures
        r == (value@ == word@),
{
    let w = String::from_str(word);
    *value == w
}

/// The end of the longest stretch of characters satisfying `p` that starts at
/// position `i` of `s`.
pub open spec fn run_end(s: Seq<char>, i: int, p: spec_fn(char) -> bool) -> int
    decreases s.len() - i,
{
    if 0 <= i < s.len() && p(s[i]) {
        run_end(s, i + 1, p)
    } else {
        i
    }
}

/// The start of the longest stretch of characters satisfying `p` that ends
/// at position `hi` of `s` and does not reach below `lo`.
pub open spec fn run_start(s: Seq<char>, lo: int, hi: int, p: spec_fn(char) -> bool) -> int
    decreases hi - lo,
{
    if lo < hi <= s.len() && p(s[hi - 1]) {
        run_start(s, lo, hi - 1, p)
    } else {
        hi
    }
}

/// `s` without its leading and trailing characters that satisfy `p`.
pub open spec fn strip(s: Seq<char>, p: spec_fn(char) -> bool) -> Seq<char> {
    let a = run_end(s, 0, p);
    s.subrange(a, run_start(s, a, s.len() as int, p))
}

/// The first position at or after `i` where `s` holds `c`; the length of `s`
/// when there is none.
pub open spec fn find_char(s: Seq<char>, i: int, c: char) -> int
    decreases s.len() - i,
{
    if 0 <= i < s.len() && s[i] != c {
        find_char(s, i + 1, c)
    } else {
        i
    }
}

/// Characterises `run_end`: everything in `[i, e)` satisfies `p` and the
/// stretch cannot be extended.
pub proof fn lemma_run_end(s: Seq<char>, i: int, p: spec_fn(char) -> bool)
    requires
        0 <= i <= s.len(),
    ensures
        i <= run_end(s, i, p) <= s.len(),
        forall|j: int| i <= j < run_end(s, i, p) ==> p(#[trigger] s[j]),
        run_end(s, i, p) < s.len() ==> !p(s[run_end(s, i, p)]),
    decreases s.len() - i,
{
    if i < s.len() && p(s[i]) {
        lemma_run_end(s, i + 1, p);
    }
}

/// A stretch of `p` characters from `i` to `e` that cannot be extended is the
/// one `run_end` names.
pub proof fn lemma_run_end_is(s: Seq<char>, i: int, e: int, p: spec_fn(char) -> bool)
    requires
        0 <= i <= e <= s.len(),
        forall|j: int| i <= j < e ==> p(#[trigger] s[j]),
        e < s.len() ==> !p(s[e]),
    ensures
        run_end(s, i, p) == e,
    decreases e - i,
{
    if i < e {
        lemma_run_end_is(s, i + 1, e, p);
    }
}

/// A stretch of `p` characters from `b` to `hi` that cannot be extended
/// downwards is the one `run_start` names.
pub proof fn lemma_run_start_is(s: Seq<char>, lo: int, b: int, hi: int, p: spec_fn(char) -> bool)
    requires
        0 <= lo <= b <= hi <= s.len(),
        forall|j: int| b <= j < hi ==> p(#[trigger] s[j]),
        lo < b ==> !p(s[b - 1]),
    ensures
        run_start(s, lo, hi, p) == b,
    decreases hi - b,
{
    if b < hi {
        lemma_run_start_is(s, lo, b, hi - 1, p);
    }
}

/// Characterises `find_char`.
pub proof fn lemma_find_char(s: Seq<char>, i: int, c: char)
    requires
        0 <= i <= s.len(),
    ensures
        i <= find_char(s, i, c) <= s.len(),
        forall|j: int| i <= j < find_char(s, i, c) ==> #[trigger] s[j] != c,
        find_char(s, i, c) < s.len() ==> s[find_char(s, i, c)] == c,
    decreases s.len() - i,
{
    if i < s.len() && s[i] != c {
        lemma_find_char(s, i + 1, c);
    }
}

/// The first position without `c` before it that holds `c`, or the end, is
/// what `find_char` names.
pub proof fn lemma_find_char_is(s: Seq<char>, i: int, e: int, c: char)
    requires
        0 <= i <= e <= s.len(),
        forall|j: int| i <= j < e ==> #[trigger] s[j] != c,
        e < s.len() ==> s[e] == c,
    ensures
        find_char(s, i, c) == e,
    decreases e - i,
{
    if i < e {
        lemma_find_char_is(s, i + 1, e, c);
    }
}

/// The class of characters that `char::is_whitespace` accepts.
pub open spec fn whitespace() -> spec_fn(char) -> bool {
    |c: char| char_is_whitespace(c)
}

/// The class holding the single quote only.
pub open spec fn single_quote() -> spec_fn(char) -> bool {
    |c: char| c == '\''
}

/// `v` without leading and trailing whitespace.
pub fn trim(v: &Vec<char>) -> (r: Vec<char>)
    ensures
        r@ == strip(v@, whitespace()),
{
    let n = v.len();
    let mut a: usize = 0;
    while a < n && is_whitespace(v[a])
        invariant
            a <= n == v@.len(),
            forall|j: int| 0 <= j < a ==> whitespace()(#[trigger] v@[j]),
        decreases n - a,
    {
        a += 1;
    }
    let mut b: usize = n;
    while a < b && is_whitespace(v[b - 1])
        invariant
            a <= b <= n == v@.len(),
            forall|j: int| b <= j < n ==> whitespace()(#[trigger] v@[j]),
        decreases b - a,
    {
        b -= 1;
    }
    proof {
        lemma_run_end_is(v@, 0, a as int, whitespace());
        lemma_run_start_is(v@, a as int, b as int, n as int, whitespace());
    }
    copy_range(v, a, b)
}

/// `v` without leading and trailing single quotes.
pub fn strip_quotes(v: &Vec<char>) -> (r: Vec<char>)
    ensures
        r@ == strip(v@, single_quote()),
{
    let n = v.len();
    let mut a: usize = 0;
    while a < n && v[a] == '\''
        invariant
            a <= n == v@.len(),
            forall|j: int| 0 <= j < a ==> single_quote()(#[trigger] v@[j]),
        decreases n - a,
    {
        a += 1;
    }
    let mut b: usize = n;
    while a < b && v[b - 1] == '\''
        invariant
            a <= b <= n == v@.len(),
            forall|j: int| b <= j < n ==> single_quote()(#[trigger] v@[j]),
        decreases b - a,
    {
        b -= 1;
    }
    proof {
        lemma_run_end_is(v@, 0, a as int, single_quote());
        lemma_run_start_is(v@, a as int, b as int, n as int, single_quote());
    }
    copy_range(v, a, b)
}

/// A copy of `v[from..to]`.
pub fn copy_range(v: &Vec<char>, from: usize, to: usize) -> (r: Vec<char>)
    requires
        from <= to <= v@.len(),
    ensures
        r@ == v@.subrange(from as int, to as int),
{
    let mut r: Vec<char> = Vec::new();
    let mut i: usize = from;
    while i < to
        invariant
            from <= i <= to <= v@.len(),
            r@ == v@.subrange(from as int, i as int),
        decreases to - i,
    {
        r.push(v[i]);
        i += 1;
        assert(r@ =~= v@.subrange(from as int, i as int));
    }
    r
}


/// The character that a backslash followed by `c` stands for, where the pair
/// is an escape sequence.
pub open spec fn escape_of(c: char) -> Option<char> {
    if c == '\'' {
        Some('\'')
    } else if c == '\\' {
        Some('\\')
    } else if c == 'n' {
        Some('\n')
    } else if c == 't' {
        Some('\t')
    } else if c == 'r' {
        Some('\r')
    } else if c == '0' {
        Some('\0')
    } else {
        None
    }
}

/// `s[i..]` with each escape sequence replaced by the character it stands
/// for. A backslash that starts no escape sequence stays as it is.
pub open spec fn unescape_from(s: Seq<char>, i: int) -> Seq<char>
    decreases s.len() - i,
{
    if i < 0 || i >= s.len() {
        Seq::empty()
    } else if s[i] == '\\' && i + 1 < s.len() && escape_of(s[i + 1]) is Some {
        seq![escape_of(s[i + 1])->0] + unescape_from(s, i + 2)
    } else {
        seq![s[i]] + unescape_from(s, i + 1)
    }
}

/// `s` with its escape sequences replaced.
pub open spec fn unescaped(s: Seq<char>) -> Seq<char> {
    unescape_from(s, 0)
}

fn escape(c: char) -> (r: Option<char>)
    ensures
        r == escape_of(c),
{
    if c == '\'' {
        Some('\'')
    } else if c == '\\' {
        Some('\\')
    } else if c == 'n' {
        Some('\n')
    } else if c == 't' {
        Some('\t')
    } else if c == 'r' {
        Some('\r')
    } else if c == '0' {
        Some('\0')
    } else {
        None
    }
}

/// Appends the unescaped form of `raw` to `out`.
pub fn push_unescaped(out: &mut String, raw: &str)
    ensures
        final(out)@ == old(out)@ + unescaped(raw@),
{
    let v = chars_of(raw);
    let n = v.len();
    let mut i: usize = 0;
    while i < n
        invariant
            i <= n == v@.len(),
            out@ + unescape_from(v@, i as int) == old(out)@ + unescaped(v@),
        decreases n - i,
    {
        let ghost before = out@;
        let c = v[i];
        let e = if c == '\\' && i + 1 < n {
            escape(v[i + 1])
        } else {
            None
        };
        match e {
            Some(x) => {
                push_char(out, x);
                assert(out@ + unescape_from(v@, i + 2) =~= before + unescape_from(v@, i as int));
                i += 2;
            },
            None => {
                push_char(out, c);
                assert(out@ + unescape_from(v@, i + 1) =~= before + unescape_from(v@, i as int));
                i += 1;
            },
        }
    }
    assert(out@ + Seq::<char>::empty() =~= out@);
}

/// Whether `c` is one of the ten decimal digits.
pub open spec fn is_digit(c: char) -> bool {
    '0' <= c && c <= '9'
}

/// Whether `s[from..to]` holds decimal digits only.
pub open spec fn all_digits(s: Seq<char>, from: int, to: int) -> bool {
    forall|j: int| from <= j < to ==> is_digit(#[trigger] s[j])
}

/// The number that the decimal digits `s[from..to]` write.
pub open spec fn decimal_value(s: Seq<char>, from: int, to: int) -> int
    decreases to - from,
{
    if to <= from {
        0
    } else {
        decimal_value(s, from, to - 1) * 10 + (s[to - 1] as int - '0' as int)
    }
}

/// What `s` reads as a signed 32-bit decimal number: an optional `+` or `-`,
/// then one digit or more, with the value in the range of `i32`.
pub open spec fn parse_i32(s: Seq<char>) -> Option<i32> {
    let start: int = if s.len() > 0 && (s[0] == '-' || s[0] == '+') {
        1
    } else {
        0
    };
    let magnitude = decimal_value(s, start, s.len() as int);
    let value = if s.len() > 0 && s[0] == '-' {
        -magnitude
    } else {
        magnitude
    };
    if start < s.len() && all_digits(s, start, s.len() as int) && i32::MIN <= value <= i32::MAX {
        Some(value as i32)
    } else {
        None
    }
}

/// A number written in digits does not shrink when more digits follow.
pub proof fn lemma_decimal_grows(s: Seq<char>, from: int, mid: int, to: int)
    requires
        from <= mid <= to,
        all_digits(s, from, to),
    ensures
        0 <= decimal_value(s, from, mid) <= decimal_value(s, from, to),
    decreases to - mid,
{
    if mid < to {
        lemma_decimal_grows(s, from, mid, to - 1);
        assert(is_digit(s[to - 1]));
    } else {
        lemma_decimal_nonnegative(s, from, to);
    }
}

proof fn lemma_decimal_nonnegative(s: Seq<char>, from: int, to: int)
    requires
        all_digits(s, from, to),
    ensures
        0 <= decimal_value(s, from, to),
    decreases to - from,
{
    if from < to {
        lemma_decimal_nonnegative(s, from, to - 1);
        assert(is_digit(s[to - 1]));
    }
}

/// Reads `text` as a signed 32-bit decimal number.
pub fn parse_integer(text: &Vec<char>) -> (r: Option<i32>)
    ensures
        r == parse_i32(text@),
{
    let n = text.len();
    if n == 0 {
        return None;
    }
    let negative = text[0] == '-';
    let start: usize = if negative || text[0] == '+' {
        1
    } else {
        0
    };
    if start >= n {
        return None;
    }
    let mut acc: i64 = 0;
    let mut i: usize = start;
    while i < n
        invariant
            start <= i <= n == text@.len(),
            start == (if text@[0] == '-' || text@[0] == '+' {
                1int
            } else {
                0int
            }),
            all_digits(text@, start as int, i as int),
            acc == decimal_value(text@, start as int, i as int),
            0 <= acc <= 2147483648,
        decreases n - i,
    {
        let c = text[i];
        if !('0' <= c && c <= '9') {
            assert(!all_digits(text@, start as int, n as int)) by {
                assert(!is_digit(text@[i as int]));
            }
            return None;
        }
        let d: i64 = (c as u32 - '0' as u32) as i64;
        acc = acc * 10 + d;
        i += 1;
        if acc > 2147483648 {
            proof {
                if all_digits(text@, start as int, n as int) {
                    lemma_decimal_grows(text@, start as int, i as int, n as int);
                }
            }
            return None;
        }
    }
    if negative {
        Some((-acc) as i32)
    } else if acc <= 2147483647 {
        Some(acc as i32)
    } else {
        None
    }
}

/// The character that writes the digit `d`.
pub open spec fn digit_char(d: int) -> char {
    ((d + 48) as u8) as char
}

/// The decimal digits of `n`, without leading zeros.
pub open spec fn nat_text(n: nat) -> Seq<char>
    decreases n,
{
    if n < 10 {
        seq![digit_char(n as int)]
    } else {
        nat_text(n / 10).push(digit_char((n % 10) as int))
    }
}

/// The decimal text of `i`: a minus sign for a negative number, then its
/// digits.
pub open spec fn int_text(i: int) -> Seq<char> {
    if i < 0 {
        seq!['-'] + nat_text((-i) as nat)
    } else {
        nat_text(i as nat)
    }
}

fn push_nat(out: &mut String, n: u32)
    ensures
        final(out)@ == old(out)@ + nat_text(n as nat),
    decreases n,
{
    if n >= 10 {
        push_nat(out, n / 10);
    }
    let ghost before = out@;
    let d: u8 = (n % 10) as u8;
    push_char(out, (48u8 + d) as char);
    assert(out@ =~= old(out)@ + nat_text(n as nat));
}

/// Appends the decimal text of `value` to `out`.
pub fn push_int(out: &mut String, value: i32)
    ensures
        final(out)@ == old(out)@ + int_text(value as int),
{
    if value < 0 {
        push_char(out, '-');
        let magnitude: u32 = (-(value as i64)) as u32;
        push_nat(out, magnitude);
        assert(out@ =~= old(out)@ + int_text(value as int));
    } else {
        push_nat(out, value as u32);
    }
}


/// The pieces of `s[start..]` between separators, where no separator stands
/// in `s[start..i]`: the piece that `start` begins, then those after each
/// separator from `i` on.
pub open spec fn split_from(s: Seq<char>, start: int, i: int, sep: char) -> Seq<Seq<char>>
    decreases s.len() - i,
{
    if i >= s.len() {
        seq![s.subrange(start, s.len() as int)]
    } else if s[i] == sep {
        seq![s.subrange(start, i)] + split_from(s, i + 1, i + 1, sep)
    } else {
        split_from(s, start, i + 1, sep)
    }
}

/// The pieces of `s` between the occurrences of `sep`, empty pieces too: one
/// piece more than there are separators.
pub open spec fn split(s: Seq<char>, sep: char) -> Seq<Seq<char>> {
    split_from(s, 0, 0, sep)
}

/// The contents of `parts`, piece by piece.
pub open spec fn pieces(parts: Seq<Vec<char>>) -> Seq<Seq<char>> {
    parts.map_values(|p: Vec<char>| p@)
}

/// Splits `v` at each occurrence of `sep`.
pub fn split_on(v: &Vec<char>, sep: char) -> (parts: Vec<Vec<char>>)
    ensures
        pieces(parts@) == split(v@, sep),
{
    let n = v.len();
    let mut parts: Vec<Vec<char>> = Vec::new();
    let mut start: usize = 0;
    let mut i: usize = 0;
    assert(pieces(parts@) + split_from(v@, 0, 0, sep) =~= split(v@, sep));
    while i < n
        invariant
            start <= i <= n == v@.len(),
            pieces(parts@) + split_from(v@, start as int, i as int, sep) == split(v@, sep),
        decreases n - i,
    {
        if v[i] == sep {
            let ghost before = parts@;
            let piece = copy_range(v, start, i);
            parts.push(piece);
            assert(pieces(parts@) =~= pieces(before).push(piece@));
            assert(pieces(parts@) + split_from(v@, i + 1, i + 1, sep) =~= pieces(before)
                + split_from(v@, start as int, i as int, sep));
            start = i + 1;
        }
        i += 1;
    }
    let ghost before = parts@;
    let piece = copy_range(v, start, n);
    parts.push(piece);
    assert(pieces(parts@) =~= pieces(before).push(piece@));
    assert(pieces(parts@) =~= pieces(before) + split_from(v@, start as int, n as int, sep));
    parts
}

/// `s` without its square brackets.
pub open spec fn without_brackets(s: Seq<char>) -> Seq<char>
    decreases s.len(),
{
    if s.len() == 0 {
        s
    } else if s.last() == '[' || s.last() == ']' {
        without_brackets(s.drop_last())
    } else {
        without_brackets(s.drop_last()).push(s.last())
    }
}

/// A copy of `v` without its square brackets.
pub fn remove_brackets(v: &Vec<char>) -> (r: Vec<char>)
    ensures
        r@ == without_brackets(v@),
{
    let mut r: Vec<char> = Vec::new();
    let mut i: usize = 0;
    while i < v.len()
        invariant
            i <= v@.len(),
            r@ == without_brackets(v@.take(i as int)),
        decreases v@.len() - i,
    {
        assert(v@.take(i + 1).drop_last() =~= v@.take(i as int));
        if !(v[i] == '[' || v[i] == ']') {
            r.push(v[i]);
        }
        i += 1;
    }
    assert(v@.take(v@.len() as int) =~= v@);
    r
}

/// Whether `c` occurs in `v`.
pub fn has_char(v: &Vec<char>, c: char) -> (r: bool)
    ensures
        r == v@.contains(c),
{
    let mut i: usize = 0;
    while i < v.len()
        invariant
            i <= v@.len(),
            forall|j: int| 0 <= j < i ==> v@[j] != c,
        decreases v@.len() - i,
    {
        if v[i] == c {
            return true;
        }
        i += 1;
    }
    false
}

/// Whether `v` reads exactly `word`.
pub fn reads(v: &Vec<char>, word: &str) -> (r: bool)
    ensures
        r == (v@ == word@),
{
    let s = string_of(v, 0, v.len());
    assert(v@.subrange(0, v@.len() as int) =~= v@);
    is_word(&s, word)
}

} // verus!
