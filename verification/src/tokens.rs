//! Token kinds of the source language, character classes used by the lexer,
//! and the literal-decoding helpers (numeric lexemes, string escapes, char
//! escapes) together with their mathematical specifications.

use vstd::prelude::*;
use vstd::string::StrSliceExecFns;

verus! {

/// The fatal errors of the front end: a committed construct met the wrong
/// token kind, a missing name, a value of the wrong category, exhausted
/// input, or a malformed character-literal escape in the lexer.
#[derive(Debug, Clone, Copy, PartialEq, Eq, Structural)]
pub enum ParseError {
    MissingName,
    TypeMismatch,
    UnexpectedToken,
    UnexpectedEndOfInput,
    InvalidEscape,
}

/// The closed set of syntactic categories a lexeme can fall into.
/// Variable-content categories carry their decoded value (identifier text,
/// numeric value, raw string text, decoded character).
#[derive(Debug, Clone, PartialEq, Eq)]
pub enum TokenKind {
    Tilde,
    Grave,
    Pound,
    Plus,
    PlusPlus,
    Minus,
    MinusMinus,
    Star,
    Slash,
    Mod,
    Bang,
    Greater,
    GreaterGreater,
    Less,
    LessLess,
    Amp,
    AmpAmp,
    Pipe,
    PipePipe,
    Xor,
    Var,
    Const,
    Include,
    AtDirective,
    MacroRules,
    ForBang,
    Ident(String),
    HexLit(i64),
    BinLit(i64),
    OctLit(i64),
    IntLit(i64),
    StrLit(String),
    CharLit(char),
    Equal,
    LeftParen,
    RightParen,
    LeftBrace,
    RightBrace,
    Comma,
    Colon,
    Dot,
    Semicolon,
    DoubleColon,
}

/// Mathematical model of a token kind: text as a character sequence and
/// numeric values as unbounded integers.
pub enum SpecTokenKind {
    Tilde,
    Grave,
    Pound,
    Plus,
    PlusPlus,
    Minus,
    MinusMinus,
    Star,
    Slash,
    Mod,
    Bang,
    Greater,
    GreaterGreater,
    Less,
    LessLess,
    Amp,
    AmpAmp,
    Pipe,
    PipePipe,
    Xor,
    Var,
    Const,
    Include,
    AtDirective,
    MacroRules,
    ForBang,
    Ident(Seq<char>),
    HexLit(int),
    BinLit(int),
    OctLit(int),
    IntLit(int),
    StrLit(Seq<char>),
    CharLit(char),
    Equal,
    LeftParen,
    RightParen,
    LeftBrace,
    RightBrace,
    Comma,
    Colon,
    Dot,
    Semicolon,
    DoubleColon,
}

impl View for TokenKind {
    type V = SpecTokenKind;

    open spec fn view(&self) -> SpecTokenKind {
        match self {
            TokenKind::Tilde => SpecTokenKind::Tilde,
            TokenKind::Grave => SpecTokenKind::Grave,
            TokenKind::Pound => SpecTokenKind::Pound,
            TokenKind::Plus => SpecTokenKind::Plus,
            TokenKind::PlusPlus => SpecTokenKind::PlusPlus,
            TokenKind::Minus => SpecTokenKind::Minus,
            TokenKind::MinusMinus => SpecTokenKind::MinusMinus,
            TokenKind::Star => SpecTokenKind::Star,
            TokenKind::Slash => SpecTokenKind::Slash,
            TokenKind::Mod => SpecTokenKind::Mod,
            TokenKind::Bang => SpecTokenKind::Bang,
            TokenKind::Greater => SpecTokenKind::Greater,
            TokenKind::GreaterGreater => SpecTokenKind::GreaterGreater,
            TokenKind::Less => SpecTokenKind::Less,
            TokenKind::LessLess => SpecTokenKind::LessLess,
            TokenKind::Amp => SpecTokenKind::Amp,
            TokenKind::AmpAmp => SpecTokenKind::AmpAmp,
            TokenKind::Pipe => SpecTokenKind::Pipe,
            TokenKind::PipePipe => SpecTokenKind::PipePipe,
            TokenKind::Xor => SpecTokenKind::Xor,
            TokenKind::Var => SpecTokenKind::Var,
            TokenKind::Const => SpecTokenKind::Const,
            TokenKind::Include => SpecTokenKind::Include,
            TokenKind::AtDirective => SpecTokenKind::AtDirective,
            TokenKind::MacroRules => SpecTokenKind::MacroRules,
            TokenKind::ForBang => SpecTokenKind::ForBang,
            TokenKind::Ident(s) => SpecTokenKind::Ident(s@),
            TokenKind::HexLit(v) => SpecTokenKind::HexLit(*v as int),
            TokenKind::BinLit(v) => SpecTokenKind::BinLit(*v as int),
            TokenKind::OctLit(v) => SpecTokenKind::OctLit(*v as int),
            TokenKind::IntLit(v) => SpecTokenKind::IntLit(*v as int),
            TokenKind::StrLit(s) => SpecTokenKind::StrLit(s@),
            TokenKind::CharLit(c) => SpecTokenKind::CharLit(*c),
            TokenKind::Equal => SpecTokenKind::Equal,
            TokenKind::LeftParen => SpecTokenKind::LeftParen,
            TokenKind::RightParen => SpecTokenKind::RightParen,
            TokenKind::LeftBrace => SpecTokenKind::LeftBrace,
            TokenKind::RightBrace => SpecTokenKind::RightBrace,
            TokenKind::Comma => SpecTokenKind::Comma,
            TokenKind::Colon => SpecTokenKind::Colon,
            TokenKind::Dot => SpecTokenKind::Dot,
            TokenKind::Semicolon => SpecTokenKind::Semicolon,
            TokenKind::DoubleColon => SpecTokenKind::DoubleColon,
        }
    }
}

// ---------------------------------------------------------------------------
// Character classes
// ---------------------------------------------------------------------------

pub open spec fn is_whitespace_char(c: char) -> bool {
    c == ' ' || c == '\t' || c == '\r' || c == '\n'
}

pub open spec fn is_ident_start_char(c: char) -> bool {
    (97 <= c as u32 && c as u32 <= 122)  // 'a' ..= 'z'
    || (65 <= c as u32 && c as u32 <= 90)  // 'A' ..= 'Z'
    || c == '_'
}

pub open spec fn is_dec_digit_char(c: char) -> bool {
    48 <= c as u32 && c as u32 <= 57  // '0' ..= '9'
}

pub open spec fn is_ident_char(c: char) -> bool {
    is_ident_start_char(c) || is_dec_digit_char(c)
}

pub open spec fn is_hex_digit_char(c: char) -> bool {
    is_dec_digit_char(c)
    || (97 <= c as u32 && c as u32 <= 102)  // 'a' ..= 'f'
    || (65 <= c as u32 && c as u32 <= 70)  // 'A' ..= 'F'
}

pub open spec fn is_bin_digit_char(c: char) -> bool {
    c == '0' || c == '1'
}

pub open spec fn is_oct_digit_char(c: char) -> bool {
    48 <= c as u32 && c as u32 <= 55  // '0' ..= '7'
}

/// Is `c` a digit of the given radix (2, 8, 10 or 16)?
pub open spec fn is_radix_digit_char(c: char, radix: int) -> bool {
    if radix == 2 {
        is_bin_digit_char(c)
    } else if radix == 8 {
        is_oct_digit_char(c)
    } else if radix == 10 {
        is_dec_digit_char(c)
    } else {
        is_hex_digit_char(c)
    }
}

/// Numeric value of one digit character; letters carry their hexadecimal
/// value, anything else counts 0.
pub open spec fn digit_value(c: char) -> int {
    if is_dec_digit_char(c) {
        c as u32 - 48
    } else if 97 <= c as u32 && c as u32 <= 102 {
        c as u32 - 87
    } else if 65 <= c as u32 && c as u32 <= 70 {
        c as u32 - 55
    } else {
        0
    }
}

/// Every character of `s` is a digit of the given radix.
pub open spec fn all_radix_digits(s: Seq<char>, radix: int) -> bool {
    forall|k: int| 0 <= k < s.len() ==> is_radix_digit_char(#[trigger] s[k], radix)
}

/// The integer a digit string denotes in the given radix, most significant
/// digit first.
pub open spec fn digits_value(s: Seq<char>, radix: int) -> int
    decreases s.len(),
{
    if s.len() == 0 {
        0
    } else {
        digits_value(s.drop_last(), radix) * radix + digit_value(s.last())
    }
}

pub proof fn lemma_digits_value_nonneg(s: Seq<char>, radix: int)
    requires
        radix >= 2,
    ensures
        digits_value(s, radix) >= 0,
    decreases s.len(),
{
    if s.len() > 0 {
        lemma_digits_value_nonneg(s.drop_last(), radix);
        assert(digits_value(s.drop_last(), radix) * radix >= 0) by (nonlinear_arith)
            requires
                digits_value(s.drop_last(), radix) >= 0,
                radix >= 2,
        ;
    }
}

/// Extending a digit string by one digit multiplies its value by the radix.
pub proof fn lemma_digits_value_step(s: Seq<char>, j: int, radix: int)
    requires
        0 <= j < s.len(),
    ensures
        digits_value(s.subrange(0, j + 1), radix)
            == digits_value(s.subrange(0, j), radix) * radix + digit_value(s[j]),
{
    let t = s.subrange(0, j + 1);
    assert(t.drop_last() =~= s.subrange(0, j));
    assert(t.last() == s[j]);
}

/// The value of a prefix never exceeds the value of the whole digit string.
pub proof fn lemma_digits_value_prefix_le(s: Seq<char>, j: int, radix: int)
    requires
        radix >= 2,
        0 <= j <= s.len(),
    ensures
        digits_value(s.subrange(0, j), radix) <= digits_value(s, radix),
    decreases s.len() - j,
{
    if j == s.len() {
        assert(s.subrange(0, j) =~= s);
    } else {
        lemma_digits_value_step(s, j, radix);
        let p = digits_value(s.subrange(0, j), radix);
        lemma_digits_value_nonneg(s.subrange(0, j), radix);
        assert(p * radix >= p) by (nonlinear_arith)
            requires
                p >= 0,
                radix >= 2,
        ;
        assert(digit_value(s[j]) >= 0);
        lemma_digits_value_prefix_le(s, j + 1, radix);
    }
}

/// Relies on std's String::push: appends one character at the end.
pub assume_specification[ String::push ](s: &mut String, c: char)
    ensures
        final(s)@ == old(s)@.push(c),
;

// ---------------------------------------------------------------------------
// Executable character classification
// ---------------------------------------------------------------------------

pub fn whitespace_char(c: char) -> (r: bool)
    ensures
        r == is_whitespace_char(c),
{
    c == ' ' || c == '\t' || c == '\r' || c == '\n'
}

pub fn ident_start_char(c: char) -> (r: bool)
    ensures
        r == is_ident_start_char(c),
{
    let u = c as u32;
    (97 <= u && u <= 122) || (65 <= u && u <= 90) || c == '_'
}

pub fn ident_char(c: char) -> (r: bool)
    ensures
        r == is_ident_char(c),
{
    let u = c as u32;
    ident_start_char(c) || (48 <= u && u <= 57)
}

pub fn radix_digit_char(c: char, radix: u64) -> (r: bool)
    ensures
        r == is_radix_digit_char(c, radix as int),
{
    let u = c as u32;
    if radix == 2 {
        c == '0' || c == '1'
    } else if radix == 8 {
        48 <= u && u <= 55
    } else if radix == 10 {
        48 <= u && u <= 57
    } else {
        (48 <= u && u <= 57) || (97 <= u && u <= 102) || (65 <= u && u <= 70)
    }
}

pub fn digit_value_of(c: char) -> (d: u64)
    ensures
        d as int == digit_value(c),
{
    let u = c as u32;
    if 48 <= u && u <= 57 {
        (u - 48) as u64
    } else if 97 <= u && u <= 102 {
        (u - 87) as u64
    } else if 65 <= u && u <= 70 {
        (u - 55) as u64
    } else {
        0
    }
}

/// The characters of `s`, in order, as an indexable vector.
pub fn str_chars(s: &str) -> (v: Vec<char>)
    ensures
        v@ == s@,
{
    let n = s.unicode_len();
    let mut v: Vec<char> = Vec::new();
    let mut i: usize = 0;
    while i < n
        invariant
            i <= n,
            n == s@.len(),
            v@ =~= s@.subrange(0, i as int),
        decreases n - i,
    {
        v.push(s.get_char(i));
        i = i + 1;
    }
    assert(v@ =~= s@);
    v
}

/// The string holding exactly the characters `v[lo..hi]`.
pub fn chars_to_string(v: &Vec<char>, lo: usize, hi: usize) -> (out: String)
    requires
        lo <= hi <= v@.len(),
    ensures
        out@ == v@.subrange(lo as int, hi as int),
{
    let mut out = String::new();
    let mut i: usize = lo;
    while i < hi
        invariant
            lo <= i <= hi <= v@.len(),
            out@ =~= v@.subrange(lo as int, i as int),
        decreases hi - i,
    {
        out.push(v[i]);
        i = i + 1;
    }
    assert(out@ =~= v@.subrange(lo as int, hi as int));
    out
}

/// The value of the digit string `v[lo..hi]` in the given radix.
pub fn digits_to_u64(v: &Vec<char>, lo: usize, hi: usize, radix: u64) -> (x: u64)
    requires
        lo <= hi <= v@.len(),
        radix == 2 || radix == 8 || radix == 10 || radix == 16,
        all_radix_digits(v@.subrange(lo as int, hi as int), radix as int),
        digits_value(v@.subrange(lo as int, hi as int), radix as int) <= u64::MAX,
    ensures
        x as int == digits_value(v@.subrange(lo as int, hi as int), radix as int),
{
    let ghost whole = v@.subrange(lo as int, hi as int);
    let ghost r = radix as int;
    let mut x: u64 = 0;
    let mut i: usize = lo;
    while i < hi
        invariant
            lo <= i <= hi <= v@.len(),
            radix == 2 || radix == 8 || radix == 10 || radix == 16,
            whole == v@.subrange(lo as int, hi as int),
            r == radix as int,
            all_radix_digits(whole, r),
            digits_value(whole, r) <= u64::MAX,
            x as int == digits_value(whole.subrange(0, i - lo), r),
        decreases hi - i,
    {
        let ghost j = i - lo;
        proof {
            assert(whole[j] == v@[i as int]);
            assert(is_radix_digit_char(whole[j], r));
            lemma_digits_value_step(whole, j, r);
            lemma_digits_value_prefix_le(whole, j + 1, r);
            lemma_digits_value_nonneg(whole.subrange(0, j), r);
            assert(0 <= digit_value(whole[j]) < 16);
        }
        let d = digit_value_of(v[i]);
        x = x * radix + d;
        i = i + 1;
    }
    proof {
        assert(whole.subrange(0, i - lo) =~= whole);
    }
    x
}

/// Whether the digit string `v[lo..hi]` denotes a value a signed 64-bit
/// integer can hold.
pub fn digits_within_i64(v: &Vec<char>, lo: usize, hi: usize, radix: u64) -> (b: bool)
    requires
        lo <= hi <= v@.len(),
        radix == 2 || radix == 8 || radix == 10 || radix == 16,
    ensures
        b == (digits_value(v@.subrange(lo as int, hi as int), radix as int) <= i64::MAX),
{
    let ghost whole = v@.subrange(lo as int, hi as int);
    let ghost r = radix as int;
    let mut x: u64 = 0;
    let mut i: usize = lo;
    while i < hi
        invariant
            lo <= i <= hi <= v@.len(),
            radix == 2 || radix == 8 || radix == 10 || radix == 16,
            whole == v@.subrange(lo as int, hi as int),
            r == radix as int,
            x as int == digits_value(whole.subrange(0, i - lo), r),
            x <= i64::MAX,
        decreases hi - i,
    {
        let ghost j = i - lo;
        proof {
            assert(whole[j] == v@[i as int]);
            lemma_digits_value_step(whole, j, r);
            lemma_digits_value_nonneg(whole.subrange(0, j), r);
        }
        let d = digit_value_of(v[i]);
        let nx: u128 = (x as u128) * (radix as u128) + (d as u128);
        proof {
            assert(nx as int == digits_value(whole.subrange(0, j + 1), r));
        }
        if nx > (i64::MAX as u128) {
            proof {
                // this prefix already exceeds the bound, and a prefix's
                // value never exceeds the whole string's
                lemma_digits_value_prefix_le(whole, j + 1, r);
            }
            return false;
        }
        x = nx as u64;
        i = i + 1;
    }
    proof {
        assert(whole.subrange(0, i - lo) =~= whole);
    }
    true
}

// ---------------------------------------------------------------------------
// Rendering integers as decimal text
// ---------------------------------------------------------------------------

/// The character for one decimal digit.
pub open spec fn digit_char(d: int) -> char {
    if d == 0 {
        '0'
    } else if d == 1 {
        '1'
    } else if d == 2 {
        '2'
    } else if d == 3 {
        '3'
    } else if d == 4 {
        '4'
    } else if d == 5 {
        '5'
    } else if d == 6 {
        '6'
    } else if d == 7 {
        '7'
    } else if d == 8 {
        '8'
    } else {
        '9'
    }
}

/// Decimal digit string of a nonnegative integer, no leading zeros except
/// for 0 itself.
pub open spec fn dec_digits(n: int) -> Seq<char>
    decreases n,
{
    if n < 10 {
        seq![digit_char(n)]
    } else {
        dec_digits(n / 10).push(digit_char(n % 10))
    }
}

/// Decimal rendering of an integer, with a leading minus sign if negative.
pub open spec fn dec_render(n: int) -> Seq<char> {
    if n < 0 {
        seq!['-'] + dec_digits(-n)
    } else {
        dec_digits(n)
    }
}

fn digit_char_of(d: u64) -> (c: char)
    ensures
        c == digit_char(d as int),
{
    if d == 0 {
        '0'
    } else if d == 1 {
        '1'
    } else if d == 2 {
        '2'
    } else if d == 3 {
        '3'
    } else if d == 4 {
        '4'
    } else if d == 5 {
        '5'
    } else if d == 6 {
        '6'
    } else if d == 7 {
        '7'
    } else if d == 8 {
        '8'
    } else {
        '9'
    }
}

fn push_dec_digits(m: u64, out: &mut String)
    ensures
        final(out)@ == old(out)@ + dec_digits(m as int),
    decreases m,
{
    if m >= 10 {
        push_dec_digits(m / 10, out);
    }
    let c = digit_char_of(m % 10);
    out.push(c);
    proof {
        if m < 10 {
            assert(final(out)@ =~= old(out)@ + dec_digits(m as int));
        } else {
            assert(final(out)@ =~= old(out)@ + dec_digits(m as int));
        }
    }
}

/// Decimal text of a 64-bit integer, as its sign and digits.
pub fn to_dec_string(n: i64) -> (out: String)
    ensures
        out@ == dec_render(n as int),
{
    let mut out = String::new();
    if n < 0 {
        out.push('-');
        let mag: u64 = ((-(n + 1)) as u64) + 1;
        proof {
            assert(mag as int == -(n as int));
        }
        push_dec_digits(mag, &mut out);
        assert(out@ =~= dec_render(n as int));
    } else {
        push_dec_digits(n as u64, &mut out);
        assert(out@ =~= dec_render(n as int));
    }
    out
}

/// Rendering a nonnegative integer in decimal and reading the digits back
/// yields the same mathematical value.
pub proof fn lemma_decimal_round_trip(n: int)
    requires
        n >= 0,
    ensures
        all_radix_digits(dec_digits(n), 10),
        digits_value(dec_digits(n), 10) == n,
    decreases n,
{
    if n < 10 {
        let w = dec_digits(n);
        assert(w.drop_last() =~= Seq::<char>::empty());
        assert(digit_value(digit_char(n)) == n);
        assert(w.last() == digit_char(n));
        assert(digits_value(w, 10) == digits_value(w.drop_last(), 10) * 10 + digit_value(w.last()));
        assert(digits_value(w.drop_last(), 10) == 0);
    } else {
        lemma_decimal_round_trip(n / 10);
        let w = dec_digits(n);
        assert(w.len() > 0);
        assert(w.drop_last() =~= dec_digits(n / 10));
        assert(w.last() == digit_char(n % 10));
        assert(digit_value(digit_char(n % 10)) == n % 10);
        assert(digits_value(w, 10) == digits_value(w.drop_last(), 10) * 10 + digit_value(w.last()));
        assert(digits_value(w.drop_last(), 10) == n / 10);
        assert((n / 10) * 10 + n % 10 == n);
        assert forall|k: int| 0 <= k < w.len() implies is_radix_digit_char(#[trigger] w[k], 10) by {
            if k < w.len() - 1 {
                assert(w[k] == dec_digits(n / 10)[k]);
            }
        }
    }
}

// ---------------------------------------------------------------------------
// String-literal escapes
// ---------------------------------------------------------------------------

/// The character a backslash escape code denotes inside a string literal.
/// Codes n, t, r and 0 name control characters; every other character
/// (the quotes and the backslash among them) passes through unchanged.
pub open spec fn escape_code_value(c: char) -> char {
    if c == 'n' {
        '\n'
    } else if c == 't' {
        '\t'
    } else if c == 'r' {
        '\r'
    } else if c == '0' {
        '\0'
    } else {
        c
    }
}

/// Decoded content of a string literal's inner text: a backslash and the
/// character after it become that escape's value; a trailing lone backslash
/// ends the content.
pub open spec fn unescape_content(s: Seq<char>) -> Seq<char>
    decreases s.len(),
{
    if s.len() == 0 {
        Seq::empty()
    } else if s[0] == '\\' {
        if s.len() == 1 {
            Seq::empty()
        } else {
            seq![escape_code_value(s[1])] + unescape_content(s.skip(2))
        }
    } else {
        seq![s[0]] + unescape_content(s.skip(1))
    }
}

/// The inverse escape map for one character: the seven characters that have
/// an escape are written as backslash plus code, every other one as itself.
pub open spec fn escape_char_text(c: char) -> Seq<char> {
    if c == '\n' {
        seq!['\\', 'n']
    } else if c == '\t' {
        seq!['\\', 't']
    } else if c == '\r' {
        seq!['\\', 'r']
    } else if c == '\0' {
        seq!['\\', '0']
    } else if c == '\'' {
        seq!['\\', '\'']
    } else if c == '"' {
        seq!['\\', '"']
    } else if c == '\\' {
        seq!['\\', '\\']
    } else {
        seq![c]
    }
}

/// Content re-encoded with the inverse escape map.
pub open spec fn escape_content(s: Seq<char>) -> Seq<char>
    decreases s.len(),
{
    if s.len() == 0 {
        Seq::empty()
    } else {
        escape_char_text(s[0]) + escape_content(s.skip(1))
    }
}

/// Decoding escaped content undoes the inverse escape map: for every
/// content sequence, encoding it and decoding the result gives it back.
pub proof fn lemma_escape_round_trip(s: Seq<char>)
    ensures
        unescape_content(escape_content(s)) == s,
    decreases s.len(),
{
    if s.len() == 0 {
        assert(unescape_content(escape_content(s)) =~= s);
    } else {
        lemma_escape_round_trip(s.skip(1));
        let c = s[0];
        let e = escape_content(s);
        let h = escape_char_text(c);
        if h.len() == 2 {
            assert(e[0] == '\\');
            assert(e.len() >= 2);
            assert(e[1] == h[1]);
            assert(escape_code_value(h[1]) == c);
            assert(e.skip(2) =~= escape_content(s.skip(1)));
            assert(unescape_content(e) =~= seq![c] + s.skip(1));
        } else {
            assert(c != '\\');
            assert(e[0] == c);
            assert(e.skip(1) =~= escape_content(s.skip(1)));
            assert(unescape_content(e) =~= seq![c] + s.skip(1));
        }
        assert(seq![c] + s.skip(1) =~= s);
    }
}

fn escape_code_value_of(c: char) -> (r: char)
    ensures
        r == escape_code_value(c),
{
    if c == 'n' {
        '\n'
    } else if c == 't' {
        '\t'
    } else if c == 'r' {
        '\r'
    } else if c == '0' {
        '\0'
    } else {
        c
    }
}

/// Decodes the escapes of a string literal's lexeme: strips the quotes and
/// replaces each backslash escape by its value, unknown escape codes passing
/// through literally.
pub fn parse_string(s: &str) -> (out: String)
    requires
        s@.len() >= 2,
        s@[0] == '"',
        s@[s@.len() - 1] == '"',
    ensures
        out@ == unescape_content(s@.subrange(1, s@.len() - 1)),
{
    let v = str_chars(s);
    let n = v.len();
    let ghost inner = s@.subrange(1, s@.len() - 1);
    let mut out = String::new();
    let mut i: usize = 1;
    while i < n - 1
        invariant
            v@ == s@,
            n == v@.len(),
            n >= 2,
            1 <= i <= n - 1,
            inner == s@.subrange(1, s@.len() - 1),
            unescape_content(inner) == out@ + unescape_content(s@.subrange(i as int, n - 1)),
        decreases n - i,
    {
        let ghost rest = s@.subrange(i as int, n - 1);
        let c = v[i];
        if c == '\\' {
            if i + 1 < n - 1 {
                let e = escape_code_value_of(v[i + 1]);
                out.push(e);
                proof {
                    assert(rest.skip(2) =~= s@.subrange(i + 2, n - 1));
                    assert(unescape_content(rest) =~= seq![escape_code_value(s@[i + 1])]
                        + unescape_content(rest.skip(2)));
                    assert(unescape_content(inner) =~= out@ + unescape_content(
                        s@.subrange(i + 2, n - 1),
                    ));
                }
                i = i + 2;
            } else {
                // trailing lone backslash: the decoded content ends here
                proof {
                    assert(rest.len() == 1);
                    assert(unescape_content(rest) =~= Seq::<char>::empty());
                    assert(unescape_content(inner) =~= out@ + unescape_content(
                        s@.subrange(n - 1, n - 1),
                    ));
                }
                i = n - 1;
            }
        } else {
            out.push(c);
            proof {
                assert(rest.skip(1) =~= s@.subrange(i + 1, n - 1));
                assert(unescape_content(rest) =~= seq![s@[i as int]] + unescape_content(
                    rest.skip(1),
                ));
                assert(unescape_content(inner) =~= out@ + unescape_content(
                    s@.subrange(i + 1, n - 1),
                ));
            }
            i = i + 1;
        }
    }
    proof {
        assert(s@.subrange(i as int, n - 1).len() == 0);
        assert(unescape_content(s@.subrange(i as int, n - 1)) =~= Seq::<char>::empty());
        assert(out@ =~= unescape_content(inner));
    }
    out
}

// ---------------------------------------------------------------------------
// Character literals
// ---------------------------------------------------------------------------

/// The escape codes a character literal accepts.
pub open spec fn char_escape_ok(c: char) -> bool {
    c == 'n' || c == 't' || c == 'r' || c == '\'' || c == '\\'
}

/// The character a character-literal escape denotes.
pub open spec fn char_escape_value(c: char) -> char {
    if c == 'n' {
        '\n'
    } else if c == 't' {
        '\t'
    } else if c == 'r' {
        '\r'
    } else {
        c
    }
}

/// A well-formed character-literal lexeme: quotes around either one plain
/// character or one accepted backslash escape.
pub open spec fn valid_char_lexeme(s: Seq<char>) -> bool {
    &&& s.len() >= 3
    &&& s[0] == '\''
    &&& s[s.len() - 1] == '\''
    &&& if s[1] == '\\' {
        s.len() == 4 && char_escape_ok(s[2])
    } else {
        s.len() == 3
    }
}

/// The character a well-formed character-literal lexeme denotes.
pub open spec fn char_lexeme_value(s: Seq<char>) -> char {
    if s.len() >= 3 && s[1] == '\\' {
        char_escape_value(s[2])
    } else if s.len() >= 2 {
        s[1]
    } else {
        ' '
    }
}

/// Decodes a character literal's lexeme into the character it denotes.
pub fn parse_char(s: &str) -> (c: char)
    requires
        valid_char_lexeme(s@),
    ensures
        c == char_lexeme_value(s@),
{
    let c1 = s.get_char(1);
    if c1 == '\\' {
        let c2 = s.get_char(2);
        if c2 == 'n' {
            '\n'
        } else if c2 == 't' {
            '\t'
        } else if c2 == 'r' {
            '\r'
        } else {
            c2
        }
    } else {
        c1
    }
}

// ---------------------------------------------------------------------------
// Free-form literal content
// ---------------------------------------------------------------------------

/// `s` starts with `0` followed by one of the two radix marker letters.
pub open spec fn has_radix_prefix(s: Seq<char>, a: char, b: char) -> bool {
    s.len() >= 2 && s[0] == '0' && (s[1] == a || s[1] == b)
}

/// Every character of `s` is a decimal digit or a minus sign.
pub open spec fn all_dash_digits(s: Seq<char>) -> bool {
    forall|k: int| 0 <= k < s.len() ==> is_dec_digit_char(#[trigger] s[k]) || s[k] == '-'
}

/// Value of the inner text of a single-quoted literal: the code point of a
/// single character, the code point denoted by a recognized two-character
/// escape (a backslash with an unknown code counting as the backslash
/// itself), and -1 for anything else.
pub open spec fn char_content_value(inner: Seq<char>) -> int {
    if inner.len() == 1 {
        inner[0] as u32 as int
    } else if inner.len() >= 1 && inner[0] == '\\' {
        if inner.len() == 2 {
            let e = inner[1];
            if e == 'n' {
                10
            } else if e == 't' {
                9
            } else if e == 'r' {
                13
            } else if e == '0' {
                0
            } else if e == '\'' {
                39
            } else if e == '"' {
                34
            } else {
                92
            }
        } else {
            92
        }
    } else {
        -1
    }
}

/// The number a free-form literal text denotes: a prefixed radix literal,
/// a quoted character, or a decimal with an optional minus sign; -1 for any
/// unrecognized shape.
pub open spec fn content_value(s: Seq<char>) -> int {
    if has_radix_prefix(s, 'x', 'X') {
        digits_value(s.skip(2), 16)
    } else if has_radix_prefix(s, 'b', 'B') {
        digits_value(s.skip(2), 2)
    } else if has_radix_prefix(s, 'o', 'O') {
        digits_value(s.skip(2), 8)
    } else if s.len() >= 2 && s[0] == '\'' && s[s.len() - 1] == '\'' {
        char_content_value(s.subrange(1, s.len() - 1))
    } else if all_dash_digits(s) {
        if s.len() >= 1 && s[0] == '-' {
            -digits_value(s.skip(1), 10)
        } else {
            digits_value(s, 10)
        }
    } else {
        -1
    }
}

/// The texts whose value parse_content can return: radix literals need at
/// least one digit of their radix and a value a 64-bit integer can hold, a
/// decimal needs digits after its optional sign, and a lone single quote is
/// malformed.
pub open spec fn content_ok(s: Seq<char>) -> bool {
    if has_radix_prefix(s, 'x', 'X') {
        s.len() > 2 && all_radix_digits(s.skip(2), 16) && digits_value(s.skip(2), 16) <= i64::MAX
    } else if has_radix_prefix(s, 'b', 'B') {
        s.len() > 2 && all_radix_digits(s.skip(2), 2) && digits_value(s.skip(2), 2) <= i64::MAX
    } else if has_radix_prefix(s, 'o', 'O') {
        s.len() > 2 && all_radix_digits(s.skip(2), 8) && digits_value(s.skip(2), 8) <= i64::MAX
    } else if s.len() == 1 && s[0] == '\'' {
        false
    } else if s.len() >= 2 && s[0] == '\'' && s[s.len() - 1] == '\'' {
        true
    } else if all_dash_digits(s) {
        if s.len() >= 1 && s[0] == '-' {
            s.len() >= 2 && all_radix_digits(s.skip(1), 10) && digits_value(s.skip(1), 10)
                <= 0x8000_0000_0000_0000
        } else {
            s.len() >= 1 && all_radix_digits(s, 10) && digits_value(s, 10) <= i64::MAX
        }
    } else {
        true
    }
}

fn all_dash_digit_chars(v: &Vec<char>) -> (r: bool)
    ensures
        r == all_dash_digits(v@),
{
    let mut k: usize = 0;
    while k < v.len()
        invariant
            k <= v@.len(),
            forall|j: int|
                0 <= j < k ==> is_dec_digit_char(#[trigger] v@[j]) || v@[j] == '-',
        decreases v@.len() - k,
    {
        let c = v[k];
        let u = c as u32;
        if !((48 <= u && u <= 57) || c == '-') {
            assert(!(is_dec_digit_char(v@[k as int]) || v@[k as int] == '-'));
            return false;
        }
        k = k + 1;
    }
    true
}

/// Reads a free-form literal text: a radix-prefixed integer, a quoted
/// character (as its code point), or a signed decimal; -1 reports an
/// unrecognized shape.
pub fn parse_content(s: &str) -> (r: i64)
    requires
        content_ok(s@),
    ensures
        r as int == content_value(s@),
{
    let v = str_chars(s);
    let n = v.len();
    if n >= 2 && v[0] == '0' && (v[1] == 'x' || v[1] == 'X') {
        proof {
            assert(s@.skip(2) =~= v@.subrange(2, n as int));
        }
        let x = digits_to_u64(&v, 2, n, 16);
        x as i64
    } else if n >= 2 && v[0] == '0' && (v[1] == 'b' || v[1] == 'B') {
        proof {
            assert(s@.skip(2) =~= v@.subrange(2, n as int));
        }
        let x = digits_to_u64(&v, 2, n, 2);
        x as i64
    } else if n >= 2 && v[0] == '0' && (v[1] == 'o' || v[1] == 'O') {
        proof {
            assert(s@.skip(2) =~= v@.subrange(2, n as int));
        }
        let x = digits_to_u64(&v, 2, n, 8);
        x as i64
    } else if n >= 2 && v[0] == '\'' && v[n - 1] == '\'' {
        let ghost inner = s@.subrange(1, s@.len() - 1);
        if n == 3 {
            assert(inner.len() == 1 && inner[0] == s@[1]);
            (v[1] as u32) as i64
        } else if v[1] == '\\' {
            assert(inner.len() >= 2 && inner[0] == '\\');
            if n == 4 {
                assert(inner[1] == s@[2]);
                let e = v[2];
                if e == 'n' {
                    10
                } else if e == 't' {
                    9
                } else if e == 'r' {
                    13
                } else if e == '0' {
                    0
                } else if e == '\'' {
                    39
                } else if e == '"' {
                    34
                } else {
                    92
                }
            } else {
                92
            }
        } else {
            assert(inner.len() != 1 && !(inner.len() >= 1 && inner[0] == '\\'));
            -1
        }
    } else if all_dash_digit_chars(&v) {
        if v[0] == '-' {
            proof {
                assert(s@.skip(1) =~= v@.subrange(1, n as int));
            }
            let x = digits_to_u64(&v, 1, n, 10);
            if x == 9223372036854775808u64 {
                i64::MIN
            } else {
                -(x as i64)
            }
        } else {
            proof {
                assert(s@ =~= v@.subrange(0, n as int));
            }
            let x = digits_to_u64(&v, 0, n, 10);
            x as i64
        }
    } else {
        -1
    }
}

} // verus!
