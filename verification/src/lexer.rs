//! The lexer: scans raw text left to right and produces the token sequence.
//!
//! The scanning rule is specified by `scan_at` (one step: the token at a
//! position and its lexeme length) and `lex_at` (the whole remaining token
//! sequence); the executable lexer is proved to return exactly that
//! sequence. Longest match wins, two-character operators take priority over
//! their one-character prefix, reserved words over the identifier rule, and
//! a position where no rule matches is dropped silently, one character at a
//! time.

use vstd::prelude::*;

use crate::tokens::{
    all_radix_digits, digits_value, digits_to_u64, digits_within_i64, lemma_digits_value_nonneg,
    char_escape_ok, char_escape_value,
    chars_to_string, ident_char, ident_start_char, is_bin_digit_char, is_dec_digit_char,
    is_hex_digit_char, is_ident_char, is_ident_start_char, is_oct_digit_char, is_radix_digit_char,
    is_whitespace_char, radix_digit_char, str_chars, whitespace_char, ParseError, SpecTokenKind,
    TokenKind,
};

verus! {

/// A token: its syntactic category and the raw lexeme text it was matched
/// from.
#[derive(Debug, Clone, PartialEq, Eq)]
pub struct Token {
    pub kind: TokenKind,
    pub text: String,
}

/// Mathematical model of a token.
pub struct SpecToken {
    pub kind: SpecTokenKind,
    pub text: Seq<char>,
}

impl View for Token {
    type V = SpecToken;

    open spec fn view(&self) -> SpecToken {
        SpecToken { kind: self.kind@, text: self.text@ }
    }
}

/// The token sequence a vector of tokens models.
pub open spec fn toks_view(ts: Seq<Token>) -> Seq<SpecToken> {
    ts.map_values(|t: Token| t@)
}

// ---------------------------------------------------------------------------
// Character runs
// ---------------------------------------------------------------------------

/// The classes of characters the lexer consumes in maximal runs.
#[derive(Clone, Copy)]
pub enum CharClass {
    IdentChars,
    Digits2,
    Digits8,
    Digits10,
    Digits16,
}

pub open spec fn in_class(c: char, cls: CharClass) -> bool {
    match cls {
        CharClass::IdentChars => is_ident_char(c),
        CharClass::Digits2 => is_bin_digit_char(c),
        CharClass::Digits8 => is_oct_digit_char(c),
        CharClass::Digits10 => is_dec_digit_char(c),
        CharClass::Digits16 => is_hex_digit_char(c),
    }
}

/// First position at or after `i` whose character is not in the class: the
/// end of the maximal run starting at `i`.
pub open spec fn run_end(s: Seq<char>, i: int, cls: CharClass) -> int
    decreases s.len() - i,
{
    if 0 <= i < s.len() && in_class(s[i], cls) {
        run_end(s, i + 1, cls)
    } else {
        i
    }
}

pub proof fn lemma_run_chars(s: Seq<char>, i: int, cls: CharClass)
    requires
        0 <= i <= s.len(),
    ensures
        i <= run_end(s, i, cls) <= s.len(),
        forall|k: int| i <= k < run_end(s, i, cls) ==> in_class(#[trigger] s[k], cls),
    decreases s.len() - i,
{
    if i < s.len() && in_class(s[i], cls) {
        lemma_run_chars(s, i + 1, cls);
    }
}

fn class_char(c: char, cls: CharClass) -> (r: bool)
    ensures
        r == in_class(c, cls),
{
    match cls {
        CharClass::IdentChars => ident_char(c),
        CharClass::Digits2 => radix_digit_char(c, 2),
        CharClass::Digits8 => radix_digit_char(c, 8),
        CharClass::Digits10 => radix_digit_char(c, 10),
        CharClass::Digits16 => radix_digit_char(c, 16),
    }
}

fn scan_run(v: &Vec<char>, i: usize, cls: CharClass) -> (e: usize)
    requires
        i <= v@.len(),
    ensures
        e as int == run_end(v@, i as int, cls),
        i <= e <= v@.len(),
{
    let mut j = i;
    while j < v.len() && class_char(v[j], cls)
        invariant
            i <= j <= v@.len(),
            run_end(v@, i as int, cls) == run_end(v@, j as int, cls),
        decreases v@.len() - j,
    {
        j = j + 1;
    }
    j
}

// ---------------------------------------------------------------------------
// String-literal spans
// ---------------------------------------------------------------------------

/// Position just after the closing quote of a string literal whose content
/// starts at `i`; None when the input ends before an unescaped quote.
pub open spec fn string_end(s: Seq<char>, i: int) -> Option<int>
    decreases s.len() - i,
{
    if i < 0 || i >= s.len() {
        None
    } else if s[i] == '"' {
        Some(i + 1)
    } else if s[i] == '\\' {
        if i + 1 >= s.len() {
            None
        } else {
            string_end(s, i + 2)
        }
    } else {
        string_end(s, i + 1)
    }
}

fn scan_string_end(v: &Vec<char>, i: usize) -> (r: Option<usize>)
    requires
        i <= v@.len(),
    ensures
        match r {
            Some(e) => string_end(v@, i as int) == Some(e as int) && i < e <= v@.len(),
            None => string_end(v@, i as int) is None,
        },
{
    let mut j = i;
    loop
        invariant
            i <= j <= v@.len(),
            string_end(v@, i as int) == string_end(v@, j as int),
        decreases v@.len() - j,
    {
        if j >= v.len() {
            return None;
        }
        let c = v[j];
        if c == '"' {
            return Some(j + 1);
        }
        if c == '\\' {
            if j + 1 >= v.len() {
                return None;
            }
            j = j + 2;
        } else {
            j = j + 1;
        }
    }
}

// ---------------------------------------------------------------------------
// Reserved words
// ---------------------------------------------------------------------------

pub open spec fn kw_var() -> Seq<char> {
    seq!['v', 'a', 'r']
}

pub open spec fn kw_const() -> Seq<char> {
    seq!['c', 'o', 'n', 's', 't']
}

/// The reserved word that requests splicing another source unit.
pub open spec fn kw_file_import() -> Seq<char> {
    seq!['i', 'n', 'c', 'l', 'u', 'd', 'e']
}

/// The reserved word that opens a template definition; in source it is
/// written with a bang right after it.
pub open spec fn kw_template() -> Seq<char> {
    seq!['m', 'a', 'c', 'r', 'o', '_', 'r', 'u', 'l', 'e', 's']
}

/// The reserved word that opens a repetition header, written with a bang.
pub open spec fn kw_for() -> Seq<char> {
    seq!['f', 'o', 'r']
}

fn word_is_var(v: &Vec<char>, lo: usize, hi: usize) -> (r: bool)
    requires
        lo <= hi <= v@.len(),
    ensures
        r == (v@.subrange(lo as int, hi as int) == kw_var()),
{
    let ghost w = v@.subrange(lo as int, hi as int);
    if hi - lo == 3 {
        let r = v[lo] == 'v' && v[lo + 1] == 'a' && v[lo + 2] == 'r';
        proof {
            if r {
                assert(w =~= kw_var());
            } else {
                assert(w != kw_var()) by {
                    if w == kw_var() {
                        assert(w[0] == 'v' && w[1] == 'a' && w[2] == 'r');
                    }
                }
            }
        }
        r
    } else {
        proof {
            assert(w.len() == hi - lo);
            assert(kw_var().len() == 3);
        }
        false
    }
}

fn word_is_const(v: &Vec<char>, lo: usize, hi: usize) -> (r: bool)
    requires
        lo <= hi <= v@.len(),
    ensures
        r == (v@.subrange(lo as int, hi as int) == kw_const()),
{
    let ghost w = v@.subrange(lo as int, hi as int);
    if hi - lo == 5 {
        let r = v[lo] == 'c' && v[lo + 1] == 'o' && v[lo + 2] == 'n' && v[lo + 3] == 's' && v[lo
            + 4] == 't';
        proof {
            if r {
                assert(w =~= kw_const());
            } else {
                assert(w != kw_const()) by {
                    if w == kw_const() {
                        assert(w[0] == 'c' && w[1] == 'o' && w[2] == 'n' && w[3] == 's' && w[4]
                            == 't');
                    }
                }
            }
        }
        r
    } else {
        proof {
            assert(w.len() == hi - lo);
            assert(kw_const().len() == 5);
        }
        false
    }
}

fn word_is_file_import(v: &Vec<char>, lo: usize, hi: usize) -> (r: bool)
    requires
        lo <= hi <= v@.len(),
    ensures
        r == (v@.subrange(lo as int, hi as int) == kw_file_import()),
{
    let ghost w = v@.subrange(lo as int, hi as int);
    if hi - lo == 7 {
        let r = v[lo] == 'i' && v[lo + 1] == 'n' && v[lo + 2] == 'c' && v[lo + 3] == 'l' && v[lo
            + 4] == 'u' && v[lo + 5] == 'd' && v[lo + 6] == 'e';
        proof {
            if r {
                assert(w =~= kw_file_import());
            } else {
                assert(w != kw_file_import()) by {
                    if w == kw_file_import() {
                        assert(w[0] == 'i' && w[1] == 'n' && w[2] == 'c' && w[3] == 'l' && w[4]
                            == 'u' && w[5] == 'd' && w[6] == 'e');
                    }
                }
            }
        }
        r
    } else {
        proof {
            assert(w.len() == hi - lo);
            assert(kw_file_import().len() == 7);
        }
        false
    }
}

fn word_is_template(v: &Vec<char>, lo: usize, hi: usize) -> (r: bool)
    requires
        lo <= hi <= v@.len(),
    ensures
        r == (v@.subrange(lo as int, hi as int) == kw_template()),
{
    let ghost w = v@.subrange(lo as int, hi as int);
    if hi - lo == 11 {
        let r = v[lo] == 'm' && v[lo + 1] == 'a' && v[lo + 2] == 'c' && v[lo + 3] == 'r' && v[lo
            + 4] == 'o' && v[lo + 5] == '_' && v[lo + 6] == 'r' && v[lo + 7] == 'u' && v[lo + 8]
            == 'l' && v[lo + 9] == 'e' && v[lo + 10] == 's';
        proof {
            if r {
                assert(w =~= kw_template());
            } else {
                assert(w != kw_template()) by {
                    if w == kw_template() {
                        assert(w[0] == 'm' && w[1] == 'a' && w[2] == 'c' && w[3] == 'r' && w[4]
                            == 'o' && w[5] == '_' && w[6] == 'r' && w[7] == 'u' && w[8] == 'l'
                            && w[9] == 'e' && w[10] == 's');
                    }
                }
            }
        }
        r
    } else {
        proof {
            assert(w.len() == hi - lo);
            assert(kw_template().len() == 11);
        }
        false
    }
}

// ---------------------------------------------------------------------------
// One scanning step
// ---------------------------------------------------------------------------

/// Outcome of one scanning step at a position inside the input: a token of
/// the given lexeme length, a silently dropped character, or a malformed
/// character-literal escape, which is fatal.
pub enum SpecScan {
    Emit(SpecTokenKind, int),
    Skip,
    BadEscape,
}

/// The scanning rule at position `i` of `s` (with `0 <= i < s.len()`):
/// whitespace and unmatched characters are skipped one at a time; otherwise
/// the longest-matching rule decides the token, reserved words taking
/// priority over the identifier rule at equal length.
pub open spec fn scan_at(s: Seq<char>, i: int) -> SpecScan {
    let c = s[i];
    if is_whitespace_char(c) {
        SpecScan::Skip
    } else if c == '~' {
        SpecScan::Emit(SpecTokenKind::Tilde, 1)
    } else if c == '`' {
        SpecScan::Emit(SpecTokenKind::Grave, 1)
    } else if c == '#' {
        SpecScan::Emit(SpecTokenKind::Pound, 1)
    } else if c == '+' {
        if i + 1 < s.len() && s[i + 1] == '+' {
            SpecScan::Emit(SpecTokenKind::PlusPlus, 2)
        } else {
            SpecScan::Emit(SpecTokenKind::Plus, 1)
        }
    } else if c == '-' {
        if i + 1 < s.len() && s[i + 1] == '-' {
            SpecScan::Emit(SpecTokenKind::MinusMinus, 2)
        } else {
            SpecScan::Emit(SpecTokenKind::Minus, 1)
        }
    } else if c == '*' {
        SpecScan::Emit(SpecTokenKind::Star, 1)
    } else if c == '/' {
        SpecScan::Emit(SpecTokenKind::Slash, 1)
    } else if c == '%' {
        SpecScan::Emit(SpecTokenKind::Mod, 1)
    } else if c == '!' {
        SpecScan::Emit(SpecTokenKind::Bang, 1)
    } else if c == '^' {
        SpecScan::Emit(SpecTokenKind::Xor, 1)
    } else if c == '>' {
        if i + 1 < s.len() && s[i + 1] == '>' {
            SpecScan::Emit(SpecTokenKind::GreaterGreater, 2)
        } else {
            SpecScan::Emit(SpecTokenKind::Greater, 1)
        }
    } else if c == '<' {
        if i + 1 < s.len() && s[i + 1] == '<' {
            SpecScan::Emit(SpecTokenKind::LessLess, 2)
        } else {
            SpecScan::Emit(SpecTokenKind::Less, 1)
        }
    } else if c == '&' {
        if i + 1 < s.len() && s[i + 1] == '&' {
            SpecScan::Emit(SpecTokenKind::AmpAmp, 2)
        } else {
            SpecScan::Emit(SpecTokenKind::Amp, 1)
        }
    } else if c == '|' {
        if i + 1 < s.len() && s[i + 1] == '|' {
            SpecScan::Emit(SpecTokenKind::PipePipe, 2)
        } else {
            SpecScan::Emit(SpecTokenKind::Pipe, 1)
        }
    } else if c == ':' {
        if i + 1 < s.len() && s[i + 1] == ':' {
            SpecScan::Emit(SpecTokenKind::DoubleColon, 2)
        } else {
            SpecScan::Emit(SpecTokenKind::Colon, 1)
        }
    } else if c == '=' {
        SpecScan::Emit(SpecTokenKind::Equal, 1)
    } else if c == '(' {
        SpecScan::Emit(SpecTokenKind::LeftParen, 1)
    } else if c == ')' {
        SpecScan::Emit(SpecTokenKind::RightParen, 1)
    } else if c == '{' {
        SpecScan::Emit(SpecTokenKind::LeftBrace, 1)
    } else if c == '}' {
        SpecScan::Emit(SpecTokenKind::RightBrace, 1)
    } else if c == ',' {
        SpecScan::Emit(SpecTokenKind::Comma, 1)
    } else if c == ';' {
        SpecScan::Emit(SpecTokenKind::Semicolon, 1)
    } else if c == '.' {
        SpecScan::Emit(SpecTokenKind::Dot, 1)
    } else if c == '@' {
        if i + 1 < s.len() && is_ident_start_char(s[i + 1]) {
            SpecScan::Emit(SpecTokenKind::AtDirective, run_end(s, i + 2, CharClass::IdentChars) - i)
        } else {
            SpecScan::Skip
        }
    } else if c == '"' {
        match string_end(s, i + 1) {
            Some(e) => SpecScan::Emit(SpecTokenKind::StrLit(s.subrange(i, e)), e - i),
            None => SpecScan::Skip,
        }
    } else if c == '\'' {
        if i + 1 < s.len() && s[i + 1] == '\\' {
            if i + 3 < s.len() && s[i + 3] == '\'' {
                if char_escape_ok(s[i + 2]) {
                    SpecScan::Emit(SpecTokenKind::CharLit(char_escape_value(s[i + 2])), 4)
                } else {
                    SpecScan::BadEscape
                }
            } else {
                SpecScan::Skip
            }
        } else if i + 2 < s.len() && s[i + 1] != '\'' && s[i + 2] == '\'' {
            SpecScan::Emit(SpecTokenKind::CharLit(s[i + 1]), 3)
        } else {
            SpecScan::Skip
        }
    } else if is_dec_digit_char(c) {
        if c == '0' && i + 2 < s.len() && (s[i + 1] == 'x' || s[i + 1] == 'X') && is_hex_digit_char(
            s[i + 2],
        ) {
            let e = run_end(s, i + 2, CharClass::Digits16);
            SpecScan::Emit(SpecTokenKind::HexLit(digits_value(s.subrange(i + 2, e), 16)), e - i)
        } else if c == '0' && i + 2 < s.len() && (s[i + 1] == 'b' || s[i + 1] == 'B')
            && is_bin_digit_char(s[i + 2]) {
            let e = run_end(s, i + 2, CharClass::Digits2);
            SpecScan::Emit(SpecTokenKind::BinLit(digits_value(s.subrange(i + 2, e), 2)), e - i)
        } else if c == '0' && i + 2 < s.len() && (s[i + 1] == 'o' || s[i + 1] == 'O')
            && is_oct_digit_char(s[i + 2]) {
            let e = run_end(s, i + 2, CharClass::Digits8);
            SpecScan::Emit(SpecTokenKind::OctLit(digits_value(s.subrange(i + 2, e), 8)), e - i)
        } else {
            let e = run_end(s, i, CharClass::Digits10);
            SpecScan::Emit(SpecTokenKind::IntLit(digits_value(s.subrange(i, e), 10)), e - i)
        }
    } else if is_ident_start_char(c) {
        let e = run_end(s, i, CharClass::IdentChars);
        let w = s.subrange(i, e);
        if w == kw_var() {
            SpecScan::Emit(SpecTokenKind::Var, e - i)
        } else if w == kw_const() {
            SpecScan::Emit(SpecTokenKind::Const, e - i)
        } else if w == kw_file_import() {
            SpecScan::Emit(SpecTokenKind::Include, e - i)
        } else if w == kw_template() && e < s.len() && s[e] == '!' {
            SpecScan::Emit(SpecTokenKind::MacroRules, e + 1 - i)
        } else if w == kw_for() && e < s.len() && s[e] == '!' {
            SpecScan::Emit(SpecTokenKind::ForBang, e + 1 - i)
        } else {
            SpecScan::Emit(SpecTokenKind::Ident(w), e - i)
        }
    } else {
        SpecScan::Skip
    }
}

fn word_is_for(v: &Vec<char>, lo: usize, hi: usize) -> (r: bool)
    requires
        lo <= hi <= v@.len(),
    ensures
        r == (v@.subrange(lo as int, hi as int) == kw_for()),
{
    let ghost w = v@.subrange(lo as int, hi as int);
    if hi - lo == 3 {
        let r = v[lo] == 'f' && v[lo + 1] == 'o' && v[lo + 2] == 'r';
        proof {
            if r {
                assert(w =~= kw_for());
            } else {
                assert(w != kw_for()) by {
                    if w == kw_for() {
                        assert(w[0] == 'f' && w[1] == 'o' && w[2] == 'r');
                    }
                }
            }
        }
        r
    } else {
        proof {
            assert(w.len() == hi - lo);
            assert(kw_for().len() == 3);
        }
        false
    }
}

/// Outcome of one executable scanning step; Oversized reports a numeric
/// literal too large for a signed 64-bit integer.
enum Scanned {
    Tok(Token, usize),
    Skip,
    Bad,
    Oversized,
}

/// Numeric token values must fit a signed 64-bit integer.
pub open spec fn kind_fits(k: SpecTokenKind) -> bool {
    match k {
        SpecTokenKind::HexLit(x) => x <= i64::MAX,
        SpecTokenKind::BinLit(x) => x <= i64::MAX,
        SpecTokenKind::OctLit(x) => x <= i64::MAX,
        SpecTokenKind::IntLit(x) => x <= i64::MAX,
        _ => true,
    }
}

fn fixed_tok(v: &Vec<char>, i: usize, len: usize, kind: TokenKind) -> (t: Token)
    requires
        i + len <= v@.len(),
    ensures
        t@.kind == kind@,
        t@.text == v@.subrange(i as int, i + len),
{
    proof {
        assert(v.len() == v@.len());
    }
    let text = chars_to_string(v, i, i + len);
    Token { kind, text }
}

fn scan_token(v: &Vec<char>, i: usize) -> (r: Scanned)
    requires
        i < v@.len(),
    ensures
        (match r {
            Scanned::Tok(t, j) => i < j <= v@.len() && scan_at(v@, i as int) == SpecScan::Emit(
                t@.kind,
                j - i,
            ) && t@.text == v@.subrange(i as int, j as int) && kind_fits(t@.kind),
            Scanned::Skip => scan_at(v@, i as int) is Skip,
            Scanned::Bad => scan_at(v@, i as int) is BadEscape,
            Scanned::Oversized => (match scan_at(v@, i as int) {
                SpecScan::Emit(k, n) => !kind_fits(k),
                _ => false,
            }),
        }),
{
    let n = v.len();
    let c = v[i];
    if whitespace_char(c) {
        Scanned::Skip
    } else if c == '~' {
        Scanned::Tok(fixed_tok(v, i, 1, TokenKind::Tilde), i + 1)
    } else if c == '`' {
        Scanned::Tok(fixed_tok(v, i, 1, TokenKind::Grave), i + 1)
    } else if c == '#' {
        Scanned::Tok(fixed_tok(v, i, 1, TokenKind::Pound), i + 1)
    } else if c == '+' {
        if i + 1 < n && v[i + 1] == '+' {
            Scanned::Tok(fixed_tok(v, i, 2, TokenKind::PlusPlus), i + 2)
        } else {
            Scanned::Tok(fixed_tok(v, i, 1, TokenKind::Plus), i + 1)
        }
    } else if c == '-' {
        if i + 1 < n && v[i + 1] == '-' {
            Scanned::Tok(fixed_tok(v, i, 2, TokenKind::MinusMinus), i + 2)
        } else {
            Scanned::Tok(fixed_tok(v, i, 1, TokenKind::Minus), i + 1)
        }
    } else if c == '*' {
        Scanned::Tok(fixed_tok(v, i, 1, TokenKind::Star), i + 1)
    } else if c == '/' {
        Scanned::Tok(fixed_tok(v, i, 1, TokenKind::Slash), i + 1)
    } else if c == '%' {
        Scanned::Tok(fixed_tok(v, i, 1, TokenKind::Mod), i + 1)
    } else if c == '!' {
        Scanned::Tok(fixed_tok(v, i, 1, TokenKind::Bang), i + 1)
    } else if c == '^' {
        Scanned::Tok(fixed_tok(v, i, 1, TokenKind::Xor), i + 1)
    } else if c == '>' {
        if i + 1 < n && v[i + 1] == '>' {
            Scanned::Tok(fixed_tok(v, i, 2, TokenKind::GreaterGreater), i + 2)
        } else {
            Scanned::Tok(fixed_tok(v, i, 1, TokenKind::Greater), i + 1)
        }
    } else if c == '<' {
        if i + 1 < n && v[i + 1] == '<' {
            Scanned::Tok(fixed_tok(v, i, 2, TokenKind::LessLess), i + 2)
        } else {
            Scanned::Tok(fixed_tok(v, i, 1, TokenKind::Less), i + 1)
        }
    } else if c == '&' {
        if i + 1 < n && v[i + 1] == '&' {
            Scanned::Tok(fixed_tok(v, i, 2, TokenKind::AmpAmp), i + 2)
        } else {
            Scanned::Tok(fixed_tok(v, i, 1, TokenKind::Amp), i + 1)
        }
    } else if c == '|' {
        if i + 1 < n && v[i + 1] == '|' {
            Scanned::Tok(fixed_tok(v, i, 2, TokenKind::PipePipe), i + 2)
        } else {
            Scanned::Tok(fixed_tok(v, i, 1, TokenKind::Pipe), i + 1)
        }
    } else if c == ':' {
        if i + 1 < n && v[i + 1] == ':' {
            Scanned::Tok(fixed_tok(v, i, 2, TokenKind::DoubleColon), i + 2)
        } else {
            Scanned::Tok(fixed_tok(v, i, 1, TokenKind::Colon), i + 1)
        }
    } else if c == '=' {
        Scanned::Tok(fixed_tok(v, i, 1, TokenKind::Equal), i + 1)
    } else if c == '(' {
        Scanned::Tok(fixed_tok(v, i, 1, TokenKind::LeftParen), i + 1)
    } else if c == ')' {
        Scanned::Tok(fixed_tok(v, i, 1, TokenKind::RightParen), i + 1)
    } else if c == '{' {
        Scanned::Tok(fixed_tok(v, i, 1, TokenKind::LeftBrace), i + 1)
    } else if c == '}' {
        Scanned::Tok(fixed_tok(v, i, 1, TokenKind::RightBrace), i + 1)
    } else if c == ',' {
        Scanned::Tok(fixed_tok(v, i, 1, TokenKind::Comma), i + 1)
    } else if c == ';' {
        Scanned::Tok(fixed_tok(v, i, 1, TokenKind::Semicolon), i + 1)
    } else if c == '.' {
        Scanned::Tok(fixed_tok(v, i, 1, TokenKind::Dot), i + 1)
    } else if c == '@' {
        if i + 1 < n && ident_start_char(v[i + 1]) {
            let e = scan_run(v, i + 2, CharClass::IdentChars);
            Scanned::Tok(fixed_tok(v, i, e - i, TokenKind::AtDirective), e)
        } else {
            Scanned::Skip
        }
    } else if c == '"' {
        match scan_string_end(v, i + 1) {
            Some(e) => {
                let raw = chars_to_string(v, i, e);
                let text = chars_to_string(v, i, e);
                Scanned::Tok(Token { kind: TokenKind::StrLit(raw), text }, e)
            },
            None => Scanned::Skip,
        }
    } else if c == '\'' {
        if i + 1 < n && v[i + 1] == '\\' {
            if n - i > 3 && v[i + 3] == '\'' {
                let c2 = v[i + 2];
                if c2 == 'n' || c2 == 't' || c2 == 'r' || c2 == '\'' || c2 == '\\' {
                    let val = if c2 == 'n' {
                        '\n'
                    } else if c2 == 't' {
                        '\t'
                    } else if c2 == 'r' {
                        '\r'
                    } else {
                        c2
                    };
                    let text = chars_to_string(v, i, i + 4);
                    Scanned::Tok(Token { kind: TokenKind::CharLit(val), text }, i + 4)
                } else {
                    Scanned::Bad
                }
            } else {
                Scanned::Skip
            }
        } else if n - i > 2 && v[i + 1] != '\'' && v[i + 2] == '\'' {
            let text = chars_to_string(v, i, i + 3);
            Scanned::Tok(Token { kind: TokenKind::CharLit(v[i + 1]), text }, i + 3)
        } else {
            Scanned::Skip
        }
    } else if radix_digit_char(c, 10) {
        if c == '0' && n - i > 2 && (v[i + 1] == 'x' || v[i + 1] == 'X') && radix_digit_char(
            v[i + 2],
            16,
        ) {
            let e = scan_num_run(v, i, CharClass::Digits16);
            if !digits_within_i64(v, i + 2, e, 16) {
                return Scanned::Oversized;
            }
            let x = num_run_value(v, i, e, 16);
            Scanned::Tok(fixed_tok(v, i, e - i, TokenKind::HexLit(x)), e)
        } else if c == '0' && n - i > 2 && (v[i + 1] == 'b' || v[i + 1] == 'B') && radix_digit_char(
            v[i + 2],
            2,
        ) {
            let e = scan_num_run(v, i, CharClass::Digits2);
            if !digits_within_i64(v, i + 2, e, 2) {
                return Scanned::Oversized;
            }
            let x = num_run_value(v, i, e, 2);
            Scanned::Tok(fixed_tok(v, i, e - i, TokenKind::BinLit(x)), e)
        } else if c == '0' && n - i > 2 && (v[i + 1] == 'o' || v[i + 1] == 'O') && radix_digit_char(
            v[i + 2],
            8,
        ) {
            let e = scan_num_run(v, i, CharClass::Digits8);
            if !digits_within_i64(v, i + 2, e, 8) {
                return Scanned::Oversized;
            }
            let x = num_run_value(v, i, e, 8);
            Scanned::Tok(fixed_tok(v, i, e - i, TokenKind::OctLit(x)), e)
        } else {
            proof {
                assert(in_class(v@[i as int], CharClass::Digits10));
                assert(run_end(v@, i as int, CharClass::Digits10) == run_end(
                    v@,
                    i + 1,
                    CharClass::Digits10,
                ));
                lemma_run_chars(v@, i + 1, CharClass::Digits10);
            }
            let e = scan_run(v, i, CharClass::Digits10);
            proof {
                lemma_digit_run(v@, i as int, e as int, CharClass::Digits10, 10);
            }
            if !digits_within_i64(v, i, e, 10) {
                return Scanned::Oversized;
            }
            let x = digits_to_u64(v, i, e, 10);
            Scanned::Tok(fixed_tok(v, i, e - i, TokenKind::IntLit(x as i64)), e)
        }
    } else if ident_start_char(c) {
        proof {
            assert(in_class(v@[i as int], CharClass::IdentChars));
            assert(run_end(v@, i as int, CharClass::IdentChars) == run_end(
                v@,
                i + 1,
                CharClass::IdentChars,
            ));
            lemma_run_chars(v@, i + 1, CharClass::IdentChars);
        }
        let e = scan_run(v, i, CharClass::IdentChars);
        if word_is_var(v, i, e) {
            Scanned::Tok(fixed_tok(v, i, e - i, TokenKind::Var), e)
        } else if word_is_const(v, i, e) {
            Scanned::Tok(fixed_tok(v, i, e - i, TokenKind::Const), e)
        } else if word_is_file_import(v, i, e) {
            Scanned::Tok(fixed_tok(v, i, e - i, TokenKind::Include), e)
        } else if word_is_template(v, i, e) && e < n && v[e] == '!' {
            Scanned::Tok(fixed_tok(v, i, e + 1 - i, TokenKind::MacroRules), e + 1)
        } else if word_is_for(v, i, e) && e < n && v[e] == '!' {
            Scanned::Tok(fixed_tok(v, i, e + 1 - i, TokenKind::ForBang), e + 1)
        } else {
            let name = chars_to_string(v, i, e);
            let text = chars_to_string(v, i, e);
            Scanned::Tok(Token { kind: TokenKind::Ident(name), text }, e)
        }
    } else {
        Scanned::Skip
    }
}

/// The maximal digit run of a radix-prefixed numeric lexeme starting at
/// `i` (`0` plus marker plus at least one digit of the class).
fn scan_num_run(v: &Vec<char>, i: usize, cls: CharClass) -> (e: usize)
    requires
        i + 2 < v@.len(),
        in_class(v@[i + 2], cls),
    ensures
        e as int == run_end(v@, i + 2, cls),
        i + 3 <= e <= v@.len(),
        forall|k: int| i + 2 <= k < e ==> in_class(#[trigger] v@[k], cls),
{
    proof {
        assert(v.len() == v@.len());
        assert(run_end(v@, i + 2, cls) == run_end(v@, i + 3, cls));
        lemma_run_chars(v@, i + 3, cls);
        lemma_run_chars(v@, i + 2, cls);
    }
    scan_run(v, i + 2, cls)
}

proof fn lemma_digit_run(s: Seq<char>, lo: int, hi: int, cls: CharClass, radix: int)
    requires
        0 <= lo <= hi <= s.len(),
        forall|k: int| lo <= k < hi ==> in_class(#[trigger] s[k], cls),
        (cls is Digits2 && radix == 2) || (cls is Digits8 && radix == 8) || (cls is Digits10
            && radix == 10) || (cls is Digits16 && radix == 16),
    ensures
        all_radix_digits(s.subrange(lo, hi), radix),
{
    assert forall|k: int| 0 <= k < hi - lo implies is_radix_digit_char(
        #[trigger] s.subrange(lo, hi)[k],
        radix,
    ) by {
        assert(s.subrange(lo, hi)[k] == s[lo + k]);
        assert(in_class(s[lo + k], cls));
    }
}

/// The value of the digit run `v[i+2..e]` of a radix-prefixed lexeme, once
/// the whole input is known to hold no oversized numeric literal.
fn num_run_value(v: &Vec<char>, i: usize, e: usize, radix: u64) -> (x: i64)
    requires
        i + 2 <= e <= v@.len(),
        radix == 2 || radix == 8 || radix == 16,
        forall|k: int| i + 2 <= k < e ==> in_class(#[trigger] v@[k], num_class(radix as int)),
        digits_value(v@.subrange(i + 2, e as int), radix as int) <= i64::MAX,
    ensures
        x as int == digits_value(v@.subrange(i + 2, e as int), radix as int),
        x >= 0,
{
    proof {
        lemma_digit_run(v@, i + 2, e as int, num_class(radix as int), radix as int);
        lemma_digits_value_nonneg(v@.subrange(i + 2, e as int), radix as int);
    }
    let x = digits_to_u64(v, i + 2, e, radix);
    x as i64
}

/// The run class of each radix.
pub open spec fn num_class(radix: int) -> CharClass {
    if radix == 2 {
        CharClass::Digits2
    } else if radix == 8 {
        CharClass::Digits8
    } else if radix == 10 {
        CharClass::Digits10
    } else {
        CharClass::Digits16
    }
}

// ---------------------------------------------------------------------------
// The whole token sequence
// ---------------------------------------------------------------------------

/// Result of lexing the input from a position to its end: the token
/// sequence, a fatal character-escape error, or a numeric literal too large
/// for a signed 64-bit integer.
pub enum SpecLex {
    Toks(Seq<SpecToken>),
    BadEscape,
    TooBig,
}

/// Clamps a lexeme length into the remaining input. Real lexeme lengths
/// always lie between 1 and the remaining length already; the clamp makes
/// the recursion measure of `lex_at` plain.
pub open spec fn step_of(n: int, rem: int) -> int {
    if n < 1 {
        1
    } else if n > rem {
        rem
    } else {
        n
    }
}

/// The token sequence of `s` from position `i` on: scan one step, skip or
/// take the token, and continue after it.
pub open spec fn lex_at(s: Seq<char>, i: int) -> SpecLex
    decreases s.len() - i,
{
    if i < 0 || i >= s.len() {
        SpecLex::Toks(seq![])
    } else {
        match scan_at(s, i) {
            SpecScan::Skip => lex_at(s, i + 1),
            SpecScan::Emit(k, n) => {
                let step = step_of(n, s.len() - i);
                if !kind_fits(k) {
                    SpecLex::TooBig
                } else {
                    match lex_at(s, i + step) {
                        SpecLex::Toks(rest) => SpecLex::Toks(
                            seq![SpecToken { kind: k, text: s.subrange(i, i + step) }] + rest,
                        ),
                        SpecLex::BadEscape => SpecLex::BadEscape,
                        SpecLex::TooBig => SpecLex::TooBig,
                    }
                }
            },
            SpecScan::BadEscape => SpecLex::BadEscape,
        }
    }
}

/// No numeric literal of the input overflows a signed 64-bit integer.
pub open spec fn lex_fits(s: Seq<char>) -> bool {
    !(lex_at(s, 0) is TooBig)
}

/// Tokens already produced, prepended to the outcome of the rest.
pub open spec fn lex_append(pre: Seq<SpecToken>, r: SpecLex) -> SpecLex {
    match r {
        SpecLex::Toks(ts) => SpecLex::Toks(pre + ts),
        SpecLex::BadEscape => SpecLex::BadEscape,
        SpecLex::TooBig => SpecLex::TooBig,
    }
}

/// Scans the whole input into its token sequence; a malformed
/// character-literal escape is the one fatal lexing error.
pub fn lex(input: &str) -> (r: Result<Vec<Token>, ParseError>)
    requires
        lex_fits(input@),
    ensures
        (match r {
            Ok(toks) => lex_at(input@, 0) == SpecLex::Toks(toks_view(toks@)),
            Err(e) => lex_at(input@, 0) is BadEscape && e == ParseError::InvalidEscape,
        }),
{
    let v = str_chars(input);
    let mut toks: Vec<Token> = Vec::new();
    let mut i: usize = 0;
    while i < v.len()
        invariant
            v@ == input@,
            i <= v@.len(),
            lex_fits(input@),
            lex_at(input@, 0) == lex_append(toks_view(toks@), lex_at(v@, i as int)),
        decreases v@.len() - i,
    {
        let sc = scan_token(&v, i);
        match sc {
            Scanned::Skip => {
                proof {
                    assert(lex_at(v@, i as int) == lex_at(v@, i + 1));
                }
                i = i + 1;
            },
            Scanned::Tok(t, j) => {
                proof {
                    let ghost tv = toks_view(toks@);
                    assert(scan_at(v@, i as int) == SpecScan::Emit(t@.kind, j - i));
                    assert(step_of(j - i, v@.len() - i) == j - i);
                    match lex_at(v@, j as int) {
                        SpecLex::Toks(rest) => {
                            assert(lex_at(v@, i as int) == SpecLex::Toks(
                                seq![SpecToken { kind: t@.kind, text: v@.subrange(i as int, j as int) }]
                                    + rest,
                            ));
                            assert(SpecToken { kind: t@.kind, text: v@.subrange(i as int, j as int) }
                                == t@);
                            assert(tv + (seq![t@] + rest) =~= (tv + seq![t@]) + rest);
                            assert(tv + seq![t@] =~= toks_view(toks@.push(t)));
                        },
                        _ => {
                            assert(lex_at(v@, i as int) == lex_at(v@, j as int));
                        },
                    }
                }
                toks.push(t);
                i = j;
            },
            Scanned::Bad => {
                proof {
                    assert(lex_at(v@, i as int) == SpecLex::BadEscape);
                }
                return Err(ParseError::InvalidEscape);
            },
            Scanned::Oversized => {
                // never reached: an oversized numeric literal makes the
                // whole input TooBig, against what lex requires
                proof {
                    assert(lex_at(v@, i as int) == SpecLex::TooBig);
                    assert(lex_at(input@, 0) == SpecLex::TooBig);
                    assert(false);
                }
                return Err(ParseError::InvalidEscape);
            },
        }
    }
    proof {
        assert(lex_at(v@, i as int) == SpecLex::Toks(seq![]));
        assert(toks_view(toks@) + seq![] =~= toks_view(toks@));
    }
    Ok(toks)
}

/// Decides, ahead of lexing, whether every numeric literal of the input
/// fits a signed 64-bit integer: exactly the condition that lex,
/// TokenStream::new and Parser::new require of their input.
pub fn input_fits(input: &str) -> (r: bool)
    ensures
        r == lex_fits(input@),
{
    let v = str_chars(input);
    let mut i: usize = 0;
    loop
        invariant
            v@ == input@,
            i <= v@.len(),
            (lex_at(input@, 0) is TooBig) == (lex_at(v@, i as int) is TooBig),
        decreases v@.len() - i,
    {
        if i >= v.len() {
            proof {
                assert(lex_at(v@, i as int) == SpecLex::Toks(seq![]));
            }
            return true;
        }
        match scan_token(&v, i) {
            Scanned::Skip => {
                proof {
                    assert(lex_at(v@, i as int) == lex_at(v@, i + 1));
                }
                i = i + 1;
            },
            Scanned::Tok(t, j) => {
                proof {
                    assert(step_of(j - i, v@.len() - i) == j - i);
                    assert((lex_at(v@, i as int) is TooBig) == (lex_at(v@, j as int) is TooBig));
                }
                i = j;
            },
            Scanned::Bad => {
                proof {
                    assert(lex_at(v@, i as int) == SpecLex::BadEscape);
                }
                return true;
            },
            Scanned::Oversized => {
                proof {
                    assert(lex_at(v@, i as int) == SpecLex::TooBig);
                }
                return false;
            },
        }
    }
}

/// Lexing is a pure function of the input text: any two runs over the same
/// immutable input yield identical token sequences.
pub proof fn lemma_lexing_deterministic(s: Seq<char>, t1: Seq<SpecToken>, t2: Seq<SpecToken>)
    requires
        lex_at(s, 0) == SpecLex::Toks(t1),
        lex_at(s, 0) == SpecLex::Toks(t2),
    ensures
        t1 == t2,
{
}

} // verus!
