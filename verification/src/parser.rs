//! The parser: wraps the materialized token sequence with a cursor and
//! builds the statement tree by recursive descent with bounded lookahead.
//!
//! Every parse function is specified against a functional description of the
//! grammar (`sp_stmt`, `sp_stmts`, `sp_block`, ...): given the token
//! sequence and a cursor position, the description names the one statement,
//! cursor advance, or fatal error the parser must produce. A position where
//! no statement form starts is skipped one token at a time; once a
//! construct's introducing token is consumed, every further token is
//! mandatory and a mismatch is a fatal error.

use vstd::prelude::*;

use crate::lexer::{lex, lex_at, lex_fits, toks_view, SpecLex, SpecToken, Token};
use crate::tokens::{dec_render, to_dec_string, ParseError, SpecTokenKind, TokenKind};

verus! {

// ---------------------------------------------------------------------------
// Statements
// ---------------------------------------------------------------------------

/// One statement of the tree. Bodies of template definitions, loops and
/// blocks are themselves well-formed statement sequences.
#[derive(Debug, PartialEq, Eq)]
pub enum Statement {
    VarAssign { name: String, expr: i64 },
    ConstAssign { name: String, expr: i64 },
    Label(String),
    Instruction { name: String, args: Vec<String> },
    Directive { name: String, args: Vec<String> },
    Include(String),
    MacroDef { name: String, params: Vec<String>, body: Vec<Statement> },
    ForLoop { var: String, start: i64, end: i64, body: Vec<Statement> },
    Block(Vec<Statement>),
}

/// Mathematical model of a statement.
pub enum SpecStatement {
    VarAssign { name: Seq<char>, expr: int },
    ConstAssign { name: Seq<char>, expr: int },
    Label(Seq<char>),
    Instruction { name: Seq<char>, args: Seq<Seq<char>> },
    Directive { name: Seq<char>, args: Seq<Seq<char>> },
    Include(Seq<char>),
    MacroDef { name: Seq<char>, params: Seq<Seq<char>>, body: Seq<SpecStatement> },
    ForLoop { var: Seq<char>, start: int, end: int, body: Seq<SpecStatement> },
    Block(Seq<SpecStatement>),
}

/// The texts of a vector of strings.
pub open spec fn strings_view(v: Seq<String>) -> Seq<Seq<char>> {
    v.map_values(|s: String| s@)
}

/// The model of one statement.
pub open spec fn stmt_view(st: Statement) -> SpecStatement
    decreases st, 0int,
{
    match st {
        Statement::VarAssign { name, expr } => SpecStatement::VarAssign {
            name: name@,
            expr: expr as int,
        },
        Statement::ConstAssign { name, expr } => SpecStatement::ConstAssign {
            name: name@,
            expr: expr as int,
        },
        Statement::Label(name) => SpecStatement::Label(name@),
        Statement::Instruction { name, args } => SpecStatement::Instruction {
            name: name@,
            args: strings_view(args@),
        },
        Statement::Directive { name, args } => SpecStatement::Directive {
            name: name@,
            args: strings_view(args@),
        },
        Statement::Include(path) => SpecStatement::Include(path@),
        Statement::MacroDef { name, params, body } => SpecStatement::MacroDef {
            name: name@,
            params: strings_view(params@),
            body: stmts_view(body@),
        },
        Statement::ForLoop { var, start, end, body } => SpecStatement::ForLoop {
            var: var@,
            start: start as int,
            end: end as int,
            body: stmts_view(body@),
        },
        Statement::Block(body) => SpecStatement::Block(stmts_view(body@)),
    }
}

/// The model of a statement sequence.
pub open spec fn stmts_view(v: Seq<Statement>) -> Seq<SpecStatement>
    decreases v, 1int,
{
    if v.len() == 0 {
        seq![]
    } else {
        seq![stmt_view(v[0])] + stmts_view(v.subrange(1, v.len() as int))
    }
}

pub proof fn lemma_stmts_view_push(v: Seq<Statement>, st: Statement)
    ensures
        stmts_view(v.push(st)) == stmts_view(v) + seq![stmt_view(st)],
    decreases v.len(),
{
    let w = v.push(st);
    reveal_with_fuel(stmts_view, 3);
    if v.len() == 0 {
        assert(w.subrange(1, w.len() as int) =~= Seq::<Statement>::empty());
        assert(w[0] == st);
        assert(stmts_view(w) =~= stmts_view(v) + seq![stmt_view(st)]);
    } else {
        lemma_stmts_view_push(v.subrange(1, v.len() as int), st);
        assert(w[0] == v[0]);
        assert(w.subrange(1, w.len() as int) =~= v.subrange(1, v.len() as int).push(st));
        assert(seq![stmt_view(v[0])] + (stmts_view(v.subrange(1, v.len() as int)) + seq![
            stmt_view(st),
        ]) =~= (seq![stmt_view(v[0])] + stmts_view(v.subrange(1, v.len() as int))) + seq![
            stmt_view(st),
        ]);
    }
}

pub proof fn lemma_strings_view_push(v: Seq<String>, x: String)
    ensures
        strings_view(v.push(x)) == strings_view(v) + seq![x@],
{
    assert(strings_view(v.push(x)) =~= strings_view(v) + seq![x@]);
}

// ---------------------------------------------------------------------------
// The token stream
// ---------------------------------------------------------------------------

/// The complete ordered token sequence of one input, with a cursor.
pub struct TokenStream {
    tokens: Vec<Token>,
    pos: usize,
}

/// Token kinds compare by tag and by associated data; the parser uses this
/// to match an already-known identifier.
fn kind_eq(a: &TokenKind, b: &TokenKind) -> (r: bool)
    ensures
        r == (a@ == b@),
{
    match (a, b) {
        (TokenKind::Tilde, TokenKind::Tilde) => true,
        (TokenKind::Grave, TokenKind::Grave) => true,
        (TokenKind::Pound, TokenKind::Pound) => true,
        (TokenKind::Plus, TokenKind::Plus) => true,
        (TokenKind::PlusPlus, TokenKind::PlusPlus) => true,
        (TokenKind::Minus, TokenKind::Minus) => true,
        (TokenKind::MinusMinus, TokenKind::MinusMinus) => true,
        (TokenKind::Star, TokenKind::Star) => true,
        (TokenKind::Slash, TokenKind::Slash) => true,
        (TokenKind::Mod, TokenKind::Mod) => true,
        (TokenKind::Bang, TokenKind::Bang) => true,
        (TokenKind::Greater, TokenKind::Greater) => true,
        (TokenKind::GreaterGreater, TokenKind::GreaterGreater) => true,
        (TokenKind::Less, TokenKind::Less) => true,
        (TokenKind::LessLess, TokenKind::LessLess) => true,
        (TokenKind::Amp, TokenKind::Amp) => true,
        (TokenKind::AmpAmp, TokenKind::AmpAmp) => true,
        (TokenKind::Pipe, TokenKind::Pipe) => true,
        (TokenKind::PipePipe, TokenKind::PipePipe) => true,
        (TokenKind::Xor, TokenKind::Xor) => true,
        (TokenKind::Var, TokenKind::Var) => true,
        (TokenKind::Const, TokenKind::Const) => true,
        (TokenKind::Include, TokenKind::Include) => true,
        (TokenKind::AtDirective, TokenKind::AtDirective) => true,
        (TokenKind::MacroRules, TokenKind::MacroRules) => true,
        (TokenKind::ForBang, TokenKind::ForBang) => true,
        (TokenKind::Ident(x), TokenKind::Ident(y)) => *x == *y,
        (TokenKind::HexLit(x), TokenKind::HexLit(y)) => *x == *y,
        (TokenKind::BinLit(x), TokenKind::BinLit(y)) => *x == *y,
        (TokenKind::OctLit(x), TokenKind::OctLit(y)) => *x == *y,
        (TokenKind::IntLit(x), TokenKind::IntLit(y)) => *x == *y,
        (TokenKind::StrLit(x), TokenKind::StrLit(y)) => *x == *y,
        (TokenKind::CharLit(x), TokenKind::CharLit(y)) => *x == *y,
        (TokenKind::Equal, TokenKind::Equal) => true,
        (TokenKind::LeftParen, TokenKind::LeftParen) => true,
        (TokenKind::RightParen, TokenKind::RightParen) => true,
        (TokenKind::LeftBrace, TokenKind::LeftBrace) => true,
        (TokenKind::RightBrace, TokenKind::RightBrace) => true,
        (TokenKind::Comma, TokenKind::Comma) => true,
        (TokenKind::Colon, TokenKind::Colon) => true,
        (TokenKind::Dot, TokenKind::Dot) => true,
        (TokenKind::Semicolon, TokenKind::Semicolon) => true,
        (TokenKind::DoubleColon, TokenKind::DoubleColon) => true,
        _ => false,
    }
}

impl TokenStream {
    /// The modeled token sequence.
    pub closed spec fn spec_toks(&self) -> Seq<SpecToken> {
        toks_view(self.tokens@)
    }

    /// The cursor position.
    pub closed spec fn spec_pos(&self) -> int {
        self.pos as int
    }

    /// Lexes the input and wraps the fully materialized token sequence with
    /// the cursor at the start; a malformed character-literal escape is the
    /// one fatal lexing error.
    pub fn new(input: &str) -> (r: Result<TokenStream, ParseError>)
        requires
            lex_fits(input@),
        ensures
            (match r {
                Ok(ts) => lex_at(input@, 0) == SpecLex::Toks(ts.spec_toks())
                    && ts.spec_pos() == 0,
                Err(e) => lex_at(input@, 0) is BadEscape && e == ParseError::InvalidEscape,
            }),
    {
        let tokens = match lex(input) {
            Ok(t) => t,
            Err(e) => {
                return Err(e);
            },
        };
        Ok(TokenStream { tokens, pos: 0 })
    }

    /// The token at the cursor, read without advancing.
    pub fn peek(&self) -> (r: Option<&Token>)
        ensures
            (match r {
                Some(t) => self.spec_pos() < self.spec_toks().len()
                    && t@ == self.spec_toks()[self.spec_pos()],
                None => self.spec_pos() >= self.spec_toks().len(),
            }),
    {
        if self.pos < self.tokens.len() {
            Some(&self.tokens[self.pos])
        } else {
            None
        }
    }

    /// The token `k` positions past the cursor, read without advancing.
    pub fn peek_ahead(&self, k: usize) -> (r: Option<&Token>)
        ensures
            (match r {
                Some(t) => self.spec_pos() + k < self.spec_toks().len()
                    && t@ == self.spec_toks()[self.spec_pos() + k],
                None => self.spec_pos() + k >= self.spec_toks().len(),
            }),
    {
        if self.pos < self.tokens.len() && k < self.tokens.len() - self.pos {
            Some(&self.tokens[self.pos + k])
        } else {
            None
        }
    }

    /// The token at the cursor; the cursor moves past it.
    pub fn next(&mut self) -> (r: Option<&Token>)
        ensures
            final(self).spec_toks() == old(self).spec_toks(),
            (match r {
                Some(t) => old(self).spec_pos() < old(self).spec_toks().len()
                    && t@ == old(self).spec_toks()[old(self).spec_pos()]
                    && final(self).spec_pos() == old(self).spec_pos() + 1,
                None => old(self).spec_pos() >= old(self).spec_toks().len()
                    && final(self).spec_pos() == old(self).spec_pos(),
            }),
    {
        if self.pos < self.tokens.len() {
            self.pos = self.pos + 1;
            Some(&self.tokens[self.pos - 1])
        } else {
            None
        }
    }

    /// Advances past the token at the cursor and checks its kind: at the end
    /// of the tokens the whole input is exhausted mid-construct; a kind
    /// other than the expected one is a structural mismatch.
    pub fn expect(&mut self, expected: TokenKind) -> (r: Result<(), ParseError>)
        ensures
            final(self).spec_toks() == old(self).spec_toks(),
            (if old(self).spec_pos() >= old(self).spec_toks().len() {
                r == Err::<(), ParseError>(ParseError::UnexpectedEndOfInput)
                    && final(self).spec_pos() == old(self).spec_pos()
            } else if old(self).spec_toks()[old(self).spec_pos()].kind == expected@ {
                r == Ok::<(), ParseError>(())
                    && final(self).spec_pos() == old(self).spec_pos() + 1
            } else {
                r == Err::<(), ParseError>(ParseError::UnexpectedToken)
                    && final(self).spec_pos() == old(self).spec_pos() + 1
            }),
    {
        match self.next() {
            None => Err(ParseError::UnexpectedEndOfInput),
            Some(t) => if kind_eq(&t.kind, &expected) {
                Ok(())
            } else {
                Err(ParseError::UnexpectedToken)
            },
        }
    }

    /// The cursor has reached the end of the tokens.
    pub fn eof(&self) -> (r: bool)
        ensures
            r == (self.spec_pos() >= self.spec_toks().len()),
    {
        self.pos >= self.tokens.len()
    }
}

// ---------------------------------------------------------------------------
// The grammar, as functions from token sequence and position
// ---------------------------------------------------------------------------

/// Outcome of one statement-parse attempt: a statement and the position
/// after it, no recognized construct at this position (one token is then
/// skipped, nothing was consumed), or a fatal error.
pub enum SpecStep {
    Found(SpecStatement, int),
    NoMatch,
    Fail(ParseError),
}

/// Outcome of parsing a statement run: the statements and the position the
/// run stopped at, or a fatal error.
pub enum SpecParse {
    Parsed(Seq<SpecStatement>, int),
    Failed(ParseError),
}

/// Outcome of a template parameter list.
pub enum SpecParams {
    ParamsOk(Seq<Seq<char>>, int),
    ParamsFail(ParseError),
}

/// The mandatory token at `i` of a committed construct: exhausted input and
/// a wrong kind are the two fatal outcomes.
pub open spec fn sp_kind_at(toks: Seq<SpecToken>, i: int, k: SpecTokenKind) -> Option<ParseError> {
    if i >= toks.len() {
        Some(ParseError::UnexpectedEndOfInput)
    } else if toks[i].kind != k {
        Some(ParseError::UnexpectedToken)
    } else {
        None
    }
}

/// An assignment: keyword at `i`, then name, equals sign and a decimal
/// integer literal; a missing name and a non-integer initializer have their
/// own errors.
pub open spec fn sp_assign(toks: Seq<SpecToken>, i: int, konst: bool) -> SpecStep {
    if i + 1 >= toks.len() {
        SpecStep::Fail(ParseError::UnexpectedEndOfInput)
    } else {
        match toks[i + 1].kind {
            SpecTokenKind::Ident(name) => {
                if i + 2 >= toks.len() {
                    SpecStep::Fail(ParseError::UnexpectedEndOfInput)
                } else if !(toks[i + 2].kind is Equal) {
                    SpecStep::Fail(ParseError::UnexpectedToken)
                } else if i + 3 >= toks.len() {
                    SpecStep::Fail(ParseError::UnexpectedEndOfInput)
                } else {
                    match toks[i + 3].kind {
                        SpecTokenKind::IntLit(v) => SpecStep::Found(
                            if konst {
                                SpecStatement::ConstAssign { name, expr: v }
                            } else {
                                SpecStatement::VarAssign { name, expr: v }
                            },
                            i + 4,
                        ),
                        _ => SpecStep::Fail(ParseError::TypeMismatch),
                    }
                }
            },
            _ => SpecStep::Fail(ParseError::MissingName),
        }
    }
}

/// The bounded lookahead that decides whether a label starts at `i`: an
/// identifier directly before a colon, a dot before identifier and colon,
/// or a double colon before identifier and colon. Pure read-ahead: it
/// consumes nothing.
pub open spec fn sp_is_label(toks: Seq<SpecToken>, i: int) -> bool {
    let n = toks.len();
    if i < n && toks[i].kind is Ident && i + 1 < n && toks[i + 1].kind is Colon {
        true
    } else if i < n && toks[i].kind is Dot && i + 1 < n && toks[i + 1].kind is Ident {
        i + 2 < n && toks[i + 2].kind is Colon
    } else if i < n && toks[i].kind is DoubleColon && i + 1 < n && toks[i + 1].kind is Ident {
        i + 2 < n && toks[i + 2].kind is Colon
    } else {
        false
    }
}

/// A label definition: the identifier at `i`, which the lookahead already
/// recognized, and its colon.
pub open spec fn sp_label(toks: Seq<SpecToken>, i: int) -> SpecStep {
    if 0 <= i < toks.len() {
        match toks[i].kind {
            SpecTokenKind::Ident(name) => {
                if i + 1 >= toks.len() {
                    SpecStep::Fail(ParseError::UnexpectedEndOfInput)
                } else if toks[i + 1].kind is Colon {
                    SpecStep::Found(SpecStatement::Label(name), i + 2)
                } else {
                    SpecStep::Fail(ParseError::UnexpectedToken)
                }
            },
            _ => SpecStep::NoMatch,
        }
    } else {
        SpecStep::NoMatch
    }
}

/// The greedy argument run of an instruction or directive: identifiers, raw
/// string literals, decimal renderings of integer literals and (for
/// instructions only) character literals, stopping at the first token of
/// any other kind.
pub open spec fn sp_args(toks: Seq<SpecToken>, i: int, with_char: bool) -> (Seq<Seq<char>>, int)
    decreases toks.len() - i,
{
    if i < 0 || i >= toks.len() {
        (seq![], i)
    } else {
        match toks[i].kind {
            SpecTokenKind::Ident(s) => {
                let (rest, j) = sp_args(toks, i + 1, with_char);
                (seq![s] + rest, j)
            },
            SpecTokenKind::IntLit(v) => {
                let (rest, j) = sp_args(toks, i + 1, with_char);
                (seq![dec_render(v)] + rest, j)
            },
            SpecTokenKind::StrLit(s) => {
                let (rest, j) = sp_args(toks, i + 1, with_char);
                (seq![s] + rest, j)
            },
            SpecTokenKind::CharLit(c) => {
                if with_char {
                    let (rest, j) = sp_args(toks, i + 1, with_char);
                    (seq![seq![c]] + rest, j)
                } else {
                    (seq![], i)
                }
            },
            _ => (seq![], i),
        }
    }
}

/// An instruction: the identifier at `i` as mnemonic, then its argument
/// run.
pub open spec fn sp_instruction(toks: Seq<SpecToken>, i: int) -> SpecStep {
    if 0 <= i < toks.len() {
        match toks[i].kind {
            SpecTokenKind::Ident(name) => {
                let (args, j) = sp_args(toks, i + 1, true);
                SpecStep::Found(SpecStatement::Instruction { name, args }, j)
            },
            _ => SpecStep::NoMatch,
        }
    } else {
        SpecStep::NoMatch
    }
}

/// The directive token's text with every leading marker character removed.
pub open spec fn strip_at(s: Seq<char>) -> Seq<char>
    decreases s.len(),
{
    if s.len() > 0 && s[0] == '@' {
        strip_at(s.subrange(1, s.len() as int))
    } else {
        s
    }
}

/// A directive: the marker token's text, stripped of the marker, then an
/// argument run without character literals.
pub open spec fn sp_directive(toks: Seq<SpecToken>, i: int) -> SpecStep {
    if 0 <= i < toks.len() {
        let name = strip_at(toks[i].text);
        let (args, j) = sp_args(toks, i + 1, false);
        SpecStep::Found(SpecStatement::Directive { name, args }, j)
    } else {
        SpecStep::NoMatch
    }
}

/// A file-import statement: the keyword at `i`, then a string literal whose
/// raw text is the path; any other kind there is fatal.
pub open spec fn sp_include(toks: Seq<SpecToken>, i: int) -> SpecStep {
    if i + 1 >= toks.len() {
        SpecStep::Fail(ParseError::UnexpectedEndOfInput)
    } else {
        match toks[i + 1].kind {
            SpecTokenKind::StrLit(s) => SpecStep::Found(SpecStatement::Include(s), i + 2),
            _ => SpecStep::Fail(ParseError::UnexpectedToken),
        }
    }
}

/// A template parameter list from `i`: identifiers are parameters, commas
/// are skipped, a right parenthesis ends the list, anything else is fatal.
pub open spec fn sp_params(toks: Seq<SpecToken>, i: int) -> SpecParams
    decreases toks.len() - i,
{
    if i < 0 || i >= toks.len() {
        SpecParams::ParamsFail(ParseError::UnexpectedEndOfInput)
    } else {
        match toks[i].kind {
            SpecTokenKind::Ident(p) => match sp_params(toks, i + 1) {
                SpecParams::ParamsOk(ps, j) => SpecParams::ParamsOk(seq![p] + ps, j),
                f => f,
            },
            SpecTokenKind::RightParen => SpecParams::ParamsOk(seq![], i + 1),
            SpecTokenKind::Comma => sp_params(toks, i + 1),
            _ => SpecParams::ParamsFail(ParseError::UnexpectedToken),
        }
    }
}

/// Statements already parsed, prepended to the outcome of the rest of the
/// run.
pub open spec fn sp_append(pre: Seq<SpecStatement>, r: SpecParse) -> SpecParse {
    match r {
        SpecParse::Parsed(sts, j) => SpecParse::Parsed(pre + sts, j),
        SpecParse::Failed(e) => SpecParse::Failed(e),
    }
}

/// A statement run from `i`: stops at the end of the tokens, and inside a
/// block also right before the closing brace; a position with no
/// recognized construct skips exactly one token.
pub open spec fn sp_stmts(toks: Seq<SpecToken>, i: int, in_block: bool) -> SpecParse
    decreases toks.len() - i, 3int,
{
    if i < 0 {
        SpecParse::Failed(ParseError::UnexpectedToken)
    } else if i >= toks.len() {
        SpecParse::Parsed(seq![], i)
    } else if in_block && toks[i].kind is RightBrace {
        SpecParse::Parsed(seq![], i)
    } else {
        match sp_stmt(toks, i) {
            SpecStep::Fail(e) => SpecParse::Failed(e),
            SpecStep::NoMatch => sp_stmts(toks, i + 1, in_block),
            SpecStep::Found(st, j) => {
                if j <= i || j > toks.len() {
                    // never reached: a parsed statement consumes at least
                    // one token and stays inside the sequence
                    SpecParse::Failed(ParseError::UnexpectedToken)
                } else {
                    sp_append(seq![st], sp_stmts(toks, j, in_block))
                }
            },
        }
    }
}

/// A block: its opening brace at `i`, a statement run, and the mandatory
/// closing brace; an empty block is valid.
pub open spec fn sp_block(toks: Seq<SpecToken>, i: int) -> SpecParse
    decreases toks.len() - i, 0int,
{
    if i < 0 {
        SpecParse::Failed(ParseError::UnexpectedToken)
    } else if i >= toks.len() {
        SpecParse::Failed(ParseError::UnexpectedEndOfInput)
    } else if !(toks[i].kind is LeftBrace) {
        SpecParse::Failed(ParseError::UnexpectedToken)
    } else {
        match sp_stmts(toks, i + 1, true) {
            SpecParse::Parsed(body, j) => {
                if j >= toks.len() {
                    SpecParse::Failed(ParseError::UnexpectedEndOfInput)
                } else {
                    SpecParse::Parsed(body, j + 1)
                }
            },
            SpecParse::Failed(e) => SpecParse::Failed(e),
        }
    }
}

/// A template definition: keyword at `i`, name, parameter list in
/// parentheses, and the body block, stored unexpanded.
pub open spec fn sp_macro(toks: Seq<SpecToken>, i: int) -> SpecStep
    decreases toks.len() - i, 1int,
{
    if i + 1 >= toks.len() {
        SpecStep::Fail(ParseError::UnexpectedEndOfInput)
    } else {
        match toks[i + 1].kind {
            SpecTokenKind::Ident(name) => {
                if i + 2 >= toks.len() {
                    SpecStep::Fail(ParseError::UnexpectedEndOfInput)
                } else if !(toks[i + 2].kind is LeftParen) {
                    SpecStep::Fail(ParseError::UnexpectedToken)
                } else {
                    match sp_params(toks, i + 3) {
                        SpecParams::ParamsOk(params, j) => {
                            if j <= i || j > toks.len() {
                                // never reached: a parameter list ends after
                                // its closing parenthesis
                                SpecStep::Fail(ParseError::UnexpectedToken)
                            } else {
                                match sp_block(toks, j) {
                                    SpecParse::Parsed(body, k) => SpecStep::Found(
                                        SpecStatement::MacroDef { name, params, body },
                                        k,
                                    ),
                                    SpecParse::Failed(e) => SpecStep::Fail(e),
                                }
                            }
                        },
                        SpecParams::ParamsFail(e) => SpecStep::Fail(e),
                    }
                }
            },
            _ => SpecStep::Fail(ParseError::MissingName),
        }
    }
}

/// A repetition construct: keyword at `i`, then the fixed three-clause
/// header in parentheses — the initializer binds the loop variable, the
/// bound clause and the increment clause must repeat that same identifier —
/// and the body block, stored unexpanded.
pub open spec fn sp_for(toks: Seq<SpecToken>, i: int) -> SpecStep
    decreases toks.len() - i, 1int,
{
    if sp_kind_at(toks, i + 1, SpecTokenKind::LeftParen) is Some {
        SpecStep::Fail(sp_kind_at(toks, i + 1, SpecTokenKind::LeftParen)->Some_0)
    } else if sp_kind_at(toks, i + 2, SpecTokenKind::Var) is Some {
        SpecStep::Fail(sp_kind_at(toks, i + 2, SpecTokenKind::Var)->Some_0)
    } else if i + 3 >= toks.len() {
        SpecStep::Fail(ParseError::UnexpectedEndOfInput)
    } else {
        match toks[i + 3].kind {
            SpecTokenKind::Ident(name) => {
                if sp_kind_at(toks, i + 4, SpecTokenKind::Equal) is Some {
                    SpecStep::Fail(sp_kind_at(toks, i + 4, SpecTokenKind::Equal)->Some_0)
                } else if i + 5 >= toks.len() {
                    SpecStep::Fail(ParseError::UnexpectedEndOfInput)
                } else {
                    match toks[i + 5].kind {
                        SpecTokenKind::IntLit(start) => sp_for_tail(toks, i, name, start),
                        _ => SpecStep::Fail(ParseError::TypeMismatch),
                    }
                }
            },
            _ => SpecStep::Fail(ParseError::MissingName),
        }
    }
}

/// The bound clause, increment clause and body of a repetition construct
/// whose initializer bound `name` to `start`.
pub open spec fn sp_for_tail(toks: Seq<SpecToken>, i: int, name: Seq<char>, start: int) -> SpecStep
    decreases toks.len() - i, 0int,
{
    if sp_kind_at(toks, i + 6, SpecTokenKind::Semicolon) is Some {
        SpecStep::Fail(sp_kind_at(toks, i + 6, SpecTokenKind::Semicolon)->Some_0)
    } else if sp_kind_at(toks, i + 7, SpecTokenKind::Ident(name)) is Some {
        SpecStep::Fail(sp_kind_at(toks, i + 7, SpecTokenKind::Ident(name))->Some_0)
    } else if sp_kind_at(toks, i + 8, SpecTokenKind::Less) is Some {
        SpecStep::Fail(sp_kind_at(toks, i + 8, SpecTokenKind::Less)->Some_0)
    } else if i + 9 >= toks.len() {
        SpecStep::Fail(ParseError::UnexpectedEndOfInput)
    } else {
        match toks[i + 9].kind {
            SpecTokenKind::IntLit(end) => {
                if sp_kind_at(toks, i + 10, SpecTokenKind::Semicolon) is Some {
                    SpecStep::Fail(sp_kind_at(toks, i + 10, SpecTokenKind::Semicolon)->Some_0)
                } else if sp_kind_at(toks, i + 11, SpecTokenKind::Ident(name)) is Some {
                    SpecStep::Fail(sp_kind_at(toks, i + 11, SpecTokenKind::Ident(name))->Some_0)
                } else if sp_kind_at(toks, i + 12, SpecTokenKind::PlusPlus) is Some {
                    SpecStep::Fail(sp_kind_at(toks, i + 12, SpecTokenKind::PlusPlus)->Some_0)
                } else if sp_kind_at(toks, i + 13, SpecTokenKind::RightParen) is Some {
                    SpecStep::Fail(sp_kind_at(toks, i + 13, SpecTokenKind::RightParen)->Some_0)
                } else {
                    match sp_block(toks, i + 14) {
                        SpecParse::Parsed(body, k) => SpecStep::Found(
                            SpecStatement::ForLoop { var: name, start, end, body },
                            k,
                        ),
                        SpecParse::Failed(e) => SpecStep::Fail(e),
                    }
                }
            },
            _ => SpecStep::Fail(ParseError::TypeMismatch),
        }
    }
}

/// Statement dispatch at `i`: on the kind of the token at the cursor, with
/// the label lookahead deciding between label and instruction for an
/// identifier; any other kind is no recognized construct.
pub open spec fn sp_stmt(toks: Seq<SpecToken>, i: int) -> SpecStep
    decreases toks.len() - i, 2int,
{
    if i < 0 || i >= toks.len() {
        SpecStep::NoMatch
    } else {
        match toks[i].kind {
            SpecTokenKind::Var => sp_assign(toks, i, false),
            SpecTokenKind::Const => sp_assign(toks, i, true),
            SpecTokenKind::Ident(_) => {
                if sp_is_label(toks, i) {
                    sp_label(toks, i)
                } else {
                    sp_instruction(toks, i)
                }
            },
            SpecTokenKind::AtDirective => sp_directive(toks, i),
            SpecTokenKind::Include => sp_include(toks, i),
            SpecTokenKind::MacroRules => sp_macro(toks, i),
            SpecTokenKind::ForBang => sp_for(toks, i),
            SpecTokenKind::LeftBrace => match sp_block(toks, i) {
                SpecParse::Parsed(body, j) => SpecStep::Found(SpecStatement::Block(body), j),
                SpecParse::Failed(e) => SpecStep::Fail(e),
            },
            _ => SpecStep::NoMatch,
        }
    }
}

// ---------------------------------------------------------------------------
// The parser
// ---------------------------------------------------------------------------

/// Tokens left before the end of the sequence.
pub open spec fn toks_rem(toks: Seq<SpecToken>, i: int) -> int {
    if i > toks.len() {
        0
    } else {
        toks.len() - i
    }
}

/// The recursive-descent parser over one token stream.
pub struct Parser {
    stream: TokenStream,
}

impl Parser {
    /// The modeled token sequence.
    pub closed spec fn spec_toks(&self) -> Seq<SpecToken> {
        self.stream.spec_toks()
    }

    /// The cursor position.
    pub closed spec fn spec_pos(&self) -> int {
        self.stream.spec_pos()
    }

    /// Lexes the input and readies the parser at the first token.
    pub fn new(input: &str) -> (r: Result<Parser, ParseError>)
        requires
            lex_fits(input@),
        ensures
            (match r {
                Ok(p) => lex_at(input@, 0) == SpecLex::Toks(p.spec_toks()) && p.spec_pos() == 0,
                Err(e) => lex_at(input@, 0) is BadEscape && e == ParseError::InvalidEscape,
            }),
    {
        let stream = match TokenStream::new(input) {
            Ok(s) => s,
            Err(e) => {
                return Err(e);
            },
        };
        Ok(Parser { stream })
    }

    /// Parses the whole remaining token sequence into the ordered top-level
    /// statement sequence, skipping one token wherever no construct starts,
    /// and aborting the pass on the first fatal error.
    pub fn parse(&mut self) -> (r: Result<Vec<Statement>, ParseError>)
        ensures
            final(self).spec_toks() == old(self).spec_toks(),
            (match sp_stmts(old(self).spec_toks(), old(self).spec_pos(), false) {
                SpecParse::Parsed(sts, j) => r matches Ok(v) && stmts_view(v@) == sts
                    && final(self).spec_pos() == j,
                SpecParse::Failed(e) => r matches Err(e2) && e2 == e,
            }),
    {
        let ghost toks = self.stream.spec_toks();
        let ghost p0 = self.stream.spec_pos();
        let mut stmts: Vec<Statement> = Vec::new();
        proof {
            assert(stmts_view(stmts@) =~= Seq::<SpecStatement>::empty());
            match sp_stmts(toks, p0, false) {
                SpecParse::Parsed(sts, j) => {
                    assert(Seq::<SpecStatement>::empty() + sts =~= sts);
                },
                SpecParse::Failed(_) => {},
            }
        }
        loop
            invariant
                toks == old(self).spec_toks(),
                p0 == old(self).spec_pos(),
                self.stream.spec_toks() == toks,
                p0 <= self.stream.spec_pos(),
                sp_stmts(toks, p0, false) == sp_append(
                    stmts_view(stmts@),
                    sp_stmts(toks, self.stream.spec_pos(), false),
                ),
            ensures
                self.stream.spec_toks() == toks,
                p0 <= self.stream.spec_pos(),
                self.stream.spec_pos() >= toks.len(),
                sp_stmts(toks, p0, false) == sp_append(
                    stmts_view(stmts@),
                    sp_stmts(toks, self.stream.spec_pos(), false),
                ),
            decreases toks_rem(toks, self.stream.spec_pos()),
        {
            if self.stream.eof() {
                break;
            }
            let ghost cur = self.stream.spec_pos();
            match self.parse_statement() {
                Ok(Some(st)) => {
                    proof {
                        let j = self.stream.spec_pos();
                        lemma_stmts_view_push(stmts@, st);
                        match sp_stmts(toks, j, false) {
                            SpecParse::Parsed(rest, k) => {
                                assert(stmts_view(stmts@) + (seq![stmt_view(st)] + rest)
                                    =~= (stmts_view(stmts@) + seq![stmt_view(st)]) + rest);
                            },
                            SpecParse::Failed(_) => {},
                        }
                    }
                    stmts.push(st);
                },
                Ok(None) => {
                    proof {
                        assert(sp_stmts(toks, cur, false) == sp_stmts(toks, cur + 1, false));
                    }
                    let _ = self.stream.next();
                },
                Err(e) => {
                    proof {
                        assert(sp_stmts(toks, cur, false) == SpecParse::Failed(e));
                    }
                    return Err(e);
                },
            }
        }
        proof {
            let cur = self.stream.spec_pos();
            assert(sp_stmts(toks, cur, false) == SpecParse::Parsed(seq![], cur));
            assert(stmts_view(stmts@) + seq![] =~= stmts_view(stmts@));
        }
        Ok(stmts)
    }

    /// One statement-parse attempt at the cursor: a statement, no
    /// recognized construct (the cursor then stays put), or a fatal error.
    fn parse_statement(&mut self) -> (r: Result<Option<Statement>, ParseError>)
        ensures
            final(self).spec_toks() == old(self).spec_toks(),
            (match sp_stmt(old(self).spec_toks(), old(self).spec_pos()) {
                SpecStep::Found(stv, j) => r matches Ok(Some(st)) && stmt_view(st) == stv
                    && final(self).spec_pos() == j
                    && old(self).spec_pos() < j <= old(self).spec_toks().len(),
                SpecStep::NoMatch => r == Ok::<Option<Statement>, ParseError>(None)
                    && final(self).spec_pos() == old(self).spec_pos(),
                SpecStep::Fail(e) => r matches Err(e2) && e2 == e,
            }),
        decreases toks_rem(self.stream.spec_toks(), self.stream.spec_pos()), 2int,
    {
        let tag: u8 = match self.stream.peek() {
            None => 0,
            Some(t) => match &t.kind {
                TokenKind::Var => 1,
                TokenKind::Const => 2,
                TokenKind::Ident(_) => 3,
                TokenKind::AtDirective => 4,
                TokenKind::Include => 5,
                TokenKind::MacroRules => 6,
                TokenKind::ForBang => 7,
                TokenKind::LeftBrace => 8,
                _ => 0,
            },
        };
        match tag {
            1 => self.parse_var(),
            2 => self.parse_const(),
            3 => if self.lookahead_is_label() {
                self.parse_label()
            } else {
                self.parse_instruction()
            },
            4 => self.parse_directive(),
            5 => self.parse_include(),
            6 => self.parse_macro(),
            7 => self.parse_for_loop(),
            8 => match self.parse_block() {
                Ok(body) => Ok(Some(Statement::Block(body))),
                Err(e) => Err(e),
            },
            _ => Ok(None),
        }
    }

    /// Token at `k` past the cursor is an identifier.
    fn la_ident(&self, k: usize) -> (r: bool)
        ensures
            r == (self.spec_pos() + k < self.spec_toks().len() && self.spec_toks()[self.spec_pos()
                + k].kind is Ident),
    {
        match self.stream.peek_ahead(k) {
            Some(t) => matches!(&t.kind, TokenKind::Ident(_)),
            None => false,
        }
    }

    /// Token at `k` past the cursor is a colon.
    fn la_colon(&self, k: usize) -> (r: bool)
        ensures
            r == (self.spec_pos() + k < self.spec_toks().len() && self.spec_toks()[self.spec_pos()
                + k].kind is Colon),
    {
        match self.stream.peek_ahead(k) {
            Some(t) => matches!(&t.kind, TokenKind::Colon),
            None => false,
        }
    }

    /// Token at `k` past the cursor is a dot.
    fn la_dot(&self, k: usize) -> (r: bool)
        ensures
            r == (self.spec_pos() + k < self.spec_toks().len() && self.spec_toks()[self.spec_pos()
                + k].kind is Dot),
    {
        match self.stream.peek_ahead(k) {
            Some(t) => matches!(&t.kind, TokenKind::Dot),
            None => false,
        }
    }

    /// Token at `k` past the cursor is a double colon.
    fn la_double_colon(&self, k: usize) -> (r: bool)
        ensures
            r == (self.spec_pos() + k < self.spec_toks().len() && self.spec_toks()[self.spec_pos()
                + k].kind is DoubleColon),
    {
        match self.stream.peek_ahead(k) {
            Some(t) => matches!(&t.kind, TokenKind::DoubleColon),
            None => false,
        }
    }

    /// The bounded label lookahead: inspects up to four tokens ahead
    /// without consuming anything.
    fn lookahead_is_label(&self) -> (r: bool)
        ensures
            r == sp_is_label(self.spec_toks(), self.spec_pos()),
    {
        if self.la_ident(0) && self.la_colon(1) {
            true
        } else if self.la_dot(0) && self.la_ident(1) {
            self.la_colon(2)
        } else if self.la_double_colon(0) && self.la_ident(1) {
            self.la_colon(2)
        } else {
            false
        }
    }

    /// A label definition: the identifier the lookahead recognized, then
    /// its colon.
    fn parse_label(&mut self) -> (r: Result<Option<Statement>, ParseError>)
        requires
            old(self).spec_pos() < old(self).spec_toks().len(),
            old(self).spec_toks()[old(self).spec_pos()].kind is Ident,
        ensures
            final(self).spec_toks() == old(self).spec_toks(),
            (match sp_label(old(self).spec_toks(), old(self).spec_pos()) {
                SpecStep::Found(stv, j) => r matches Ok(Some(st)) && stmt_view(st) == stv
                    && final(self).spec_pos() == j
                    && old(self).spec_pos() < j <= old(self).spec_toks().len(),
                SpecStep::NoMatch => false,
                SpecStep::Fail(e) => r matches Err(e2) && e2 == e,
            }),
    {
        let name = match self.stream.next() {
            None => {
                return Err(ParseError::UnexpectedEndOfInput);
            },
            Some(t) => match &t.kind {
                TokenKind::Ident(n) => n.clone(),
                _ => {
                    return Err(ParseError::UnexpectedToken);
                },
            },
        };
        match self.stream.expect(TokenKind::Colon) {
            Ok(()) => Ok(Some(Statement::Label(name))),
            Err(e) => Err(e),
        }
    }

    /// A mutable or immutable assignment: keyword, name, equals sign, and a
    /// decimal integer literal.
    fn parse_assign(&mut self, konst: bool) -> (r: Result<Option<Statement>, ParseError>)
        requires
            old(self).spec_pos() < old(self).spec_toks().len(),
        ensures
            final(self).spec_toks() == old(self).spec_toks(),
            (match sp_assign(old(self).spec_toks(), old(self).spec_pos(), konst) {
                SpecStep::Found(stv, j) => r matches Ok(Some(st)) && stmt_view(st) == stv
                    && final(self).spec_pos() == j
                    && old(self).spec_pos() < j <= old(self).spec_toks().len(),
                SpecStep::NoMatch => false,
                SpecStep::Fail(e) => r matches Err(e2) && e2 == e,
            }),
    {
        let _ = self.stream.next();  // the introducing keyword
        let name = match self.stream.next() {
            None => {
                return Err(ParseError::UnexpectedEndOfInput);
            },
            Some(t) => match &t.kind {
                TokenKind::Ident(n) => n.clone(),
                _ => {
                    return Err(ParseError::MissingName);
                },
            },
        };
        match self.stream.expect(TokenKind::Equal) {
            Ok(()) => {},
            Err(e) => {
                return Err(e);
            },
        }
        let value = match self.stream.next() {
            None => {
                return Err(ParseError::UnexpectedEndOfInput);
            },
            Some(t) => match &t.kind {
                TokenKind::IntLit(v) => *v,
                _ => {
                    return Err(ParseError::TypeMismatch);
                },
            },
        };
        if konst {
            Ok(Some(Statement::ConstAssign { name, expr: value }))
        } else {
            Ok(Some(Statement::VarAssign { name, expr: value }))
        }
    }

    fn parse_var(&mut self) -> (r: Result<Option<Statement>, ParseError>)
        requires
            old(self).spec_pos() < old(self).spec_toks().len(),
        ensures
            final(self).spec_toks() == old(self).spec_toks(),
            (match sp_assign(old(self).spec_toks(), old(self).spec_pos(), false) {
                SpecStep::Found(stv, j) => r matches Ok(Some(st)) && stmt_view(st) == stv
                    && final(self).spec_pos() == j
                    && old(self).spec_pos() < j <= old(self).spec_toks().len(),
                SpecStep::NoMatch => false,
                SpecStep::Fail(e) => r matches Err(e2) && e2 == e,
            }),
    {
        self.parse_assign(false)
    }

    fn parse_const(&mut self) -> (r: Result<Option<Statement>, ParseError>)
        requires
            old(self).spec_pos() < old(self).spec_toks().len(),
        ensures
            final(self).spec_toks() == old(self).spec_toks(),
            (match sp_assign(old(self).spec_toks(), old(self).spec_pos(), true) {
                SpecStep::Found(stv, j) => r matches Ok(Some(st)) && stmt_view(st) == stv
                    && final(self).spec_pos() == j
                    && old(self).spec_pos() < j <= old(self).spec_toks().len(),
                SpecStep::NoMatch => false,
                SpecStep::Fail(e) => r matches Err(e2) && e2 == e,
            }),
    {
        self.parse_assign(true)
    }

    /// The greedy argument run of an instruction or directive.
    fn parse_args(&mut self, with_char: bool) -> (r: Vec<String>)
        ensures
            final(self).spec_toks() == old(self).spec_toks(),
            strings_view(r@) == sp_args(
                old(self).spec_toks(),
                old(self).spec_pos(),
                with_char,
            ).0,
            final(self).spec_pos() == sp_args(
                old(self).spec_toks(),
                old(self).spec_pos(),
                with_char,
            ).1,
            old(self).spec_pos() <= final(self).spec_pos(),
            final(self).spec_pos() <= old(self).spec_toks().len() || final(self).spec_pos() == old(
                self,
            ).spec_pos(),
    {
        let ghost toks = self.stream.spec_toks();
        let ghost a0 = self.stream.spec_pos();
        let mut args: Vec<String> = Vec::new();
        proof {
            assert(strings_view(args@) =~= Seq::<Seq<char>>::empty());
            assert(Seq::<Seq<char>>::empty() + sp_args(toks, a0, with_char).0 =~= sp_args(
                toks,
                a0,
                with_char,
            ).0);
        }
        loop
            invariant
                toks == old(self).spec_toks(),
                a0 == old(self).spec_pos(),
                self.stream.spec_toks() == toks,
                a0 <= self.stream.spec_pos(),
                self.stream.spec_pos() <= toks.len() || self.stream.spec_pos() == a0,
                sp_args(toks, a0, with_char).0 == strings_view(args@) + sp_args(
                    toks,
                    self.stream.spec_pos(),
                    with_char,
                ).0,
                sp_args(toks, a0, with_char).1 == sp_args(
                    toks,
                    self.stream.spec_pos(),
                    with_char,
                ).1,
            ensures
                self.stream.spec_toks() == toks,
                a0 <= self.stream.spec_pos(),
                self.stream.spec_pos() <= toks.len() || self.stream.spec_pos() == a0,
                strings_view(args@) == sp_args(toks, a0, with_char).0,
                self.stream.spec_pos() == sp_args(toks, a0, with_char).1,
            decreases toks_rem(toks, self.stream.spec_pos()),
        {
            let ghost cur = self.stream.spec_pos();
            let arg_opt: Option<String> = match self.stream.peek() {
                None => None,
                Some(t) => match &t.kind {
                    TokenKind::Ident(s) => Some(s.clone()),
                    TokenKind::IntLit(v) => Some(to_dec_string(*v)),
                    TokenKind::StrLit(s) => Some(s.clone()),
                    TokenKind::CharLit(c) => {
                        if with_char {
                            let mut s = String::new();
                            s.push(*c);
                            proof {
                                assert(s@ =~= seq![toks[cur].kind->CharLit_0]);
                            }
                            Some(s)
                        } else {
                            None
                        }
                    },
                    _ => None,
                },
            };
            match arg_opt {
                Some(s) => {
                    proof {
                        assert(cur < toks.len());
                        assert(sp_args(toks, cur, with_char).0 == seq![s@] + sp_args(
                            toks,
                            cur + 1,
                            with_char,
                        ).0);
                        lemma_strings_view_push(args@, s);
                        assert(strings_view(args@) + (seq![s@] + sp_args(
                            toks,
                            cur + 1,
                            with_char,
                        ).0) =~= (strings_view(args@) + seq![s@]) + sp_args(
                            toks,
                            cur + 1,
                            with_char,
                        ).0);
                    }
                    args.push(s);
                    let _ = self.stream.next();
                },
                None => {
                    proof {
                        assert(sp_args(toks, cur, with_char).0 =~= Seq::<Seq<char>>::empty());
                        assert(strings_view(args@) + Seq::<Seq<char>>::empty() =~= strings_view(
                            args@,
                        ));
                    }
                    break;
                },
            }
        }
        args
    }

    /// An instruction: the identifier at the cursor as mnemonic, then its
    /// greedy argument run.
    fn parse_instruction(&mut self) -> (r: Result<Option<Statement>, ParseError>)
        requires
            old(self).spec_pos() < old(self).spec_toks().len(),
            old(self).spec_toks()[old(self).spec_pos()].kind is Ident,
        ensures
            final(self).spec_toks() == old(self).spec_toks(),
            (match sp_instruction(old(self).spec_toks(), old(self).spec_pos()) {
                SpecStep::Found(stv, j) => r matches Ok(Some(st)) && stmt_view(st) == stv
                    && final(self).spec_pos() == j
                    && old(self).spec_pos() < j <= old(self).spec_toks().len(),
                SpecStep::NoMatch => false,
                SpecStep::Fail(e) => r matches Err(e2) && e2 == e,
            }),
    {
        let name = match self.stream.next() {
            None => {
                return Err(ParseError::UnexpectedEndOfInput);
            },
            Some(t) => match &t.kind {
                TokenKind::Ident(n) => n.clone(),
                _ => {
                    return Err(ParseError::UnexpectedToken);
                },
            },
        };
        let args = self.parse_args(true);
        Ok(Some(Statement::Instruction { name, args }))
    }

    /// A directive: the marker token's text stripped of its marker, then an
    /// argument run without character literals.
    fn parse_directive(&mut self) -> (r: Result<Option<Statement>, ParseError>)
        requires
            old(self).spec_pos() < old(self).spec_toks().len(),
        ensures
            final(self).spec_toks() == old(self).spec_toks(),
            (match sp_directive(old(self).spec_toks(), old(self).spec_pos()) {
                SpecStep::Found(stv, j) => r matches Ok(Some(st)) && stmt_view(st) == stv
                    && final(self).spec_pos() == j
                    && old(self).spec_pos() < j <= old(self).spec_toks().len(),
                SpecStep::NoMatch => false,
                SpecStep::Fail(e) => r matches Err(e2) && e2 == e,
            }),
    {
        let text = match self.stream.next() {
            None => {
                return Err(ParseError::UnexpectedEndOfInput);
            },
            Some(t) => t.text.clone(),
        };
        let name = strip_marker(&text);
        let args = self.parse_args(false);
        Ok(Some(Statement::Directive { name, args }))
    }

    /// A file-import statement: the keyword, then a string literal whose
    /// raw text is the path.
    fn parse_include(&mut self) -> (r: Result<Option<Statement>, ParseError>)
        requires
            old(self).spec_pos() < old(self).spec_toks().len(),
        ensures
            final(self).spec_toks() == old(self).spec_toks(),
            (match sp_include(old(self).spec_toks(), old(self).spec_pos()) {
                SpecStep::Found(stv, j) => r matches Ok(Some(st)) && stmt_view(st) == stv
                    && final(self).spec_pos() == j
                    && old(self).spec_pos() < j <= old(self).spec_toks().len(),
                SpecStep::NoMatch => false,
                SpecStep::Fail(e) => r matches Err(e2) && e2 == e,
            }),
    {
        let _ = self.stream.next();  // the keyword
        match self.stream.next() {
            None => Err(ParseError::UnexpectedEndOfInput),
            Some(t) => match &t.kind {
                TokenKind::StrLit(s) => Ok(Some(Statement::Include(s.clone()))),
                _ => Err(ParseError::UnexpectedToken),
            },
        }
    }
}

impl Parser {
    /// A block: opening brace, statement run with the same lenient
    /// recovery as the top level, mandatory closing brace; returns the
    /// block's statement sequence.
    fn parse_block(&mut self) -> (r: Result<Vec<Statement>, ParseError>)
        ensures
            final(self).spec_toks() == old(self).spec_toks(),
            (match sp_block(old(self).spec_toks(), old(self).spec_pos()) {
                SpecParse::Parsed(body, j) => r matches Ok(v) && stmts_view(v@) == body
                    && final(self).spec_pos() == j
                    && old(self).spec_pos() < j <= old(self).spec_toks().len(),
                SpecParse::Failed(e) => r matches Err(e2) && e2 == e,
            }),
        decreases toks_rem(self.stream.spec_toks(), self.stream.spec_pos()), 0int,
    {
        let ghost toks = self.stream.spec_toks();
        let ghost i0 = self.stream.spec_pos();
        match self.stream.expect(TokenKind::LeftBrace) {
            Ok(()) => {},
            Err(e) => {
                return Err(e);
            },
        }
        let ghost b0 = self.stream.spec_pos();
        let mut body: Vec<Statement> = Vec::new();
        proof {
            assert(stmts_view(body@) =~= Seq::<SpecStatement>::empty());
            match sp_stmts(toks, b0, true) {
                SpecParse::Parsed(sts, j) => {
                    assert(Seq::<SpecStatement>::empty() + sts =~= sts);
                },
                SpecParse::Failed(_) => {},
            }
        }
        loop
            invariant
                toks == old(self).spec_toks(),
                i0 == old(self).spec_pos(),
                b0 == i0 + 1,
                i0 < toks.len() && toks[i0].kind is LeftBrace,
                self.stream.spec_toks() == toks,
                i0 < b0 <= self.stream.spec_pos() <= toks.len(),
                sp_stmts(toks, b0, true) == sp_append(
                    stmts_view(body@),
                    sp_stmts(toks, self.stream.spec_pos(), true),
                ),
            ensures
                self.stream.spec_toks() == toks,
                i0 < b0 <= self.stream.spec_pos() <= toks.len(),
                sp_stmts(toks, b0, true) == sp_append(
                    stmts_view(body@),
                    sp_stmts(toks, self.stream.spec_pos(), true),
                ),
                self.stream.spec_pos() >= toks.len() || toks[self.stream.spec_pos()].kind
                    is RightBrace,
            decreases toks_rem(toks, self.stream.spec_pos()),
        {
            if self.stream.eof() {
                break;
            }
            let stop = match self.stream.peek() {
                None => true,
                Some(t) => matches!(&t.kind, TokenKind::RightBrace),
            };
            if stop {
                break;
            }
            let ghost cur = self.stream.spec_pos();
            match self.parse_statement() {
                Ok(Some(st)) => {
                    proof {
                        let j = self.stream.spec_pos();
                        lemma_stmts_view_push(body@, st);
                        match sp_stmts(toks, j, true) {
                            SpecParse::Parsed(rest, k) => {
                                assert(stmts_view(body@) + (seq![stmt_view(st)] + rest)
                                    =~= (stmts_view(body@) + seq![stmt_view(st)]) + rest);
                            },
                            SpecParse::Failed(_) => {},
                        }
                    }
                    body.push(st);
                },
                Ok(None) => {
                    proof {
                        assert(sp_stmts(toks, cur, true) == sp_stmts(toks, cur + 1, true));
                    }
                    let _ = self.stream.next();
                },
                Err(e) => {
                    proof {
                        assert(sp_stmts(toks, cur, true) == SpecParse::Failed(e));
                    }
                    return Err(e);
                },
            }
        }
        proof {
            let cur = self.stream.spec_pos();
            assert(sp_stmts(toks, cur, true) == SpecParse::Parsed(seq![], cur));
            assert(stmts_view(body@) + seq![] =~= stmts_view(body@));
        }
        match self.stream.expect(TokenKind::RightBrace) {
            Ok(()) => Ok(body),
            Err(e) => Err(e),
        }
    }

    /// A template definition: keyword, name, parameter list in
    /// parentheses, and the body block, stored verbatim.
    fn parse_macro(&mut self) -> (r: Result<Option<Statement>, ParseError>)
        requires
            old(self).spec_pos() < old(self).spec_toks().len(),
        ensures
            final(self).spec_toks() == old(self).spec_toks(),
            (match sp_macro(old(self).spec_toks(), old(self).spec_pos()) {
                SpecStep::Found(stv, j) => r matches Ok(Some(st)) && stmt_view(st) == stv
                    && final(self).spec_pos() == j
                    && old(self).spec_pos() < j <= old(self).spec_toks().len(),
                SpecStep::NoMatch => false,
                SpecStep::Fail(e) => r matches Err(e2) && e2 == e,
            }),
        decreases toks_rem(self.stream.spec_toks(), self.stream.spec_pos()), 1int,
    {
        let ghost toks = self.stream.spec_toks();
        let ghost i0 = self.stream.spec_pos();
        let _ = self.stream.next();  // the introducing keyword
        let name = match self.stream.next() {
            None => {
                return Err(ParseError::UnexpectedEndOfInput);
            },
            Some(t) => match &t.kind {
                TokenKind::Ident(n) => n.clone(),
                _ => {
                    return Err(ParseError::MissingName);
                },
            },
        };
        match self.stream.expect(TokenKind::LeftParen) {
            Ok(()) => {},
            Err(e) => {
                return Err(e);
            },
        }
        let ghost p0 = self.stream.spec_pos();
        let mut params: Vec<String> = Vec::new();
        proof {
            assert(strings_view(params@) =~= Seq::<Seq<char>>::empty());
            match sp_params(toks, p0) {
                SpecParams::ParamsOk(ps, j) => {
                    assert(Seq::<Seq<char>>::empty() + ps =~= ps);
                },
                SpecParams::ParamsFail(_) => {},
            }
        }
        loop
            invariant_except_break
                sp_params(toks, p0) == (match sp_params(toks, self.stream.spec_pos()) {
                    SpecParams::ParamsOk(ps, j) => SpecParams::ParamsOk(
                        strings_view(params@) + ps,
                        j,
                    ),
                    f => f,
                }),
            invariant
                toks == old(self).spec_toks(),
                i0 == old(self).spec_pos(),
                p0 == i0 + 3,
                i0 + 1 < toks.len() && toks[i0 + 1].kind == SpecTokenKind::Ident(name@),
                i0 + 2 < toks.len() && toks[i0 + 2].kind is LeftParen,
                self.stream.spec_toks() == toks,
                i0 < p0 <= self.stream.spec_pos() <= toks.len(),
            ensures
                sp_params(toks, p0) == SpecParams::ParamsOk(
                    strings_view(params@),
                    self.stream.spec_pos(),
                ),
            decreases toks_rem(toks, self.stream.spec_pos()),
        {
            let ghost cur = self.stream.spec_pos();
            let ghost params0 = params@;
            let done: bool = match self.stream.next() {
                None => {
                    proof {
                        assert(sp_params(toks, cur) == SpecParams::ParamsFail(
                            ParseError::UnexpectedEndOfInput,
                        ));
                    }
                    return Err(ParseError::UnexpectedEndOfInput);
                },
                Some(t) => match &t.kind {
                    TokenKind::Ident(p) => {
                        params.push(p.clone());
                        false
                    },
                    TokenKind::RightParen => true,
                    TokenKind::Comma => false,
                    _ => {
                        proof {
                            assert(sp_params(toks, cur) == SpecParams::ParamsFail(
                                ParseError::UnexpectedToken,
                            ));
                        }
                        return Err(ParseError::UnexpectedToken);
                    },
                },
            };
            proof {
                match toks[cur].kind {
                    SpecTokenKind::Ident(p) => {
                        assert(strings_view(params@) =~= strings_view(params0) + seq![p]);
                        match sp_params(toks, cur + 1) {
                            SpecParams::ParamsOk(ps, j) => {
                                assert((strings_view(params0) + seq![p]) + ps =~= strings_view(
                                    params0,
                                ) + (seq![p] + ps));
                            },
                            _ => {},
                        }
                    },
                    SpecTokenKind::RightParen => {
                        assert(strings_view(params@) + Seq::<Seq<char>>::empty() =~= strings_view(
                            params@,
                        ));
                    },
                    _ => {},
                }
            }
            if done {
                break;
            }
        }
        let body = match self.parse_block() {
            Ok(b) => b,
            Err(e) => {
                return Err(e);
            },
        };
        Ok(Some(Statement::MacroDef { name, params, body }))
    }

    /// A repetition construct: keyword, the fixed three-clause header with
    /// the loop variable repeated in its bound and increment clauses, and
    /// the body block, stored unexpanded.
    #[verifier::rlimit(100)]
    fn parse_for_loop(&mut self) -> (r: Result<Option<Statement>, ParseError>)
        requires
            old(self).spec_pos() < old(self).spec_toks().len(),
        ensures
            final(self).spec_toks() == old(self).spec_toks(),
            (match sp_for(old(self).spec_toks(), old(self).spec_pos()) {
                SpecStep::Found(stv, j) => r matches Ok(Some(st)) && stmt_view(st) == stv
                    && final(self).spec_pos() == j
                    && old(self).spec_pos() < j <= old(self).spec_toks().len(),
                SpecStep::NoMatch => false,
                SpecStep::Fail(e) => r matches Err(e2) && e2 == e,
            }),
        decreases toks_rem(self.stream.spec_toks(), self.stream.spec_pos()), 1int,
    {
        let _ = self.stream.next();  // the introducing keyword
        match self.stream.expect(TokenKind::LeftParen) {
            Ok(()) => {},
            Err(e) => {
                return Err(e);
            },
        }
        match self.stream.expect(TokenKind::Var) {
            Ok(()) => {},
            Err(e) => {
                return Err(e);
            },
        }
        let name = match self.stream.next() {
            None => {
                return Err(ParseError::UnexpectedEndOfInput);
            },
            Some(t) => match &t.kind {
                TokenKind::Ident(n) => n.clone(),
                _ => {
                    return Err(ParseError::MissingName);
                },
            },
        };
        match self.stream.expect(TokenKind::Equal) {
            Ok(()) => {},
            Err(e) => {
                return Err(e);
            },
        }
        let start = match self.stream.next() {
            None => {
                return Err(ParseError::UnexpectedEndOfInput);
            },
            Some(t) => match &t.kind {
                TokenKind::IntLit(v) => *v,
                _ => {
                    return Err(ParseError::TypeMismatch);
                },
            },
        };
        self.parse_for_tail(name, start)
    }

    /// The bound clause, increment clause and body of a repetition
    /// construct whose initializer has just been consumed.
    #[verifier::rlimit(100)]
    fn parse_for_tail(&mut self, name: String, start: i64) -> (r: Result<
        Option<Statement>,
        ParseError,
    >)
        requires
            old(self).spec_pos() >= 6,
        ensures
            final(self).spec_toks() == old(self).spec_toks(),
            (match sp_for_tail(
                old(self).spec_toks(),
                old(self).spec_pos() - 6,
                name@,
                start as int,
            ) {
                SpecStep::Found(stv, j) => r matches Ok(Some(st)) && stmt_view(st) == stv
                    && final(self).spec_pos() == j
                    && old(self).spec_pos() < j <= old(self).spec_toks().len(),
                SpecStep::NoMatch => false,
                SpecStep::Fail(e) => r matches Err(e2) && e2 == e,
            }),
        decreases toks_rem(self.stream.spec_toks(), self.stream.spec_pos()), 1int,
    {
        match self.stream.expect(TokenKind::Semicolon) {
            Ok(()) => {},
            Err(e) => {
                return Err(e);
            },
        }
        match self.stream.expect(TokenKind::Ident(name.clone())) {
            Ok(()) => {},
            Err(e) => {
                return Err(e);
            },
        }
        match self.stream.expect(TokenKind::Less) {
            Ok(()) => {},
            Err(e) => {
                return Err(e);
            },
        }
        let end = match self.stream.next() {
            None => {
                return Err(ParseError::UnexpectedEndOfInput);
            },
            Some(t) => match &t.kind {
                TokenKind::IntLit(v) => *v,
                _ => {
                    return Err(ParseError::TypeMismatch);
                },
            },
        };
        match self.stream.expect(TokenKind::Semicolon) {
            Ok(()) => {},
            Err(e) => {
                return Err(e);
            },
        }
        match self.stream.expect(TokenKind::Ident(name.clone())) {
            Ok(()) => {},
            Err(e) => {
                return Err(e);
            },
        }
        match self.stream.expect(TokenKind::PlusPlus) {
            Ok(()) => {},
            Err(e) => {
                return Err(e);
            },
        }
        match self.stream.expect(TokenKind::RightParen) {
            Ok(()) => {},
            Err(e) => {
                return Err(e);
            },
        }
        let body = match self.parse_block() {
            Ok(b) => b,
            Err(e) => {
                return Err(e);
            },
        };
        Ok(Some(Statement::ForLoop { var: name, start, end, body }))
    }
}

/// The label lookahead is pure read-ahead and commits to nothing: wherever
/// it rejects, the identifier at the cursor is parsed by the instruction
/// rule, never as a label.
pub proof fn lemma_no_label_means_instruction(toks: Seq<SpecToken>, i: int)
    requires
        0 <= i < toks.len(),
        toks[i].kind is Ident,
        !sp_is_label(toks, i),
    ensures
        sp_stmt(toks, i) == sp_instruction(toks, i),
{
}

/// The text with every leading marker character removed, as the directive's
/// name.
fn strip_marker(text: &String) -> (r: String)
    ensures
        r@ == strip_at(text@),
{
    let v = crate::tokens::str_chars(text.as_str());
    proof {
        assert(text@.skip(0) =~= text@);
    }
    let mut k: usize = 0;
    while k < v.len() && v[k] == '@'
        invariant
            k <= v@.len(),
            v@ == text@,
            strip_at(text@) == strip_at(text@.skip(k as int)),
        decreases v@.len() - k,
    {
        proof {
            let s = text@.skip(k as int);
            assert(s[0] == text@[k as int]);
            assert(s.subrange(1, s.len() as int) =~= text@.skip(k + 1));
        }
        k = k + 1;
    }
    proof {
        let s = text@.skip(k as int);
        if k < v.len() {
            assert(s[0] == text@[k as int]);
        }
        assert(strip_at(s) == s);
    }
    let r = crate::tokens::chars_to_string(&v, k, v.len());
    proof {
        assert(v@.subrange(k as int, v@.len() as int) =~= text@.skip(k as int));
    }
    r
}

} // verus!
