//! End-to-end checks of the lexer and parser over concrete source texts.

use chasm::lexer::input_fits;
use chasm::parser::{Parser, Statement, TokenStream};
use chasm::tokens::{parse_char, parse_content, parse_string, to_dec_string, ParseError, TokenKind};

fn parse_all(input: &str) -> Vec<Statement> {
    let mut p = Parser::new(input).expect("lexing failed");
    p.parse().expect("parsing failed")
}

fn parse_err(input: &str) -> ParseError {
    let mut p = Parser::new(input).expect("lexing failed");
    p.parse().expect_err("parsing unexpectedly succeeded")
}

fn kinds(input: &str) -> Vec<TokenKind> {
    let mut ts = TokenStream::new(input).expect("lexing failed");
    let mut out = Vec::new();
    while let Some(t) = ts.next() {
        out.push(t.kind.clone());
    }
    out
}

#[test]
fn radix_literals_decode_to_the_same_value() {
    assert_eq!(
        kinds("0xFF 0b1011 0o77 1234"),
        vec![
            TokenKind::HexLit(255),
            TokenKind::BinLit(11),
            TokenKind::OctLit(63),
            TokenKind::IntLit(1234),
        ]
    );
}

#[test]
fn radix_content_decodes_and_rerenders_in_decimal() {
    assert_eq!(parse_content("0xFF"), 255);
    assert_eq!(parse_content("0b1011"), 11);
    assert_eq!(parse_content("0o77"), 63);
    assert_eq!(parse_content("1234"), 1234);
    assert_eq!(to_dec_string(255), "255");
    assert_eq!(to_dec_string(11), "11");
    assert_eq!(to_dec_string(63), "63");
    assert_eq!(to_dec_string(1234), "1234");
    assert_eq!(to_dec_string(-42), "-42");
    assert_eq!(to_dec_string(0), "0");
}

#[test]
fn string_escapes_round_trip() {
    // decoding the inverse-escaped text reproduces the plain content
    assert_eq!(parse_string("\"a\\nb\\tc\\rd\\0e\\'f\\\"g\\\\h\""), "a\nb\tc\rd\0e'f\"g\\h");
    assert_eq!(parse_string("\"plain\""), "plain");
    // an unknown escape passes the escaped character through literally
    assert_eq!(parse_string("\"a\\qb\""), "aqb");
}

#[test]
fn char_literals_decode() {
    assert_eq!(parse_char("'A'"), 'A');
    assert_eq!(parse_char("'\\n'"), '\n');
    assert_eq!(parse_char("'\\\\'"), '\\');
}

#[test]
fn lookahead_is_side_effect_free_on_non_match() {
    // two identifiers and no colon: one instruction, never a label
    let ast = parse_all("R1 R2");
    assert_eq!(
        ast,
        vec![Statement::Instruction { name: "R1".to_string(), args: vec!["R2".to_string()] }]
    );
}

#[test]
fn three_label_forms_drop_their_punctuation() {
    assert_eq!(parse_all("label:"), vec![Statement::Label("label".to_string())]);
    assert_eq!(parse_all(".local:"), vec![Statement::Label("local".to_string())]);
    assert_eq!(parse_all("::global:"), vec![Statement::Label("global".to_string())]);
}

#[test]
fn for_loop_nests_and_balances() {
    let ast = parse_all("for!(var i = 0; i < 4; i++) { R1 = R1 + i }");
    assert_eq!(
        ast,
        vec![Statement::ForLoop {
            var: "i".to_string(),
            start: 0,
            end: 4,
            body: vec![
                Statement::Instruction { name: "R1".to_string(), args: vec![] },
                Statement::Instruction { name: "R1".to_string(), args: vec![] },
                Statement::Instruction { name: "i".to_string(), args: vec![] },
            ],
        }]
    );
}

#[test]
fn for_loop_with_empty_body() {
    let ast = parse_all("for!(var i = 0; i < 0; i++) {}");
    assert_eq!(
        ast,
        vec![Statement::ForLoop { var: "i".to_string(), start: 0, end: 0, body: vec![] }]
    );
}

#[test]
fn for_loop_with_mismatched_variable_is_fatal() {
    assert_eq!(parse_err("for!(var i = 0; j < 4; i++) {}"), ParseError::UnexpectedToken);
}

#[test]
fn unrecognized_token_is_skipped() {
    let ast = parse_all("$ var x = 5");
    assert_eq!(ast, vec![Statement::VarAssign { name: "x".to_string(), expr: 5 }]);
}

#[test]
fn lexing_twice_yields_identical_tokens() {
    let input = "var x = 0x10 \"s\\n\" 'c' label: ++ -- :: @dir";
    let mut a = TokenStream::new(input).expect("lexing failed");
    let mut b = TokenStream::new(input).expect("lexing failed");
    loop {
        match (a.next(), b.next()) {
            (Some(t1), Some(t2)) => {
                assert_eq!(t1, t2);
            },
            (None, None) => break,
            _ => panic!("token sequences differ in length"),
        }
    }
}

#[test]
fn var_and_const_assignments() {
    let ast = parse_all("var x = 10 const y = 20");
    assert_eq!(
        ast,
        vec![
            Statement::VarAssign { name: "x".to_string(), expr: 10 },
            Statement::ConstAssign { name: "y".to_string(), expr: 20 },
        ]
    );
}

#[test]
fn assignment_errors() {
    assert_eq!(parse_err("var = 5"), ParseError::MissingName);
    assert_eq!(parse_err("var x = y"), ParseError::TypeMismatch);
    assert_eq!(parse_err("var x ="), ParseError::UnexpectedEndOfInput);
    assert_eq!(parse_err("const x 5"), ParseError::UnexpectedToken);
}

#[test]
fn bad_char_escape_is_a_fatal_lexing_error() {
    assert_eq!(Parser::new("'\\x'").err(), Some(ParseError::InvalidEscape));
}

#[test]
fn file_import_takes_the_raw_string_text() {
    let kw = format!("inc{}", "lude");
    let ast = parse_all(&format!("{} \"testfile.asm\"", kw));
    assert_eq!(ast, vec![Statement::Include("\"testfile.asm\"".to_string())]);
}

#[test]
fn file_import_needs_a_string_literal() {
    let kw = format!("inc{}", "lude");
    assert_eq!(parse_err(&format!("{} 42", kw)), ParseError::UnexpectedToken);
}

#[test]
fn template_definition_keeps_params_and_body() {
    let kw = format!("macro_rules{}", "!");
    let ast = parse_all(&format!("{} add2(reg1, reg2) {{ nand reg1 reg2 }}", kw));
    assert_eq!(
        ast,
        vec![Statement::MacroDef {
            name: "add2".to_string(),
            params: vec!["reg1".to_string(), "reg2".to_string()],
            body: vec![Statement::Instruction {
                name: "nand".to_string(),
                args: vec!["reg1".to_string(), "reg2".to_string()],
            }],
        }]
    );
}

#[test]
fn template_without_name_is_fatal() {
    let kw = format!("macro_rules{}", "!");
    assert_eq!(parse_err(&format!("{} (a) {{}}", kw)), ParseError::MissingName);
}

#[test]
fn directive_strips_marker_and_collects_args() {
    let ast = parse_all("@define SIZE 32");
    assert_eq!(
        ast,
        vec![Statement::Directive {
            name: "define".to_string(),
            args: vec!["SIZE".to_string(), "32".to_string()],
        }]
    );
}

#[test]
fn instruction_argument_kinds() {
    // raw string text keeps its quotes; a char renders as itself; an
    // integer renders in decimal; a hex literal is not an argument kind
    let ast = parse_all("mov \"hi\" 'A' 7 x 0xFF");
    assert_eq!(
        ast,
        vec![Statement::Instruction {
            name: "mov".to_string(),
            args: vec![
                "\"hi\"".to_string(),
                "A".to_string(),
                "7".to_string(),
                "x".to_string(),
            ],
        }]
    );
}

#[test]
fn two_character_operators_take_priority() {
    assert_eq!(
        kinds("++ + -- - >> > << < && & || | :: :"),
        vec![
            TokenKind::PlusPlus,
            TokenKind::Plus,
            TokenKind::MinusMinus,
            TokenKind::Minus,
            TokenKind::GreaterGreater,
            TokenKind::Greater,
            TokenKind::LessLess,
            TokenKind::Less,
            TokenKind::AmpAmp,
            TokenKind::Amp,
            TokenKind::PipePipe,
            TokenKind::Pipe,
            TokenKind::DoubleColon,
            TokenKind::Colon,
        ]
    );
}

#[test]
fn keywords_win_only_at_exact_length() {
    assert_eq!(
        kinds("var variable const constant"),
        vec![
            TokenKind::Var,
            TokenKind::Ident("variable".to_string()),
            TokenKind::Const,
            TokenKind::Ident("constant".to_string()),
        ]
    );
}

#[test]
fn unterminated_string_is_dropped_character_by_character() {
    assert_eq!(kinds("\"abc"), vec![TokenKind::Ident("abc".to_string())]);
}

#[test]
fn standalone_block_parses() {
    let ast = parse_all("{ var x = 1 }");
    assert_eq!(
        ast,
        vec![Statement::Block(vec![Statement::VarAssign { name: "x".to_string(), expr: 1 }])]
    );
}

#[test]
fn unclosed_block_is_fatal() {
    assert_eq!(parse_err("{ var x = 1"), ParseError::UnexpectedEndOfInput);
}

#[test]
fn stream_cursor_operations() {
    let mut ts = TokenStream::new("var x").expect("lexing failed");
    assert!(!ts.eof());
    assert_eq!(ts.peek().unwrap().kind, TokenKind::Var);
    assert_eq!(ts.peek().unwrap().kind, TokenKind::Var);
    assert!(ts.expect(TokenKind::Var).is_ok());
    assert_eq!(ts.next().unwrap().kind, TokenKind::Ident("x".to_string()));
    assert!(ts.eof());
    assert_eq!(ts.expect(TokenKind::Colon), Err(ParseError::UnexpectedEndOfInput));
}

#[test]
fn free_form_content_values() {
    assert_eq!(parse_content("'A'"), 65);
    assert_eq!(parse_content("'\\n'"), 10);
    assert_eq!(parse_content("-17"), -17);
    assert_eq!(parse_content("something"), -1);
}

#[test]
fn input_fits_decides_the_literal_bound() {
    assert!(input_fits("0xFF 0b1011 0o77 1234"));
    assert!(input_fits("9223372036854775807"));
    assert!(!input_fits("9223372036854775808"));
    assert!(!input_fits("0xFFFFFFFFFFFFFFFF"));
    // a huge digit run inside a string literal is only text
    assert!(input_fits("\"99999999999999999999999\""));
    // a bad escape stops lexing before a later oversized literal matters
    assert!(input_fits("'\\x' 99999999999999999999"));
}

#[test]
fn global_label_lookahead_leaves_a_plain_double_colon_alone() {
    // a double colon not followed by identifier-and-colon is no label
    // pattern: both stray tokens are skipped and the instruction stands
    let ast = parse_all(":: mov x");
    assert_eq!(
        ast,
        vec![Statement::Instruction { name: "mov".to_string(), args: vec!["x".to_string()] }]
    );
}
