use toy_bnf::ast::parse;
use toy_bnf::ast::Atom;
use toy_bnf::ast::ParseError;
use toy_bnf::lex::tokenize;
use toy_bnf::lex::LexError;
use toy_bnf::lex::Tk;

#[test]
fn tokenize_simple_rule() {
    let toks = tokenize("<a> ::= \"x\" | <b>").unwrap();
    assert_eq!(toks.len(), 9);
    assert!(matches!(&toks[0], Tk::Lt));
    assert!(matches!(&toks[1], Tk::Id(s) if s == "a"));
    assert!(matches!(&toks[2], Tk::Gt));
    assert!(matches!(&toks[3], Tk::Assign));
    assert!(matches!(&toks[4], Tk::Terminal(s) if s == "x"));
    assert!(matches!(&toks[5], Tk::Pipe));
    assert!(matches!(&toks[6], Tk::Lt));
    assert!(matches!(&toks[7], Tk::Id(s) if s == "b"));
    assert!(matches!(&toks[8], Tk::Gt));
}

#[test]
fn tokenize_keeps_newlines_and_skips_blanks() {
    let toks = tokenize(" \t\r\n | \n").unwrap();
    assert_eq!(toks.len(), 3);
    assert!(matches!(&toks[0], Tk::Nl));
    assert!(matches!(&toks[1], Tk::Pipe));
    assert!(matches!(&toks[2], Tk::Nl));
}

#[test]
fn tokenize_terminal_keeps_raw_escapes() {
    let toks = tokenize("\"a\\n\\\"b\"").unwrap();
    assert_eq!(toks.len(), 1);
    assert!(matches!(&toks[0], Tk::Terminal(s) if s == "a\\n\\\"b"));
}

#[test]
fn tokenize_rejects_unexpected_character() {
    let err = tokenize("<a> @").unwrap_err();
    let LexError::Unexpected(line, txt) = err;
    assert_eq!(line, 0);
    assert_eq!(txt, "@");
}

#[test]
fn tokenize_counts_lines_before_error() {
    let err = tokenize("\n\n@").unwrap_err();
    let LexError::Unexpected(line, txt) = err;
    assert_eq!(line, 2);
    assert_eq!(txt, "@");
}

#[test]
fn tokenize_unterminated_terminal_fails() {
    let err = tokenize("\"abc").unwrap_err();
    let LexError::Unexpected(line, txt) = err;
    assert_eq!(line, 0);
    assert_eq!(txt, "\"");
}

#[test]
fn tokenize_lone_colon_fails() {
    let err = tokenize(": =").unwrap_err();
    let LexError::Unexpected(_, txt) = err;
    assert_eq!(txt, ":");
}

#[test]
fn tokenize_newline_inside_terminal_is_content() {
    let toks = tokenize("\"a\nb\"").unwrap();
    assert_eq!(toks.len(), 1);
    assert!(matches!(&toks[0], Tk::Terminal(s) if s == "a\nb"));
}

#[test]
fn parse_single_rule() {
    let rules = parse("<yes_or_no> ::= \"Yes\" | \"No\"").unwrap();
    assert_eq!(rules.len(), 1);
    assert_eq!(rules[0].name, "yes_or_no");
    assert_eq!(rules[0].variants.len(), 2);
    assert_eq!(rules[0].variants[0].items.len(), 1);
    assert!(matches!(&rules[0].variants[0].items[0], Atom::Terminal { content } if content == "Yes"));
    assert!(matches!(&rules[0].variants[1].items[0], Atom::Terminal { content } if content == "No"));
}

#[test]
fn parse_two_rules_with_nonterminals() {
    let rules = parse("<echo_yn> ::= \"echo\" <yn>\n<yn> ::= \"y\"").unwrap();
    assert_eq!(rules.len(), 2);
    assert_eq!(rules[0].name, "echo_yn");
    assert_eq!(rules[0].variants.len(), 1);
    assert_eq!(rules[0].variants[0].items.len(), 2);
    assert!(matches!(&rules[0].variants[0].items[0], Atom::Terminal { content } if content == "echo"));
    assert!(matches!(&rules[0].variants[0].items[1], Atom::NonTerminal { name } if name == "yn"));
    assert_eq!(rules[1].name, "yn");
}

#[test]
fn parse_variant_on_next_line() {
    let rules = parse("<d> ::= \"0\"\n | \"1\"").unwrap();
    assert_eq!(rules.len(), 1);
    assert_eq!(rules[0].variants.len(), 2);
}

#[test]
fn parse_resolves_escapes() {
    let rules = parse("<t> ::= \"a\\nb\\tc\\rd\\\\e\\\"f\"").unwrap();
    assert!(
        matches!(&rules[0].variants[0].items[0], Atom::Terminal { content } if content == "a\nb\tc\rd\\e\"f")
    );
}

#[test]
fn parse_escape_of_unknown_character_drops_backslash() {
    let rules = parse("<t> ::= \"\\q\"").unwrap();
    assert!(matches!(&rules[0].variants[0].items[0], Atom::Terminal { content } if content == "q"));
}

#[test]
fn parse_empty_terminal() {
    let rules = parse("<e> ::= \"\"").unwrap();
    assert!(matches!(&rules[0].variants[0].items[0], Atom::Terminal { content } if content.is_empty()));
}

#[test]
fn parse_missing_assign_names_rule() {
    let err = parse("<a> \"x\"").unwrap_err();
    match err {
        ParseError::InRule(name, inner) => {
            assert_eq!(name, "a");
            assert!(matches!(*inner, ParseError::UnexpectedHint(_, _, hint) if hint == "'::='"));
        },
        other => panic!("unexpected error shape: {other:?}"),
    }
}

#[test]
fn parse_empty_variant_reports_atom_error() {
    let err = parse("<a> ::= |").unwrap_err();
    match err {
        ParseError::InRule(name, inner) => {
            assert_eq!(name, "a");
            match *inner {
                ParseError::InVariant(idx, atom_err) => {
                    assert_eq!(idx, 1);
                    assert!(matches!(*atom_err, ParseError::InAtom(_)));
                },
                other => panic!("unexpected error shape: {other:?}"),
            }
        },
        other => panic!("unexpected error shape: {other:?}"),
    }
}

#[test]
fn parse_stray_token_between_rules() {
    let err = parse("<a> ::= \"x\"\n> <b>").unwrap_err();
    assert!(matches!(err, ParseError::InFile(_)));
}

#[test]
fn parse_lex_error_is_wrapped() {
    let err = parse("<a> ::= @").unwrap_err();
    match err {
        ParseError::Lex(LexError::Unexpected(line, txt)) => {
            assert_eq!(line, 0);
            assert_eq!(txt, "@");
        },
        other => panic!("unexpected error shape: {other:?}"),
    }
}

#[test]
fn parse_error_escapes_quotes_and_backslashes_in_token_text() {
    // A stray terminal after a complete rule; its raw content is q \ " z,
    // which the diagnostic renders with both escaped.
    let err = parse("<a> ::= \"x\"\n\"q\\\"z\"").unwrap_err();
    match err {
        ParseError::InFile(inner) => match *inner {
            ParseError::UnexpectedHint(_, tk, _) => {
                assert_eq!(tk, "Terminal(\"q\\\\\\\"z\")");
            },
            other => panic!("unexpected error shape: {other:?}"),
        },
        other => panic!("unexpected error shape: {other:?}"),
    }
}

#[test]
fn parse_error_escapes_newline_in_token_text() {
    // A stray terminal whose raw content holds a real newline; the
    // diagnostic renders it as the two characters backslash and n.
    let err = parse("<a> ::= \"x\"\n\"p\nq\"").unwrap_err();
    match err {
        ParseError::InFile(inner) => match *inner {
            ParseError::UnexpectedHint(_, tk, _) => {
                assert_eq!(tk, "Terminal(\"p\\nq\")");
            },
            other => panic!("unexpected error shape: {other:?}"),
        },
        other => panic!("unexpected error shape: {other:?}"),
    }
}

#[test]
fn parse_reports_eof() {
    let err = parse("<a> ::= \"x\" <").unwrap_err();
    let mut e = &err;
    loop {
        match e {
            ParseError::InRule(_, inner) => e = inner,
            ParseError::InVariant(_, inner) => e = inner,
            ParseError::InAtom(inner) => e = inner,
            ParseError::InFile(inner) => e = inner,
            ParseError::UnexpectedHint(_, tk, _) => {
                assert_eq!(tk, "EOF");
                break;
            },
            ParseError::Lex(_) => panic!("unexpected lex error"),
        }
    }
}
