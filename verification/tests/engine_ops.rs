use toy_bnf::ast::parse;
use toy_bnf::engine::BuildError;
use toy_bnf::engine::Engine;
use toy_bnf::engine::GenerateError;
use toy_bnf::engine::MatchError;

fn build(src: &str) -> Engine {
    Engine::build(&parse(src).unwrap(), false).unwrap()
}

fn watch(names: &[&str]) -> Vec<String> {
    names.iter().map(|n| n.to_string()).collect()
}

#[test]
fn build_rejects_duplicate_names() {
    let rules = parse("<a> ::= \"x\"\n<b> ::= \"y\"\n<a> ::= \"z\"").unwrap();
    match Engine::build(&rules, false) {
        Err(BuildError::DuplicatedNames(d)) => {
            assert_eq!(d, vec!["a".to_string()]);
        },
        other => panic!("expected duplicated names, got {:?}", other.is_ok()),
    }
}

#[test]
fn build_reports_every_duplicated_name_as_a_set() {
    let rules = parse(
        "<a> ::= \"1\"\n<b> ::= \"2\"\n<a> ::= \"3\"\n<b> ::= \"4\"\n<a> ::= \"5\"",
    )
    .unwrap();
    match Engine::build(&rules, false) {
        Err(BuildError::DuplicatedNames(d)) => {
            let mut set = d.clone();
            set.sort();
            set.dedup();
            assert_eq!(set, vec!["a".to_string(), "b".to_string()]);
        },
        other => panic!("expected duplicated names, got {:?}", other.is_ok()),
    }
}

#[test]
fn build_rejects_undeclared_nonterminal() {
    let rules = parse("<a> ::= \"x\" <missing>").unwrap();
    match Engine::build(&rules, false) {
        Err(BuildError::InexistentNonTerminals(rule, name)) => {
            assert_eq!(rule, "a");
            assert_eq!(name, "missing");
        },
        other => panic!("expected undeclared report, got {:?}", other.is_ok()),
    }
}

#[test]
fn build_rejects_direct_left_recursion() {
    let rules = parse("<a> ::= <a>").unwrap();
    match Engine::build(&rules, false) {
        Err(BuildError::InfinityRecursion(name)) => assert_eq!(name, "a"),
        other => panic!("expected recursion report, got {:?}", other.is_ok()),
    }
}

#[test]
fn build_rejects_indirect_left_recursion() {
    let rules = parse("<a> ::= <b> \"x\"\n<b> ::= <a>").unwrap();
    match Engine::build(&rules, false) {
        Err(BuildError::InfinityRecursion(name)) => assert_eq!(name, "a"),
        other => panic!("expected recursion report, got {:?}", other.is_ok()),
    }
}

#[test]
fn build_accepts_recursion_behind_a_leading_terminal() {
    // The check only follows the leading atom of each variant, so this
    // grammar passes even though it can recurse forever.
    let rules = parse("<a> ::= \"x\" <a>").unwrap();
    assert!(Engine::build(&rules, false).is_ok());
}

#[test]
fn build_accepts_recursion_with_a_base_variant() {
    let rules = parse("<d> ::= \"0\" | \"1\"\n<n> ::= \"x\" <n> | <d>").unwrap();
    assert!(Engine::build(&rules, false).is_ok());
}

#[test]
fn match_is_anchored_at_the_start() {
    let eng = build("<x> ::= \"a\"");
    let r = eng.match_rule("x", &watch(&["x"]), "ba");
    assert!(matches!(r, Err(MatchError::NoMatches)));
}

#[test]
fn match_commits_to_the_first_matching_variant() {
    let eng = build("<x> ::= \"a\" | \"ab\"");
    let spans = eng.match_rule("x", &watch(&["x"]), "ab").unwrap();
    assert_eq!(spans, vec![(0, 1)]);
}

#[test]
fn match_reports_parent_before_children_in_order() {
    let eng = build("<s> ::= <a> <b>\n<a> ::= \"1\"\n<b> ::= \"2\"");
    let spans = eng.match_rule("s", &watch(&["s", "a", "b"]), "12").unwrap();
    assert_eq!(spans, vec![(0, 2), (0, 1), (1, 2)]);
}

#[test]
fn match_reports_only_watched_rules() {
    let eng = build("<s> ::= <a> <b>\n<a> ::= \"1\"\n<b> ::= \"2\"");
    let spans = eng.match_rule("s", &watch(&["b"]), "12").unwrap();
    assert_eq!(spans, vec![(1, 2)]);
}

#[test]
fn match_backtracks_across_failed_variants() {
    let eng = build("<s> ::= <d> \"!\"\n<d> ::= \"0\" | \"1\"");
    let spans = eng.match_rule("s", &watch(&["s", "d"]), "1!").unwrap();
    assert_eq!(spans, vec![(0, 2), (0, 1)]);
}

#[test]
fn match_ignores_text_past_the_match() {
    let eng = build("<x> ::= \"ab\"");
    let spans = eng.match_rule("x", &watch(&["x"]), "abcdef").unwrap();
    assert_eq!(spans, vec![(0, 2)]);
}

#[test]
fn match_empty_terminal_consumes_nothing() {
    let eng = build("<e> ::= \"\"");
    let spans = eng.match_rule("e", &watch(&["e"]), "").unwrap();
    assert_eq!(spans, vec![(0, 0)]);
}

#[test]
fn match_recursive_rule_spans_nest() {
    let eng = build("<n> ::= \"x\" <n> | \"y\"");
    let spans = eng.match_rule("n", &watch(&["n"]), "xxy").unwrap();
    assert_eq!(spans, vec![(0, 3), (1, 3), (2, 3)]);
}

#[test]
fn match_unknown_initial_rule_fails() {
    let eng = build("<x> ::= \"a\"");
    match eng.match_rule("zzz", &watch(&["x"]), "a") {
        Err(MatchError::BadInitialRule(name)) => assert_eq!(name, "zzz"),
        other => panic!("expected a bad initial rule, got {:?}", other.is_ok()),
    }
}

#[test]
fn match_unknown_watch_rule_fails() {
    let eng = build("<x> ::= \"a\"");
    match eng.match_rule("x", &watch(&["x", "nope"]), "a") {
        Err(MatchError::BadWatchRule(name)) => assert_eq!(name, "nope"),
        other => panic!("expected a bad watch rule, got {:?}", other.is_ok()),
    }
}

#[test]
fn generate_unknown_rule_fails() {
    let eng = build("<x> ::= \"a\"");
    match eng.gen_random("zzz") {
        Err(GenerateError::BadRule(name)) => assert_eq!(name, "zzz"),
        other => panic!("expected a bad rule, got {:?}", other.is_ok()),
    }
}

#[test]
fn generate_single_variant_grammar_is_deterministic() {
    let eng = build("<s> ::= <a> <b>\n<a> ::= \"1\"\n<b> ::= \"2\"");
    for _ in 0..16 {
        assert_eq!(eng.gen_random("s").unwrap(), "12");
    }
}

#[test]
fn generate_picks_among_the_variants() {
    let eng = build("<yn> ::= \"Yes\" | \"No\"");
    for _ in 0..32 {
        let s = eng.gen_random("yn").unwrap();
        assert!(s == "Yes" || s == "No", "unexpected expansion: {s}");
    }
}

#[test]
fn generate_then_match_round_trips_single_variant_grammar() {
    let eng = build("<s> ::= <a> <b> \"!\"\n<a> ::= \"one\"\n<b> ::= \"two\"");
    let s = eng.gen_random("s").unwrap();
    let spans = eng.match_rule("s", &watch(&["s"]), &s).unwrap();
    assert_eq!(spans, vec![(0, s.len())]);
}

#[test]
fn generate_then_match_round_trips_random_choices() {
    let eng = build("<yn> ::= \"Yes\" | \"No\"");
    for _ in 0..16 {
        let s = eng.gen_random("yn").unwrap();
        let spans = eng.match_rule("yn", &watch(&["yn"]), &s).unwrap();
        assert_eq!(spans, vec![(0, s.len())]);
    }
}

#[test]
fn generate_bounded_recursive_grammar_matches_back() {
    let eng = build("<n> ::= \"x\" <n> | \"y\"");
    for _ in 0..16 {
        let s = eng.gen_random("n").unwrap();
        assert!(s.ends_with('y'));
        let spans = eng.match_rule("n", &watch(&["n"]), &s).unwrap();
        assert_eq!(spans[0], (0, s.len()));
    }
}

#[test]
fn match_offsets_count_characters() {
    // Spans are reported in characters of the text, not bytes: the two-byte
    // letter still advances the cursor by one.
    let eng = build("<x> ::= \"\u{e9}a\"");
    let spans = eng.match_rule("x", &watch(&["x"]), "\u{e9}ab").unwrap();
    assert_eq!(spans, vec![(0, 2)]);
}

#[test]
fn match_date_like_grammar() {
    let eng = build(
        "<digit> ::= \"0\" | \"1\" | \"2\"\n<number> ::= <digit> <number> | <digit>\n<date> ::= <number> \"/\" <number>",
    );
    let spans = eng.match_rule("date", &watch(&["number"]), "210/12").unwrap();
    assert_eq!(spans, vec![(0, 3), (1, 3), (2, 3), (4, 6), (5, 6)]);
}
