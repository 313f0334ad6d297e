use cfg::cfg::CFG;
use cfg::parser::{parse_grammar, read_line, token_for, Line, ParseError, ParseErrorKind};
use cfg::productionrule::ProductionRule;
use cfg::text::{
    char_is_ascii_whitespace, char_is_space, char_is_whitespace, char_to_string,
    is_ascii_uppercase, lines_of, normalize_input, to_chars, to_string, trimmed,
};
use cfg::token::Token;

fn t(name: &str) -> Token {
    Token::Terminal(name.to_string())
}

fn v(name: &str) -> Token {
    Token::Variable(name.to_string())
}

fn seq(tokens: Vec<Token>) -> ProductionRule {
    ProductionRule::Sequence(tokens)
}

fn chars(s: &str) -> Vec<char> {
    s.chars().collect()
}

#[test]
fn characters_and_strings() {
    assert_eq!(to_chars("a→b"), vec!['a', '→', 'b']);
    assert_eq!(to_chars(""), Vec::<char>::new());
    assert_eq!(char_to_string('a'), "a");
    assert_eq!(char_to_string('→'), "→");
    assert_eq!(to_string(&vec!['S', '-', '>']), "S->");
    assert_eq!(to_string(&vec![]), "");
}

#[test]
fn lines_are_split_at_line_feeds() {
    assert_eq!(lines_of(&chars("")), vec![chars("")]);
    assert_eq!(lines_of(&chars("ab")), vec![chars("ab")]);
    assert_eq!(lines_of(&chars("a\nb")), vec![chars("a"), chars("b")]);
    assert_eq!(lines_of(&chars("a\n\nb\n")), vec![chars("a"), chars(""), chars("b"), chars("")]);
}

#[test]
fn trimming_takes_white_space_from_both_ends() {
    assert_eq!(trimmed(&chars("  a b\t\r"), false), chars("a b"));
    assert_eq!(trimmed(&chars(" \t "), false), chars(""));
    assert_eq!(trimmed(&chars(""), false), chars(""));
    assert_eq!(trimmed(&chars("ab"), false), chars("ab"));
    assert_eq!(trimmed(&chars("\u{a0}a\u{2003}"), false), chars("a"));
    assert_eq!(trimmed(&chars("\u{a0}a\u{2003} "), true), chars("\u{a0}a\u{2003}"));
    assert_eq!(trimmed(&chars("\u{b}a\u{b}"), false), chars("a"));
    assert_eq!(trimmed(&chars("\u{b}a\u{b}"), true), chars("\u{b}a\u{b}"));
}

#[test]
fn input_is_trimmed_and_loses_its_marks() {
    assert_eq!(normalize_input("  aab\n"), "aab");
    assert_eq!(normalize_input("!\n"), "");
    assert_eq!(normalize_input("a!b!!c"), "abc");
    assert_eq!(normalize_input(" a b "), "a b");
    assert_eq!(normalize_input(""), "");
    assert_eq!(normalize_input("\u{a0}a"), "\u{a0}a");
}

#[test]
fn tokens_of_characters() {
    assert_eq!(token_for('A'), v("A"));
    assert_eq!(token_for('Z'), v("Z"));
    assert_eq!(token_for('a'), t("a"));
    assert_eq!(token_for('+'), t("+"));
    assert_eq!(token_for('!'), t("!"));
    assert_eq!(token_for('É'), t("É"));
    assert_eq!(token_for('['), t("["));
    assert_eq!(token_for('@'), t("@"));
}

#[test]
fn reads_a_production_line() {
    match read_line(&chars("S->aSb")) {
        Line::Production(lhs, rule) => {
            assert_eq!(lhs, v("S"));
            assert_eq!(rule, seq(vec![t("a"), v("S"), t("b")]));
        }
        _ => panic!("a production was expected"),
    }
    match read_line(&chars("T->!")) {
        Line::Production(lhs, rule) => {
            assert_eq!(lhs, v("T"));
            assert_eq!(rule, ProductionRule::Empty);
        }
        _ => panic!("a production was expected"),
    }
    match read_line(&chars("T->a!")) {
        Line::Production(_, rule) => assert_eq!(rule, seq(vec![t("a"), t("!")])),
        _ => panic!("a production was expected"),
    }
    match read_line(&chars("T->!!")) {
        Line::Production(_, rule) => assert_eq!(rule, seq(vec![t("!"), t("!")])),
        _ => panic!("a production was expected"),
    }
}

#[test]
fn splits_a_line_once_at_the_arrow() {
    match read_line(&chars("S->a->b")) {
        Line::Production(lhs, rule) => {
            assert_eq!(lhs, v("S"));
            assert_eq!(rule, seq(vec![t("a"), t("-"), t(">"), t("b")]));
        }
        _ => panic!("a production was expected"),
    }
}

#[test]
fn ignores_lines_that_do_not_begin_with_an_uppercase_letter() {
    assert!(matches!(read_line(&chars("")), Line::Ignored));
    assert!(matches!(read_line(&chars("7")), Line::Ignored));
    assert!(matches!(read_line(&chars("s->a")), Line::Ignored));
    assert!(matches!(read_line(&chars("->a")), Line::Ignored));
    assert!(matches!(read_line(&chars("# S->a")), Line::Ignored));
    assert!(matches!(read_line(&chars("Éa")), Line::Ignored));
}

#[test]
fn rejects_malformed_production_lines() {
    assert!(matches!(read_line(&chars("S")), Line::Malformed(ParseErrorKind::MissingArrow)));
    assert!(matches!(read_line(&chars("S-a")), Line::Malformed(ParseErrorKind::MissingArrow)));
    assert!(matches!(read_line(&chars("S>a")), Line::Malformed(ParseErrorKind::MissingArrow)));
    assert!(matches!(read_line(&chars("S-")), Line::Malformed(ParseErrorKind::MissingArrow)));
    assert!(matches!(read_line(&chars("SS->a")), Line::Malformed(ParseErrorKind::InvalidVariable)));
    assert!(matches!(read_line(&chars("Sa->a")), Line::Malformed(ParseErrorKind::InvalidVariable)));
    assert!(matches!(read_line(&chars("S ->a")), Line::Malformed(ParseErrorKind::InvalidVariable)));
    assert!(matches!(read_line(&chars("S->")), Line::Malformed(ParseErrorKind::EmptyProduction)));
    assert!(matches!(read_line(&chars("SS->")), Line::Malformed(ParseErrorKind::InvalidVariable)));
}

#[test]
fn parses_productions_in_source_order() {
    let grammar = parse_grammar("S->T+T\nT->1\nT->2\nT->S\n").unwrap();
    assert_eq!(grammar.productions.len(), 2);
    assert_eq!(grammar.productions[0].0, v("S"));
    assert_eq!(grammar.productions[0].1, vec![seq(vec![v("T"), t("+"), v("T")])]);
    assert_eq!(grammar.productions[1].0, v("T"));
    assert_eq!(
        grammar.productions[1].1,
        vec![seq(vec![t("1")]), seq(vec![t("2")]), seq(vec![v("S")])]
    );
    assert_eq!(grammar.variables, vec![v("S"), v("T")]);
    assert_eq!(grammar.alphabet, vec![t("+"), t("1"), t("2")]);
}

#[test]
fn parses_interleaved_and_repeated_productions() {
    let grammar = parse_grammar("A->a\nB->b\nA->a\nA->!\nB->A").unwrap();
    assert_eq!(grammar.productions.len(), 2);
    assert_eq!(grammar.productions[0].0, v("A"));
    assert_eq!(
        grammar.productions[0].1,
        vec![seq(vec![t("a")]), seq(vec![t("a")]), ProductionRule::Empty]
    );
    assert_eq!(grammar.productions[1].0, v("B"));
    assert_eq!(grammar.productions[1].1, vec![seq(vec![t("b")]), seq(vec![v("A")])]);
    assert_eq!(grammar.variables, vec![v("A"), v("B")]);
    assert_eq!(grammar.alphabet, vec![t("a"), t("b")]);
}

#[test]
fn parses_around_counts_blanks_and_white_space() {
    let text = "\n   7 \n\t S->XY \r\n\n X->!\n   Y->y\n these lines are no productions\n";
    let grammar = text.parse::<CFG>().unwrap();
    assert_eq!(grammar.variables, vec![v("S"), v("X"), v("Y")]);
    assert_eq!(grammar.productions[0].1, vec![seq(vec![v("X"), v("Y")])]);
    assert_eq!(grammar.productions[1].1, vec![ProductionRule::Empty]);
    assert_eq!(grammar.productions[2].1, vec![seq(vec![t("y")])]);
    assert_eq!(grammar.alphabet, vec![t("y")]);
}

#[test]
fn parses_the_empty_text() {
    let grammar = parse_grammar("").unwrap();
    assert!(grammar.productions.is_empty());
    assert!(grammar.alphabet.is_empty());
    assert!(grammar.variables.is_empty());
    let same = CFG::default();
    assert!(same.productions.is_empty() && same.alphabet.is_empty() && same.variables.is_empty());
}

#[test]
fn parse_keeps_white_space_inside_a_line() {
    let grammar = parse_grammar("S->a b").unwrap();
    assert_eq!(grammar.productions[0].1, vec![seq(vec![t("a"), t(" "), t("b")])]);
    assert_eq!(grammar.alphabet, vec![t("a"), t(" "), t("b")]);
}

#[test]
fn parse_fails_on_the_first_malformed_line() {
    assert_eq!(
        parse_grammar("S->a\nT\nUU->a").unwrap_err(),
        ParseError { line: 1, kind: ParseErrorKind::MissingArrow }
    );
    assert_eq!(
        parse_grammar("3\nS->a\n\nUU->a\nT").unwrap_err(),
        ParseError { line: 3, kind: ParseErrorKind::InvalidVariable }
    );
    assert_eq!(
        parse_grammar("  S->  ").unwrap_err(),
        ParseError { line: 0, kind: ParseErrorKind::EmptyProduction }
    );
    assert_eq!(
        "S->a\nS".parse::<CFG>().unwrap_err(),
        ParseError { line: 1, kind: ParseErrorKind::MissingArrow }
    );
}

#[test]
fn grammar_clone_keeps_everything() {
    let grammar = parse_grammar("S->aSb\nS->!\nT->S").unwrap();
    let copy = grammar.clone();
    assert_eq!(copy.productions, grammar.productions);
    assert_eq!(copy.alphabet, grammar.alphabet);
    assert_eq!(copy.variables, grammar.variables);
}

#[test]
fn add_production_by_hand() {
    let mut grammar = CFG::default();
    grammar.add_production(v("S"), seq(vec![t("a"), v("S"), t("a")]));
    grammar.add_production(v("T"), seq(vec![t("b")]));
    grammar.add_production(v("S"), ProductionRule::Empty);
    assert_eq!(grammar.variables, vec![v("S"), v("T")]);
    assert_eq!(grammar.alphabet, vec![t("a"), t("b")]);
    assert_eq!(
        grammar.productions[0].1,
        vec![seq(vec![t("a"), v("S"), t("a")]), ProductionRule::Empty]
    );
    assert_eq!(grammar.productions[1].1, vec![seq(vec![t("b")])]);
}

#[test]
fn longest_right_hand_side() {
    assert_eq!(parse_grammar("").unwrap().longest_derivation_length(), 0);
    assert_eq!(parse_grammar("S->!\nT->!").unwrap().longest_derivation_length(), 0);
    assert_eq!(parse_grammar("S->a").unwrap().longest_derivation_length(), 1);
    assert_eq!(parse_grammar("S->T+T\nT->1\nT->2\nT->S").unwrap().longest_derivation_length(), 3);
    assert_eq!(
        parse_grammar("S->T1T1T1T\nT->0T\nT->1T\nT->!").unwrap().longest_derivation_length(),
        7
    );
    assert_eq!(parse_grammar("S->a\nS->b\nS->c\nS->ab").unwrap().longest_derivation_length(), 2);
}

#[test]
fn token_names() {
    assert_eq!(t("a").name(), "a");
    assert_eq!(v("S").name(), "S");
}

#[test]
fn writes_a_line_for_each_rule() {
    let grammar = parse_grammar("3\nA->a\n  B->bA\nA->!\n\nB->A").unwrap();
    assert_eq!(grammar.to_text(), "A->a\nA->!\nB->bA\nB->A\n");
    assert_eq!(CFG::default().to_text(), "");
}

#[test]
fn a_grammar_written_and_read_again_has_the_same_productions() {
    let texts = [
        "S->T+T\nT->1\nT->2\nT->S",
        "7\nS->XY\nS->!\nX->AX\nX->!\nA->a\nY->BY\nY->!\nB->b",
        "A->a\nB->b\nA->a\nA->!\nB->A\nA->B b",
        "S-> a\nS->!!\nS->->\nS->é!\n",
        "",
    ];
    for text in texts {
        let first = parse_grammar(text).unwrap();
        let second = parse_grammar(&first.to_text()).unwrap();
        assert_eq!(second.productions, first.productions);
        assert_eq!(second.variables, first.variables);
        assert_eq!(second.to_text(), first.to_text());
    }
}

#[test]
fn kinds_of_characters_are_those_of_the_standard_library() {
    for code in 0..=0x10ffff_u32 {
        if let Some(c) = char::from_u32(code) {
            assert_eq!(char_is_whitespace(c), c.is_whitespace());
            assert_eq!(char_is_ascii_whitespace(c), c.is_ascii_whitespace());
            assert_eq!(char_is_space(c, false), c.is_whitespace());
            assert_eq!(char_is_space(c, true), c.is_ascii_whitespace());
            assert_eq!(is_ascii_uppercase(c), c.is_ascii_uppercase());
        }
    }
}
