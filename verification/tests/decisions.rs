use cfg::bound::{bound, decide, BoundError, DecideError};
use cfg::cfg::CFG;
use cfg::parser::{parse_grammar, ParseError, ParseErrorKind};
use cfg::pda::PDA;
use cfg::productionrule::ProductionRule;
use cfg::token::Token;

fn grammar(text: &str) -> CFG {
    parse_grammar(text).unwrap()
}

/// The verdict of each of the three searches, which must agree.
fn verdict(g: &CFG, input: &str, budget: isize) -> bool {
    let by_grammar = g.trace_string(input, budget);
    let mut pda = PDA::with_cfg(g, budget);
    assert_eq!(pda.trace(input), by_grammar);
    assert_eq!(pda.trace_bfs(input), by_grammar);
    by_grammar
}

#[test]
fn empty_production() {
    let g = grammar("S->!");
    assert!(verdict(&g, "", 100));
    assert!(!verdict(&g, "a", 100));
}

#[test]
fn matched_pairs() {
    let g = grammar("S->aSb\nS->!");
    assert!(verdict(&g, "aaabbb", 100));
    assert!(!verdict(&g, "aabbb", 100));
    assert!(!verdict(&g, "aaab", 100));
}

#[test]
fn sums() {
    let g = grammar("S->T+T\nT->1\nT->2\nT->S");
    assert!(verdict(&g, "1+1", 100));
    assert!(verdict(&g, "1+2+1+2", 100));
    assert!(!verdict(&g, "+2+1+2", 100));
    assert!(!verdict(&g, "+", 100));
}

#[test]
fn palindromes() {
    let g = grammar("S->0\nS->1\nS->!\nS->0S0\nS->1S1");
    assert!(verdict(&g, "", 100));
    assert!(verdict(&g, "101101", 100));
    assert!(verdict(&g, "1011101", 100));
    assert!(!verdict(&g, "100", 100));
}

#[test]
fn balanced_letters_within_a_small_bound() {
    let g = grammar("S->aSb\nS->bSa\nS->!\nS->SS");
    assert!(verdict(&g, "ababab", 6));
    assert!(verdict(&g, "aaabbb", 6));
    assert!(!verdict(&g, "aba", 6));
    assert!(verdict(&g, "abba", 8));
}

#[test]
fn three_ones() {
    let g = grammar("S->T1T1T1T\nT->0T\nT->1T\nT->!");
    assert!(verdict(&g, "111", 100));
    assert!(verdict(&g, "0001011", 100));
    assert!(verdict(&g, "10101", 100));
    // Every string of the language holds three times `1`; this one holds two.
    assert!(!verdict(&g, "000101", 100));
    assert!(!verdict(&g, "11", 100));
}

#[test]
fn a_larger_bound_keeps_a_yes_and_may_turn_a_no() {
    let g = grammar("S->aSb\nS->!");
    // "aabb" takes three expansions, and the bound must be one more.
    assert!(!verdict(&g, "aabb", 0));
    assert!(!verdict(&g, "aabb", 3));
    assert!(verdict(&g, "aabb", 4));
    assert!(verdict(&g, "aabb", 5));
    assert!(verdict(&g, "aabb", 50));
}

#[test]
fn the_empty_input_needs_a_bound_above_the_expansions() {
    let g = grammar("S->!");
    assert!(!verdict(&g, "", 0));
    assert!(!verdict(&g, "", 1));
    assert!(verdict(&g, "", 2));
    let chain = grammar("S->AB\nA->!\nB->A");
    // S => AB => B => A => (nothing): four expansions.
    assert!(!verdict(&chain, "", 4));
    assert!(verdict(&chain, "", 5));
    let never = grammar("S->a\nS->SS");
    assert!(!verdict(&never, "", 7));
}

#[test]
fn a_negative_budget_allows_nothing() {
    let g = grammar("S->!");
    assert!(!verdict(&g, "", -1));
    assert!(!verdict(&g, "", isize::MIN));
}

#[test]
fn a_character_outside_the_alphabet_is_never_accepted() {
    let g = grammar("S->aSb\nS->!\nS->SS");
    assert!(!verdict(&g, "acb", 7));
    assert!(!verdict(&g, "c", 7));
    assert!(!verdict(&g, "abS", 7));
    assert!(!verdict(&g, "ab ", 7));
}

#[test]
fn a_variable_without_productions_fails_its_branch_only() {
    let g = grammar("S->Xa\nS->a");
    assert!(verdict(&g, "a", 100));
    assert!(!verdict(&g, "aa", 100));
    let only = grammar("S->X");
    assert!(!verdict(&only, "", 100));
}

#[test]
fn a_grammar_without_start_variable_accepts_nothing() {
    assert!(!verdict(&grammar("T->a"), "a", 100));
    assert!(!verdict(&grammar(""), "", 100));
}

#[test]
fn a_looping_grammar_ends_within_its_bound() {
    let g = grammar("S->S\nS->a");
    assert!(verdict(&g, "a", 100));
    assert!(!verdict(&g, "b", 100));
    assert!(!verdict(&g, "", 100));
}

#[test]
fn a_grammar_made_by_hand() {
    let s = Token::Variable("S".to_string());
    let a = Token::Terminal("a".to_string());
    let g = CFG {
        productions: vec![(
            s.clone(),
            vec![ProductionRule::Sequence(vec![a.clone(), s.clone()]), ProductionRule::Empty],
        )],
        alphabet: vec![a.clone()],
        variables: vec![s.clone()],
    };
    assert!(verdict(&g, "aaa", 10));
    assert!(!verdict(&g, "aaa", 4));
    assert!(!verdict(&g, "ab", 10));
}

#[test]
fn automaton_trace_leaves_the_automaton() {
    let g = grammar("S->aSb\nS->!");
    let mut pda = PDA::with_cfg(&g, 10);
    assert!(pda.trace("ab"));
    assert!(pda.trace_bfs("ab"));
    assert!(!pda.trace("ba"));
    assert!(!pda.trace_bfs("ba"));
    assert!(pda.trace("aabb"));
    assert_eq!(pda.bound(), 10);
    assert_eq!(pda.stack().len(), 2);
    assert_eq!(pda.table().len(), 4);
}

#[test]
fn bounds_of_each_type() {
    assert_eq!(bound(1, 0, 0), Ok(100));
    assert_eq!(bound(1, 1000, 5), Ok(100));
    // (max(n, 1) - 1) / (longest - 1), rounded up.
    assert_eq!(bound(2, 0, 2), Ok(0));
    assert_eq!(bound(2, 1, 3), Ok(0));
    assert_eq!(bound(2, 2, 3), Ok(1));
    assert_eq!(bound(2, 3, 3), Ok(1));
    assert_eq!(bound(2, 4, 3), Ok(2));
    assert_eq!(bound(2, 7, 3), Ok(3));
    assert_eq!(bound(2, 8, 3), Ok(4));
    assert_eq!(bound(2, 10, 2), Ok(9));
    assert_eq!(bound(2, 10, 7), Ok(2));
    // max(2n - 1, 1).
    assert_eq!(bound(3, 0, 0), Ok(1));
    assert_eq!(bound(3, 1, 0), Ok(1));
    assert_eq!(bound(3, 2, 9), Ok(3));
    assert_eq!(bound(3, 6, 1), Ok(11));
}

#[test]
fn bounds_that_cannot_be_had() {
    assert_eq!(bound(2, 5, 1), Err(BoundError::ShortRules));
    assert_eq!(bound(2, 5, 0), Err(BoundError::ShortRules));
    assert_eq!(bound(0, 5, 3), Err(BoundError::InvalidBoundType));
    assert_eq!(bound(4, 5, 3), Err(BoundError::InvalidBoundType));
    assert_eq!(bound(255, 0, 0), Err(BoundError::InvalidBoundType));
}

#[test]
fn decisions_from_texts() {
    let pairs = "2\nS->aSb\nS->!\n";
    assert_eq!(decide(1, pairs, "aaabbb\n"), Ok(true));
    assert_eq!(decide(1, pairs, "  aabbb "), Ok(false));
    assert_eq!(decide(1, pairs, "!\n"), Ok(true));
    assert_eq!(decide(1, pairs, "a!b"), Ok(true));
    // The third bound type gives 2 * 2 - 1 = 3, and "ab" takes two expansions.
    assert_eq!(decide(3, pairs, "ab"), Ok(true));
    // The third bound type gives 1 for the empty input, which is one too few.
    assert_eq!(decide(3, pairs, ""), Ok(false));
    // The second bound type gives (4 - 1) / (3 - 1), rounded up: 2, and "aabb" takes three
    // expansions.
    assert_eq!(decide(2, pairs, "aabb"), Ok(false));
    let sums = "S->T+T\nT->1\nT->2\nT->S";
    assert_eq!(decide(1, sums, "1+2+1\n"), Ok(true));
    // The second bound type gives (3 - 1) / (3 - 1) = 1, and "1+2" takes three expansions.
    assert_eq!(decide(2, sums, "1+2"), Ok(false));
    // The third bound type gives 5, and "1+2" takes three expansions.
    assert_eq!(decide(3, sums, "1+2"), Ok(true));
}

#[test]
fn decisions_that_cannot_be_had() {
    assert_eq!(
        decide(1, "S->a\nS", "a"),
        Err(DecideError::Grammar(ParseError { line: 1, kind: ParseErrorKind::MissingArrow }))
    );
    assert_eq!(
        decide(9, "S->a\nS", "a"),
        Err(DecideError::Grammar(ParseError { line: 1, kind: ParseErrorKind::MissingArrow }))
    );
    assert_eq!(decide(2, "S->a\nS->b", "a"), Err(DecideError::Bound(BoundError::ShortRules)));
    assert_eq!(decide(2, "S->!", ""), Err(DecideError::Bound(BoundError::ShortRules)));
    assert_eq!(decide(0, "S->ab", "ab"), Err(DecideError::Bound(BoundError::InvalidBoundType)));
    assert_eq!(decide(4, "S->ab", "ab"), Err(DecideError::Bound(BoundError::InvalidBoundType)));
}

#[test]
fn the_verdict_is_the_same_each_time() {
    let g = grammar("S->aSb\nS->bSa\nS->!\nS->SS");
    for input in ["", "ab", "abab", "aab", "ba", "abc"] {
        let first = verdict(&g, input, 7);
        for _ in 0..3 {
            assert_eq!(verdict(&g, input, 7), first);
        }
        let again = grammar("S->aSb\nS->bSa\nS->!\nS->SS");
        assert_eq!(verdict(&again, input, 7), first);
    }
}
