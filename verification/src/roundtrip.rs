//! A grammar that was read can be written and read again.

use vstd::prelude::*;
use crate::cfg::{add_rule, keys, lemma_add_production_wf, GrammarView};
use crate::parser::{
    arrow_index, lemma_arrow_index, lemma_parse_lines_wf, line_text, names_of, parse, parse_line,
    parse_lines, productions_text, rhs_text, rules_text, tokens_of, LineView,
};
use crate::productionrule::RuleView;
use crate::text::{
    is_space, lemma_skip_whitespace, skip_whitespace, skip_whitespace_back, split_lines, trim,
};
use crate::token::{lemma_next_occurrence, next_occurrence, token_of_char, TokenView};

verus! {

/// Whether `s` holds no line feed.
pub open spec fn has_no_line_feed(s: Seq<char>) -> bool {
    forall|k: int| 0 <= k < s.len() ==> s[k] != '\n'
}

/// A rule that a line can hold: the empty production, or well-formed tokens
/// that are not `!` alone, none of them a line feed, the last of them no white
/// space.
pub open spec fn rule_writable(rule: RuleView) -> bool {
    match rule {
        RuleView::Sequence(tokens) => {
            &&& rule.wf()
            &&& tokens != seq![TokenView::Terminal(seq!['!'])]
            &&& forall|k: int| 0 <= k < tokens.len() ==> (#[trigger] tokens[k]).name()[0] != '\n'
            &&& !is_space(tokens.last().name()[0], false)
        },
        RuleView::Empty => true,
    }
}

/// A grammar that a text can hold: it is well formed, and a line can hold each
/// of its rules.
pub open spec fn writable(g: GrammarView) -> bool {
    &&& g.wf()
    &&& forall|i: int, j: int| g.is_rule(i, j) ==> rule_writable(#[trigger] g.productions[i].1[j])
}

/// Whether `text` ends each of its lines with a line feed and declares the
/// productions `productions`.
pub open spec fn reads_as(text: Seq<char>, productions: Seq<(TokenView, Seq<RuleView>)>) -> bool {
    &&& split_lines(text).len() > 0
    &&& split_lines(text).last().len() == 0
    &&& parse_lines(split_lines(text).drop_last()) matches Ok(g)
    &&& g.productions == productions
}

/// The names of well-formed tokens are one character each, and stand for the
/// tokens.
pub proof fn lemma_names_of(tokens: Seq<TokenView>)
    requires
        forall|k: int| 0 <= k < tokens.len() ==> (#[trigger] tokens[k]).wf(),
    ensures
        names_of(tokens).len() == tokens.len(),
        forall|k: int|
            0 <= k < tokens.len() ==> names_of(tokens)[k] == (#[trigger] tokens[k]).name()[0],
        tokens_of(names_of(tokens)) == tokens,
    decreases tokens.len(),
{
    if tokens.len() > 0 {
        let front = tokens.drop_last();
        lemma_names_of(front);
        assert forall|k: int| 0 <= k < tokens.len() implies names_of(tokens)[k] == (
        #[trigger] tokens[k]).name()[0] by {
            if k < front.len() {
                assert(front[k] == tokens[k]);
            }
        }
        assert forall|k: int| 0 <= k < tokens.len() implies tokens_of(names_of(tokens))[k]
            == tokens[k] by {
            assert(tokens[k].wf());
            assert(tokens[k].name() =~= seq![tokens[k].name()[0]]);
        }
    }
}

/// The line that declares a production reads as that production, and white
/// space is nowhere to be taken from it.
pub proof fn lemma_line_reads(lhs: TokenView, rule: RuleView)
    requires
        lhs is Variable,
        lhs.wf(),
        rule_writable(rule),
    ensures
        has_no_line_feed(line_text(lhs, rule)),
        trim(line_text(lhs, rule), false) == line_text(lhs, rule),
        parse_line(line_text(lhs, rule)) == LineView::Production(lhs, rule),
{
    let line = line_text(lhs, rule);
    let rhs = rhs_text(rule);
    if let RuleView::Sequence(tokens) = rule {
        lemma_names_of(tokens);
        if rhs == seq!['!'] {
            assert(tokens =~= seq![TokenView::Terminal(seq!['!'])]);
        }
    }
    assert(line.subrange(3, line.len() as int) =~= rhs);
    assert(arrow_index(line, 0) == arrow_index(line, 1));
    assert(lhs == TokenView::Variable(seq![line[0]])) by {
        assert(lhs.name() =~= seq![line[0]]);
    }
    assert forall|k: int| 0 <= k < line.len() implies line[k] != '\n' by {
        if k >= 3 {
            assert(line[k] == rhs[k - 3]);
            if let RuleView::Sequence(tokens) = rule {
                assert(rhs[k - 3] == tokens[k - 3].name()[0]);
            }
        }
    }
}

/// A text has at least one line.
pub proof fn lemma_split_lines_len(text: Seq<char>)
    ensures
        split_lines(text).len() >= 1,
    decreases text.len(),
{
}

/// Characters that are no line feeds lengthen the last line of a text.
pub proof fn lemma_split_lines_append(text: Seq<char>, more: Seq<char>)
    requires
        has_no_line_feed(more),
    ensures
        split_lines(text).len() >= 1,
        split_lines(text + more) == split_lines(text).drop_last().push(
            split_lines(text).last() + more,
        ),
    decreases more.len(),
{
    let lines = split_lines(text);
    if more.len() > 0 {
        let front = more.drop_last();
        lemma_split_lines_append(text, front);
        assert((text + more).drop_last() =~= text + front);
        let before = split_lines(text + front);
        assert(before.last().push(more.last()) =~= lines.last() + more);
    }
}

/// A line more, ended by its line feed, reads as a production more.
pub proof fn lemma_reads_line(
    text: Seq<char>,
    productions: Seq<(TokenView, Seq<RuleView>)>,
    lhs: TokenView,
    rule: RuleView,
)
    requires
        reads_as(text, productions),
        lhs is Variable,
        lhs.wf(),
        rule_writable(rule),
    ensures
        reads_as(text + line_text(lhs, rule) + seq!['\n'], add_rule(productions, lhs, rule)),
{
    let line = line_text(lhs, rule);
    let lines = split_lines(text);
    lemma_line_reads(lhs, rule);
    lemma_split_lines_append(text, line);
    let longer = text + line + seq!['\n'];
    assert(longer.drop_last() =~= text + line);
    let read = lines.drop_last().push(line);
    assert(split_lines(longer).drop_last() =~= read);
    assert(read.drop_last() =~= lines.drop_last());
}

/// What is declared once the rules `rules` of `lhs` follow the productions
/// `productions`.
pub open spec fn with_rules(
    productions: Seq<(TokenView, Seq<RuleView>)>,
    lhs: TokenView,
    rules: Seq<RuleView>,
) -> Seq<(TokenView, Seq<RuleView>)> {
    if rules.len() == 0 {
        productions
    } else {
        productions.push((lhs, rules))
    }
}

/// The lines of the rules of a new variable read as those rules.
pub proof fn lemma_reads_rules(
    text: Seq<char>,
    productions: Seq<(TokenView, Seq<RuleView>)>,
    lhs: TokenView,
    rules: Seq<RuleView>,
)
    requires
        reads_as(text, productions),
        lhs is Variable,
        lhs.wf(),
        !keys(productions).contains(lhs),
        forall|j: int| 0 <= j < rules.len() ==> rule_writable(#[trigger] rules[j]),
    ensures
        reads_as(text + rules_text(lhs, rules), with_rules(productions, lhs, rules)),
    decreases rules.len(),
{
    if rules.len() > 0 {
        let front = rules.drop_last();
        let last = rules.last();
        lemma_reads_rules(text, productions, lhs, front);
        let so_far = with_rules(productions, lhs, front);
        lemma_reads_line(text + rules_text(lhs, front), so_far, lhs, last);
        assert(text + rules_text(lhs, rules) =~= text + rules_text(lhs, front) + line_text(
            lhs,
            last,
        ) + seq!['\n']);
        lemma_next_occurrence(keys(so_far), lhs, 0);
        let at = next_occurrence(keys(so_far), lhs, 0);
        if front.len() == 0 {
            assert(rules =~= seq![last]);
        } else {
            assert(keys(so_far)[productions.len() as int] == lhs);
            if at < productions.len() {
                assert(keys(productions)[at] == lhs);
            }
            assert(front.push(last) =~= rules);
            assert(add_rule(so_far, lhs, last) =~= with_rules(productions, lhs, rules));
        }
    }
}

/// The text that declares the productions of a writable grammar reads as those
/// productions.
pub proof fn lemma_reads_productions(g: GrammarView, n: int)
    requires
        writable(g),
        0 <= n <= g.productions.len(),
    ensures
        reads_as(productions_text(g.productions.take(n)), g.productions.take(n)),
    decreases n,
{
    let some = g.productions.take(n);
    if n == 0 {
        assert(some =~= Seq::empty());
    } else {
        let front = g.productions.take(n - 1);
        let last = g.productions[n - 1];
        lemma_reads_productions(g, n - 1);
        assert(some.drop_last() =~= front);
        assert(!keys(front).contains(last.0)) by {
            if keys(front).contains(last.0) {
                let k = choose|k: int| 0 <= k < keys(front).len() && keys(front)[k] == last.0;
                assert(keys(g.productions)[k] == front[k].0);
                assert(keys(g.productions)[n - 1] == last.0);
            }
        }
        lemma_reads_rules(productions_text(front), front, last.0, last.1);
        assert(with_rules(front, last.0, last.1) =~= some);
    }
}

/// No line of a text holds a line feed.
pub proof fn lemma_split_lines_no_line_feed(text: Seq<char>)
    ensures
        forall|k: int|
            0 <= k < split_lines(text).len() ==> has_no_line_feed(#[trigger] split_lines(text)[k]),
    decreases text.len(),
{
    if text.len() > 0 {
        lemma_split_lines_no_line_feed(text.drop_last());
        lemma_split_lines_len(text.drop_last());
    }
}

/// Where white space is taken from the end, what is left does not end in white
/// space.
pub proof fn lemma_skip_whitespace_back_stops(s: Seq<char>, from: int, to: int)
    requires
        0 <= from <= to <= s.len(),
    ensures
        from <= skip_whitespace_back(s, from, to, false) <= to,
        from < skip_whitespace_back(s, from, to, false) ==> !is_space(
            s[skip_whitespace_back(s, from, to, false) - 1],
            false,
        ),
    decreases to - from,
{
    if from < to && is_space(s[to - 1], false) {
        lemma_skip_whitespace_back_stops(s, from, to - 1);
    }
}

/// A production that a line of a text declares can be written again.
pub proof fn lemma_read_rule_writable(raw: Seq<char>, lhs: TokenView, rule: RuleView)
    requires
        has_no_line_feed(raw),
        parse_line(trim(raw, false)) == LineView::Production(lhs, rule),
    ensures
        lhs is Variable,
        lhs.wf(),
        rule_writable(rule),
{
    let start = skip_whitespace(raw, 0, false);
    lemma_skip_whitespace(raw, 0, raw.len() as int, false);
    lemma_skip_whitespace_back_stops(raw, start, raw.len() as int);
    let line = trim(raw, false);
    lemma_arrow_index(line, 0);
    let rhs = line.subrange(3, line.len() as int);
    if rhs != seq!['!'] {
        let tokens = tokens_of(rhs);
        assert(tokens.last() == token_of_char(rhs.last()));
        if tokens == seq![TokenView::Terminal(seq!['!'])] {
            assert(rhs =~= seq!['!']);
        }
    }
}

/// A writable grammar with a writable production more is writable.
pub proof fn lemma_add_production_writable(g: GrammarView, lhs: TokenView, rule: RuleView)
    requires
        writable(g),
        lhs is Variable,
        lhs.wf(),
        rule_writable(rule),
    ensures
        writable(g.add_production(lhs, rule)),
{
    lemma_next_occurrence(keys(g.productions), lhs, 0);
    lemma_add_production_wf(g, lhs, rule);
}

/// The grammar that the lines of a text declare is writable.
pub proof fn lemma_parse_lines_writable(lines: Seq<Seq<char>>)
    requires
        forall|k: int| 0 <= k < lines.len() ==> has_no_line_feed(#[trigger] lines[k]),
    ensures
        parse_lines(lines) matches Ok(g) ==> writable(g),
    decreases lines.len(),
{
    if lines.len() > 0 {
        let front = lines.drop_last();
        lemma_parse_lines_writable(front);
        if let Ok(g) = parse_lines(front) {
            if let LineView::Production(lhs, rule) = parse_line(trim(lines.last(), false)) {
                lemma_read_rule_writable(lines.last(), lhs, rule);
                lemma_add_production_writable(g, lhs, rule);
            }
        }
    } else {
        lemma_parse_lines_wf(lines);
    }
}

/// Round trip: a grammar that was read from a text, written as text and read
/// again has the same productions.
pub proof fn lemma_read_write_read(text: Seq<char>)
    ensures
        parse(text) matches Ok(g) ==> writable(g) && (parse(productions_text(g.productions))
            matches Ok(h) && h.productions == g.productions),
{
    lemma_split_lines_no_line_feed(text);
    lemma_parse_lines_writable(split_lines(text));
    if let Ok(g) = parse(text) {
        lemma_write_then_read(g);
    }
}

/// Round trip: the text that declares the productions of a writable grammar is
/// read as a grammar with the same productions.
pub proof fn lemma_write_then_read(g: GrammarView)
    requires
        writable(g),
    ensures
        parse(productions_text(g.productions)) matches Ok(h) && h.productions == g.productions,
{
    lemma_reads_productions(g, g.productions.len() as int);
    assert(g.productions.take(g.productions.len() as int) =~= g.productions);
}

} // verus!
