//! The textual form of a grammar.
//!
//! A grammar is written one production to a line, as in `S->aSb`. The left side
//! is one uppercase ASCII letter; on the right side every uppercase ASCII letter is
//! a variable and every other character a terminal, and `!` alone is the empty
//! production. White space around a line is ignored, and so is every line that does
//! not begin with an uppercase ASCII letter.

use vstd::prelude::*;
use crate::cfg::{keys, lemma_add_production_wf, GrammarView, CFG};
use crate::productionrule::{ProductionRule, RuleView};
use crate::text::{
    char_to_string, is_ascii_uppercase, is_upper, lines_of, split_lines, to_chars, trim, trimmed,
};
use crate::token::{token_of_char, Token, TokenView};

verus! {

/// What is wrong with a production line.
#[derive(Debug, Clone, Copy, PartialEq, Eq, Structural)]
pub enum ParseErrorKind {
    /// The line holds no `->`.
    MissingArrow,
    /// What stands before `->` is not a single uppercase ASCII letter.
    InvalidVariable,
    /// Nothing follows `->`.
    EmptyProduction,
}

/// The first malformed production line of a text.
#[derive(Debug, Clone, Copy, PartialEq, Eq, Structural)]
pub struct ParseError {
    /// The number of the line, counted from 0.
    pub line: usize,
    /// What is wrong with it.
    pub kind: ParseErrorKind,
}

/// The mathematical value of a [`Line`].
pub enum LineView {
    Ignored,
    Production(TokenView, RuleView),
    Malformed(ParseErrorKind),
}

/// What a line of a grammar text says.
#[derive(Debug)]
pub enum Line {
    /// The line is no production.
    Ignored,
    /// The line declares a production of the variable.
    Production(Token, ProductionRule),
    /// The line begins like a production and is none.
    Malformed(ParseErrorKind),
}

impl View for Line {
    type V = LineView;

    open spec fn view(&self) -> LineView {
        match self {
            Line::Ignored => LineView::Ignored,
            Line::Production(lhs, rule) => LineView::Production(lhs@, rule@),
            Line::Malformed(kind) => LineView::Malformed(*kind),
        }
    }
}

/// The first position at or after `from` where `->` begins, or the length of
/// `line` if there is none.
pub open spec fn arrow_index(line: Seq<char>, from: int) -> int
    decreases line.len() - from,
{
    if from < 0 || from >= line.len() {
        line.len() as int
    } else if line[from] == '-' && from + 1 < line.len() && line[from + 1] == '>' {
        from
    } else {
        arrow_index(line, from + 1)
    }
}

/// The tokens that the characters of a right-hand side stand for.
pub open spec fn tokens_of(rhs: Seq<char>) -> Seq<TokenView> {
    rhs.map_values(|c: char| token_of_char(c))
}

/// The rule that a right-hand side stands for.
pub open spec fn rule_of(rhs: Seq<char>) -> RuleView {
    if rhs == seq!['!'] {
        RuleView::Empty
    } else {
        RuleView::Sequence(tokens_of(rhs))
    }
}

/// What a line says, once the white space around it is gone.
pub open spec fn parse_line(line: Seq<char>) -> LineView {
    if line.len() == 0 || !is_upper(line[0]) {
        LineView::Ignored
    } else if arrow_index(line, 0) >= line.len() {
        LineView::Malformed(ParseErrorKind::MissingArrow)
    } else if arrow_index(line, 0) != 1 {
        LineView::Malformed(ParseErrorKind::InvalidVariable)
    } else if line.len() == 3 {
        LineView::Malformed(ParseErrorKind::EmptyProduction)
    } else {
        LineView::Production(
            TokenView::Variable(seq![line[0]]),
            rule_of(line.subrange(3, line.len() as int)),
        )
    }
}

/// The grammar that `lines` declare, or the first malformed line among them.
pub open spec fn parse_lines(lines: Seq<Seq<char>>) -> Result<GrammarView, ParseError>
    decreases lines.len(),
{
    if lines.len() == 0 {
        Ok(GrammarView::empty())
    } else {
        match parse_lines(lines.drop_last()) {
            Err(e) => Err(e),
            Ok(g) => match parse_line(trim(lines.last(), false)) {
                LineView::Ignored => Ok(g),
                LineView::Production(lhs, rule) => Ok(g.add_production(lhs, rule)),
                LineView::Malformed(kind) => Err(
                    ParseError { line: (lines.len() - 1) as usize, kind },
                ),
            },
        }
    }
}

/// The grammar that `text` declares, or its first malformed line.
pub open spec fn parse(text: Seq<char>) -> Result<GrammarView, ParseError> {
    parse_lines(split_lines(text))
}

/// A malformed line among the first `k` lines is the first malformed line of all.
pub proof fn lemma_parse_lines_error(lines: Seq<Seq<char>>, k: int)
    requires
        0 <= k <= lines.len(),
        parse_lines(lines.take(k)) is Err,
    ensures
        parse_lines(lines) == parse_lines(lines.take(k)),
    decreases lines.len() - k,
{
    if k < lines.len() {
        assert(lines.take(k + 1).drop_last() =~= lines.take(k));
        lemma_parse_lines_error(lines, k + 1);
    } else {
        assert(lines.take(k) =~= lines);
    }
}

/// Where `arrow_index` finds something, `->` begins.
pub proof fn lemma_arrow_index(line: Seq<char>, from: int)
    requires
        0 <= from,
    ensures
        arrow_index(line, from) < line.len() ==> {
            &&& from <= arrow_index(line, from)
            &&& arrow_index(line, from) + 1 < line.len()
            &&& line[arrow_index(line, from)] == '-'
            &&& line[arrow_index(line, from) + 1] == '>'
        },
    decreases line.len() - from,
{
    if from < line.len() && !(line[from] == '-' && from + 1 < line.len() && line[from + 1] == '>') {
        lemma_arrow_index(line, from + 1);
    }
}

/// The grammar that lines declare is well formed.
pub proof fn lemma_parse_lines_wf(lines: Seq<Seq<char>>)
    ensures
        parse_lines(lines) matches Ok(g) ==> g.wf(),
    decreases lines.len(),
{
    if lines.len() > 0 {
        lemma_parse_lines_wf(lines.drop_last());
        if let Ok(g) = parse_lines(lines.drop_last()) {
            let line = trim(lines.last(), false);
            if let LineView::Production(lhs, rule) = parse_line(line) {
                lemma_arrow_index(line, 0);
                lemma_add_production_wf(g, lhs, rule);
            }
        }
    } else {
        let g = GrammarView::empty();
        assert(g.variables =~= keys(g.productions));
    }
}

/// The token that `c` stands for on a right-hand side.
pub fn token_for(c: char) -> (token: Token)
    ensures
        token@ == token_of_char(c),
{
    if is_ascii_uppercase(c) {
        Token::Variable(char_to_string(c))
    } else {
        Token::Terminal(char_to_string(c))
    }
}

/// Reads one line, given without the white space around it.
pub fn read_line(line: &Vec<char>) -> (res: Line)
    ensures
        res@ == parse_line(line@),
{
    if line.len() == 0 || !is_ascii_uppercase(line[0]) {
        return Line::Ignored;
    }
    let mut arrow: usize = 0;
    while arrow < line.len() && !(line[arrow] == '-' && arrow + 1 < line.len() && line[arrow + 1]
        == '>')
        invariant
            arrow <= line.len(),
            arrow_index(line@, 0) == arrow_index(line@, arrow as int),
        decreases line.len() - arrow,
    {
        arrow += 1;
    }
    if arrow >= line.len() {
        return Line::Malformed(ParseErrorKind::MissingArrow);
    }
    if arrow != 1 {
        return Line::Malformed(ParseErrorKind::InvalidVariable);
    }
    if line.len() == 3 {
        return Line::Malformed(ParseErrorKind::EmptyProduction);
    }
    let ghost rhs = line@.subrange(3, line.len() as int);
    let lhs = Token::Variable(char_to_string(line[0]));
    if line.len() == 4 && line[3] == '!' {
        assert(rhs =~= seq!['!']);
        return Line::Production(lhs, ProductionRule::Empty);
    }
    assert(rhs != seq!['!']) by {
        if rhs == seq!['!'] {
            assert(rhs.len() == 1);
            assert(rhs[0] == '!');
        }
    }
    let mut sequence: Vec<Token> = Vec::new();
    let mut i: usize = 3;
    while i < line.len()
        invariant
            3 <= i <= line.len(),
            rhs == line@.subrange(3, line.len() as int),
            sequence.deep_view() == tokens_of(rhs.take(i - 3)),
        decreases line.len() - i,
    {
        let ghost before = sequence.deep_view();
        sequence.push(token_for(line[i]));
        assert(sequence.deep_view() =~= before.push(token_of_char(line[i as int])));
        i += 1;
    }
    assert(rhs.take(i - 3) =~= rhs);
    Line::Production(lhs, ProductionRule::Sequence(sequence))
}

/// Reads a grammar from its text.
pub fn parse_grammar(text: &str) -> (res: Result<CFG, ParseError>)
    ensures
        match res {
            Ok(grammar) => parse(text@) == Ok::<GrammarView, ParseError>(grammar@)
                && grammar@.wf(),
            Err(e) => parse(text@) == Err::<GrammarView, ParseError>(e),
        },
{
    proof {
        lemma_parse_lines_wf(split_lines(text@));
    }
    let chars = to_chars(text);
    let lines = lines_of(&chars);
    let ghost all = lines.deep_view();
    let mut grammar = CFG::default();
    let mut i: usize = 0;
    while i < lines.len()
        invariant
            i <= lines.len(),
            all == lines.deep_view(),
            all == split_lines(text@),
            parse_lines(all.take(i as int)) == Ok::<GrammarView, ParseError>(grammar@),
        decreases lines.len() - i,
    {
        assert(all.take(i + 1).drop_last() =~= all.take(i as int));
        assert(all.take(i + 1).last() =~= lines[i as int]@);
        let line = trimmed(&lines[i], false);
        match read_line(&line) {
            Line::Ignored => {},
            Line::Production(lhs, rule) => {
                grammar.add_production(lhs, rule);
            },
            Line::Malformed(kind) => {
                proof {
                    lemma_parse_lines_error(all, i + 1);
                }
                return Err(ParseError { line: i, kind });
            },
        }
        i += 1;
    }
    assert(all.take(i as int) =~= all);
    Ok(grammar)
}

/// The names of `tokens`, one after the other.
pub open spec fn names_of(tokens: Seq<TokenView>) -> Seq<char>
    decreases tokens.len(),
{
    if tokens.len() == 0 {
        Seq::empty()
    } else {
        names_of(tokens.drop_last()) + tokens.last().name()
    }
}

/// The right-hand side that stands for `rule`.
pub open spec fn rhs_text(rule: RuleView) -> Seq<char> {
    match rule {
        RuleView::Sequence(tokens) => names_of(tokens),
        RuleView::Empty => seq!['!'],
    }
}

/// The line that declares the production `lhs -> rule`, without its line feed.
pub open spec fn line_text(lhs: TokenView, rule: RuleView) -> Seq<char> {
    lhs.name() + seq!['-', '>'] + rhs_text(rule)
}

/// The lines that declare the productions of `lhs`, each with its line feed.
pub open spec fn rules_text(lhs: TokenView, rules: Seq<RuleView>) -> Seq<char>
    decreases rules.len(),
{
    if rules.len() == 0 {
        Seq::empty()
    } else {
        rules_text(lhs, rules.drop_last()) + line_text(lhs, rules.last()) + seq!['\n']
    }
}

/// The text that declares `productions`: a line for each rule, the rules of a
/// variable together, in the order in which they are listed.
pub open spec fn productions_text(productions: Seq<(TokenView, Seq<RuleView>)>) -> Seq<char>
    decreases productions.len(),
{
    if productions.len() == 0 {
        Seq::empty()
    } else {
        productions_text(productions.drop_last()) + rules_text(
            productions.last().0,
            productions.last().1,
        )
    }
}

impl CFG {
    /// The text that declares the productions of this grammar: a line for each
    /// rule, the rules of a variable together.
    pub fn to_text(&self) -> (text: String)
        ensures
            text@ == productions_text(self@.productions),
    {
        let ghost all = self@.productions;
        let mut text = String::new();
        let mut i: usize = 0;
        while i < self.productions.len()
            invariant
                i <= self.productions.len(),
                all == self.productions.deep_view(),
                text@ == productions_text(all.take(i as int)),
            decreases self.productions.len() - i,
        {
            let lhs = &self.productions[i].0;
            let rules = &self.productions[i].1;
            let ghost before = text@;
            let ghost wanted = all[i as int].1;
            let mut j: usize = 0;
            while j < rules.len()
                invariant
                    j <= rules.len(),
                    wanted == rules.deep_view(),
                    text@ == before + rules_text(lhs@, wanted.take(j as int)),
                decreases rules.len() - j,
            {
                assert(wanted.take(j + 1).drop_last() =~= wanted.take(j as int));
                text.append(lhs.name());
                text.push('-');
                text.push('>');
                match &rules[j] {
                    ProductionRule::Sequence(tokens) => {
                        let ghost start = text@;
                        let mut k: usize = 0;
                        while k < tokens.len()
                            invariant
                                k <= tokens.len(),
                                text@ == start + names_of(tokens.deep_view().take(k as int)),
                            decreases tokens.len() - k,
                        {
                            let ghost so_far = tokens.deep_view().take(k as int);
                            assert(tokens.deep_view().take(k + 1).drop_last() =~= so_far);
                            text.append(tokens[k].name());
                            k += 1;
                        }
                        assert(tokens.deep_view().take(k as int) =~= tokens.deep_view());
                    },
                    ProductionRule::Empty => {
                        text.push('!');
                    },
                }
                text.push('\n');
                j += 1;
            }
            assert(wanted.take(j as int) =~= wanted);
            assert(all.take(i + 1).drop_last() =~= all.take(i as int));
            i += 1;
        }
        assert(all.take(i as int) =~= all);
        text
    }
}

impl core::str::FromStr for CFG {
    type Err = ParseError;

    fn from_str(s: &str) -> (res: Result<Self, ParseError>)
        ensures
            match res {
                Ok(grammar) => parse(s@) == Ok::<GrammarView, ParseError>(grammar@)
                    && grammar@.wf(),
                Err(e) => parse(s@) == Err::<GrammarView, ParseError>(e),
            },
    {
        parse_grammar(s)
    }
}

} // verus!
