//! Grammar symbols.

use vstd::prelude::*;
use vstd::std_specs::cmp::PartialEqSpecImpl;
use crate::text::is_upper;

verus! {

/// The mathematical value of a [`Token`]: its kind and the characters of its name.
pub enum TokenView {
    Terminal(Seq<char>),
    Variable(Seq<char>),
}

impl TokenView {
    /// The characters of the token's name.
    pub open spec fn name(self) -> Seq<char> {
        match self {
            TokenView::Terminal(name) => name,
            TokenView::Variable(name) => name,
        }
    }

    /// A well-formed token carries a name of exactly one character; a variable's
    /// is an uppercase ASCII letter, a terminal's is anything else.
    pub open spec fn wf(self) -> bool {
        &&& self.name().len() == 1
        &&& (self is Variable) == is_upper(self.name()[0])
    }
}

/// The token that stands for character `c` on the right-hand side of a production.
pub open spec fn token_of_char(c: char) -> TokenView {
    if is_upper(c) {
        TokenView::Variable(seq![c])
    } else {
        TokenView::Terminal(seq![c])
    }
}

/// A grammar symbol: a terminal or a variable (nonterminal), each carrying its name.
#[derive(Debug, Eq, PartialOrd, Ord, Hash)]
pub enum Token {
    Terminal(String),
    Variable(String),
}

impl View for Token {
    type V = TokenView;

    open spec fn view(&self) -> TokenView {
        match self {
            Token::Terminal(name) => TokenView::Terminal(name@),
            Token::Variable(name) => TokenView::Variable(name@),
        }
    }
}

impl DeepView for Token {
    type V = TokenView;

    open spec fn deep_view(&self) -> TokenView {
        self@
    }
}

impl Clone for Token {
    fn clone(&self) -> (res: Self)
        ensures
            res == *self,
    {
        match self {
            Token::Terminal(name) => Token::Terminal(name.clone()),
            Token::Variable(name) => Token::Variable(name.clone()),
        }
    }
}

impl PartialEq for Token {
    fn eq(&self, other: &Self) -> (r: bool) {
        match (self, other) {
            (Token::Terminal(a), Token::Terminal(b)) => *a == *b,
            (Token::Variable(a), Token::Variable(b)) => *a == *b,
            _ => false,
        }
    }
}

impl PartialEqSpecImpl for Token {
    open spec fn obeys_eq_spec() -> bool {
        true
    }

    open spec fn eq_spec(&self, other: &Self) -> bool {
        self@ == other@
    }
}

impl Token {
    /// The name of the token.
    pub fn name(&self) -> (name: &str)
        ensures
            name@ == self@.name(),
    {
        match self {
            Token::Terminal(name) => name.as_str(),
            Token::Variable(name) => name.as_str(),
        }
    }

    /// Whether this token is a variable.
    pub fn is_variable(&self) -> (b: bool)
        ensures
            b == (self@ is Variable),
    {
        matches!(self, Token::Variable(_))
    }

    /// Whether this token is a terminal.
    pub fn is_terminal(&self) -> (b: bool)
        ensures
            b == (self@ is Terminal),
    {
        matches!(self, Token::Terminal(_))
    }
}

/// Copies a list of tokens.
pub fn clone_tokens(tokens: &Vec<Token>) -> (res: Vec<Token>)
    ensures
        res.deep_view() == tokens.deep_view(),
{
    let mut res: Vec<Token> = Vec::new();
    let mut i: usize = 0;
    while i < tokens.len()
        invariant
            i <= tokens.len(),
            res.len() == i,
            forall|k: int| 0 <= k < i ==> res[k]@ == tokens[k]@,
        decreases tokens.len() - i,
    {
        res.push(tokens[i].clone());
        i += 1;
    }
    res
}

/// Whether two token lists hold the same tokens in the same order.
pub fn tokens_equal(a: &Vec<Token>, b: &Vec<Token>) -> (r: bool)
    ensures
        r == (a.deep_view() == b.deep_view()),
{
    if a.len() != b.len() {
        assert(a.deep_view().len() != b.deep_view().len());
        return false;
    }
    let mut i: usize = 0;
    while i < a.len()
        invariant
            i <= a.len(),
            a.len() == b.len(),
            forall|k: int| 0 <= k < i ==> a[k]@ == b[k]@,
        decreases a.len() - i,
    {
        if a[i] != b[i] {
            assert(a.deep_view()[i as int] != b.deep_view()[i as int]);
            return false;
        }
        i += 1;
    }
    assert(a.deep_view() =~= b.deep_view());
    true
}

/// The first position at or after `from` where `needle` occurs in `tokens`,
/// or the length of `tokens` if there is none.
pub open spec fn next_occurrence(tokens: Seq<TokenView>, needle: TokenView, from: int) -> int
    decreases tokens.len() - from,
{
    if from < 0 || from >= tokens.len() || tokens[from] == needle {
        from
    } else {
        next_occurrence(tokens, needle, from + 1)
    }
}

/// `next_occurrence` is the first position of `needle` at or after `from`.
pub proof fn lemma_next_occurrence(tokens: Seq<TokenView>, needle: TokenView, from: int)
    requires
        0 <= from <= tokens.len(),
    ensures
        from <= next_occurrence(tokens, needle, from) <= tokens.len(),
        forall|k: int| from <= k < next_occurrence(tokens, needle, from) ==> tokens[k] != needle,
        next_occurrence(tokens, needle, from) < tokens.len() ==> tokens[next_occurrence(
            tokens,
            needle,
            from,
        )] == needle,
    decreases tokens.len() - from,
{
    if from < tokens.len() && tokens[from] != needle {
        lemma_next_occurrence(tokens, needle, from + 1);
    }
}

/// Finds the first position at or after `from` where `needle` occurs: that
/// position, or the length of `tokens` if there is none.
pub fn find_from(tokens: &Vec<Token>, needle: &Token, from: usize) -> (pos: usize)
    ensures
        pos == next_occurrence(tokens.deep_view(), needle@, from as int),
        from <= tokens.len() ==> from <= pos <= tokens.len(),
{
    let ghost view = tokens.deep_view();
    let mut i: usize = from;
    while i < tokens.len()
        invariant
            from <= i,
            from <= tokens.len() ==> i <= tokens.len(),
            view == tokens.deep_view(),
            next_occurrence(view, needle@, from as int) == next_occurrence(view, needle@, i as int),
        decreases tokens.len() - i,
    {
        if tokens[i] == *needle {
            return i;
        }
        i += 1;
    }
    i
}

} // verus!
