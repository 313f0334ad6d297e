//! Right-hand sides of productions.

use vstd::prelude::*;
use vstd::std_specs::cmp::PartialEqSpecImpl;
use crate::token::{
    clone_tokens, find_from, lemma_next_occurrence, next_occurrence, tokens_equal, Token, TokenView,
};

verus! {

/// The mathematical value of a [`ProductionRule`].
pub enum RuleView {
    Sequence(Seq<TokenView>),
    Empty,
}

impl RuleView {
    /// The symbols that the rule produces, none for the empty production.
    pub open spec fn symbols(self) -> Seq<TokenView> {
        match self {
            RuleView::Sequence(tokens) => tokens,
            RuleView::Empty => Seq::empty(),
        }
    }

    /// A well-formed rule is either empty or a non-empty sequence of well-formed tokens.
    pub open spec fn wf(self) -> bool {
        match self {
            RuleView::Sequence(tokens) => {
                &&& tokens.len() > 0
                &&& forall|i: int| 0 <= i < tokens.len() ==> (#[trigger] tokens[i]).wf()
            },
            RuleView::Empty => true,
        }
    }
}

/// The right-hand side of a production: a sequence of tokens, or the empty production.
#[derive(Debug, Eq)]
pub enum ProductionRule {
    Sequence(Vec<Token>),
    Empty,
}

impl View for ProductionRule {
    type V = RuleView;

    open spec fn view(&self) -> RuleView {
        match self {
            ProductionRule::Sequence(tokens) => RuleView::Sequence(tokens.deep_view()),
            ProductionRule::Empty => RuleView::Empty,
        }
    }
}

impl DeepView for ProductionRule {
    type V = RuleView;

    open spec fn deep_view(&self) -> RuleView {
        self@
    }
}

impl Default for ProductionRule {
    fn default() -> (res: Self)
        ensures
            res@ == RuleView::Empty,
    {
        ProductionRule::Empty
    }
}

impl Clone for ProductionRule {
    fn clone(&self) -> (res: Self)
        ensures
            res@ == self@,
    {
        match self {
            ProductionRule::Sequence(tokens) => ProductionRule::Sequence(clone_tokens(tokens)),
            ProductionRule::Empty => ProductionRule::Empty,
        }
    }
}

impl PartialEq for ProductionRule {
    fn eq(&self, other: &Self) -> (r: bool) {
        match (self, other) {
            (ProductionRule::Sequence(a), ProductionRule::Sequence(b)) => tokens_equal(a, b),
            (ProductionRule::Empty, ProductionRule::Empty) => true,
            _ => false,
        }
    }
}

impl PartialEqSpecImpl for ProductionRule {
    open spec fn obeys_eq_spec() -> bool {
        true
    }

    open spec fn eq_spec(&self, other: &Self) -> bool {
        self@ == other@
    }
}

/// What stays of a token sequence when the first occurrence of `needle` is taken
/// out: the tokens before it, followed by those between it and the next occurrence.
pub open spec fn without_first_occurrence(tokens: Seq<TokenView>, needle: TokenView) -> Seq<
    TokenView,
> {
    let first = next_occurrence(tokens, needle, 0);
    let second = next_occurrence(tokens, needle, first + 1);
    tokens.subrange(0, first) + tokens.subrange(first + 1, second)
}

/// The rules that stand for `rule` once `variable` may vanish: the rule itself and,
/// where the variable occurs in it and something is left without it, the shortened rule.
pub open spec fn nullable_replacements(rule: RuleView, variable: TokenView) -> Seq<RuleView> {
    match rule {
        RuleView::Sequence(tokens) => {
            if tokens.contains(variable) && without_first_occurrence(tokens, variable).len() > 0 {
                seq![rule, RuleView::Sequence(without_first_occurrence(tokens, variable))]
            } else {
                seq![rule]
            }
        },
        RuleView::Empty => seq![rule],
    }
}

impl ProductionRule {
    /// Whether `input` occurs among the rule's tokens.
    pub fn contains(&self, input: &Token) -> (b: bool)
        ensures
            b == self@.symbols().contains(input@),
    {
        match self {
            ProductionRule::Sequence(rules) => {
                let pos = find_from(rules, input, 0);
                proof {
                    lemma_next_occurrence(rules.deep_view(), input@, 0);
                }
                pos < rules.len()
            },
            ProductionRule::Empty => false,
        }
    }

    /// Whether this is the empty production.
    pub fn is_empty(&self) -> (b: bool)
        ensures
            b == (self@ is Empty),
    {
        matches!(self, ProductionRule::Empty)
    }

    /// The variables of a sequence rule, in the order in which they occur.
    pub fn get_variables(&self) -> (variables: Vec<Token>)
        requires
            self@ is Sequence,
        ensures
            variables.deep_view() == self@.symbols().filter(|t: TokenView| t is Variable),
    {
        let mut variables: Vec<Token> = Vec::new();
        match self {
            ProductionRule::Sequence(sequence) => {
                let ghost view = sequence.deep_view();
                let ghost pred = |t: TokenView| t is Variable;
                let mut i: usize = 0;
                while i < sequence.len()
                    invariant
                        i <= sequence.len(),
                        view == sequence.deep_view(),
                        pred == (|t: TokenView| t is Variable),
                        variables.deep_view() == view.take(i as int).filter(pred),
                    decreases sequence.len() - i,
                {
                    proof {
                        reveal(Seq::filter);
                        assert(view.take(i + 1).drop_last() =~= view.take(i as int));
                    }
                    if sequence[i].is_variable() {
                        variables.push(sequence[i].clone());
                    }
                    i += 1;
                }
                assert(view.take(i as int) =~= view);
            },
            ProductionRule::Empty => {},
        }
        variables
    }

    /// Takes every occurrence of `variable` out of a sequence rule.
    pub fn remove_variable(&mut self, variable: &Token)
        requires
            old(self)@ is Sequence,
        ensures
            final(self)@ == RuleView::Sequence(
                old(self)@.symbols().filter(|t: TokenView| t != variable@),
            ),
    {
        let mut kept: Vec<Token> = Vec::new();
        match self {
            ProductionRule::Sequence(sequence) => {
                let ghost view = sequence.deep_view();
                let ghost pred = |t: TokenView| t != variable@;
                let mut i: usize = 0;
                while i < sequence.len()
                    invariant
                        i <= sequence.len(),
                        view == sequence.deep_view(),
                        pred == (|t: TokenView| t != variable@),
                        kept.deep_view() == view.take(i as int).filter(pred),
                    decreases sequence.len() - i,
                {
                    proof {
                        reveal(Seq::filter);
                        assert(view.take(i + 1).drop_last() =~= view.take(i as int));
                    }
                    if sequence[i] != *variable {
                        kept.push(sequence[i].clone());
                    }
                    i += 1;
                }
                assert(view.take(i as int) =~= view);
            },
            ProductionRule::Empty => {},
        }
        *self = ProductionRule::Sequence(kept);
    }

    /// The rules that stand for this one once `epsilon_variable` may derive nothing.
    pub fn replace_nullable_variable(&self, epsilon_variable: Token) -> (new_rules: Vec<Self>)
        ensures
            new_rules.deep_view() == nullable_replacements(self@, epsilon_variable@),
    {
        let mut new_rules: Vec<ProductionRule> = Vec::new();
        new_rules.push(self.clone());
        match self {
            ProductionRule::Sequence(rule) => {
                let ghost view = rule.deep_view();
                let first = find_from(rule, &epsilon_variable, 0);
                proof {
                    lemma_next_occurrence(view, epsilon_variable@, 0);
                }
                if first < rule.len() {
                    let second = find_from(rule, &epsilon_variable, first + 1);
                    let mut shortened: Vec<Token> = Vec::new();
                    let mut i: usize = 0;
                    while i < first
                        invariant
                            i <= first < rule.len(),
                            view == rule.deep_view(),
                            shortened.deep_view() == view.subrange(0, i as int),
                        decreases first - i,
                    {
                        let ghost before = shortened.deep_view();
                        shortened.push(rule[i].clone());
                        assert(shortened.deep_view() =~= before.push(rule[i as int]@));
                        i += 1;
                    }
                    let mut j: usize = first + 1;
                    while j < second
                        invariant
                            first + 1 <= j <= second <= rule.len(),
                            view == rule.deep_view(),
                            shortened.deep_view() == view.subrange(0, first as int)
                                + view.subrange(first + 1, j as int),
                        decreases second - j,
                    {
                        let ghost before = shortened.deep_view();
                        shortened.push(rule[j].clone());
                        assert(shortened.deep_view() =~= before.push(rule[j as int]@));
                        j += 1;
                    }
                    if shortened.len() > 0 {
                        let new_rule = ProductionRule::Sequence(shortened);
                        new_rules.push(new_rule);
                    }
                }
            },
            ProductionRule::Empty => {},
        }
        new_rules
    }
}

} // verus!
