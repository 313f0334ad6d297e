//! Context-free grammars.

use vstd::prelude::*;
use crate::acceptance::lemma_accepts_iff_derives;
use crate::pda::{bound_of, pda_of, start_symbol, PDA};
use crate::productionrule::{ProductionRule, RuleView};
use crate::token::{
    clone_tokens, find_from, lemma_next_occurrence, next_occurrence, Token, TokenView,
};
use crate::trace::accepts;

verus! {

/// The mathematical value of a [`CFG`].
pub struct GrammarView {
    /// Each variable that has productions, with its rules in the order of declaration.
    pub productions: Seq<(TokenView, Seq<RuleView>)>,
    /// The terminals of the grammar.
    pub alphabet: Seq<TokenView>,
    /// The variables of the grammar.
    pub variables: Seq<TokenView>,
}

/// The left-hand sides of a list of productions.
pub open spec fn keys(productions: Seq<(TokenView, Seq<RuleView>)>) -> Seq<TokenView> {
    productions.map_values(|p: (TokenView, Seq<RuleView>)| p.0)
}

/// `productions` with `rule` added to the rules of `key`: at the end of the rules of
/// the first entry for `key`, or as a new last entry if there is none.
pub open spec fn add_rule(
    productions: Seq<(TokenView, Seq<RuleView>)>,
    key: TokenView,
    rule: RuleView,
) -> Seq<(TokenView, Seq<RuleView>)> {
    let i = next_occurrence(keys(productions), key, 0);
    if i < productions.len() {
        productions.update(i, (productions[i].0, productions[i].1.push(rule)))
    } else {
        productions.push((key, seq![rule]))
    }
}

/// `tokens` with `token` added at the end unless it is already there.
pub open spec fn add_token(tokens: Seq<TokenView>, token: TokenView) -> Seq<TokenView> {
    if tokens.contains(token) {
        tokens
    } else {
        tokens.push(token)
    }
}

/// `alphabet` with the terminals among `symbols` added, each once, in the order of
/// their first occurrence.
pub open spec fn add_terminals(alphabet: Seq<TokenView>, symbols: Seq<TokenView>) -> Seq<TokenView>
    decreases symbols.len(),
{
    if symbols.len() == 0 {
        alphabet
    } else {
        let rest = add_terminals(alphabet, symbols.drop_last());
        if symbols.last() is Terminal {
            add_token(rest, symbols.last())
        } else {
            rest
        }
    }
}

impl GrammarView {
    /// The grammar without productions.
    pub open spec fn empty() -> GrammarView {
        GrammarView { productions: Seq::empty(), alphabet: Seq::empty(), variables: Seq::empty() }
    }

    /// The grammar with the production `lhs -> rule` added after the others.
    pub open spec fn add_production(self, lhs: TokenView, rule: RuleView) -> GrammarView {
        GrammarView {
            productions: add_rule(self.productions, lhs, rule),
            alphabet: add_terminals(self.alphabet, rule.symbols()),
            variables: add_token(self.variables, lhs),
        }
    }

    /// Whether `(i, j)` names a rule: the `j`-th rule of the `i`-th variable.
    pub open spec fn is_rule(self, i: int, j: int) -> bool {
        0 <= i < self.productions.len() && 0 <= j < self.productions[i].1.len()
    }

    /// Whether `token` occurs on the right-hand side of some production.
    pub open spec fn occurs(self, token: TokenView) -> bool {
        exists|i: int, j: int|
            self.is_rule(i, j) && (#[trigger] self.productions[i].1[j]).symbols().contains(token)
    }

    /// What `form` becomes when its first symbol is replaced by the symbols of rule
    /// `(i, j)`.
    pub open spec fn expand(self, form: Seq<TokenView>, i: int, j: int) -> Seq<TokenView> {
        self.productions[i].1[j].symbols() + form.drop_first()
    }

    /// Whether the sentential form `form` derives `word` by at most `n`
    /// expansions, each of which replaces the first symbol, a variable, by one of
    /// its rules; a terminal in first place must be the first character of `word`.
    pub open spec fn derives(self, form: Seq<TokenView>, word: Seq<char>, n: nat) -> bool
        decreases n, form.len(),
    {
        if form.len() == 0 {
            word.len() == 0
        } else {
            match form[0] {
                TokenView::Terminal(name) => {
                    word.len() > 0 && name == seq![word[0]] && self.derives(
                        form.drop_first(),
                        word.drop_first(),
                        n,
                    )
                },
                TokenView::Variable(_) => {
                    n > 0 && exists|i: int, j: int|
                        #[trigger] self.is_rule(i, j) && self.productions[i].0 == form[0]
                            && self.derives(self.expand(form, i, j), word, (n - 1) as nat)
                },
            }
        }
    }

    /// Whether every terminal of `form` is in the alphabet.
    pub open spec fn knows_terminals(self, form: Seq<TokenView>) -> bool {
        forall|k: int|
            0 <= k < form.len() && (#[trigger] form[k]) is Terminal ==> self.alphabet.contains(
                form[k],
            )
    }

    /// Whether `n` is the length of the longest right-hand side, 0 where every
    /// production is empty or there is none.
    pub open spec fn is_longest_rhs(self, n: nat) -> bool {
        &&& forall|i: int, j: int|
            self.is_rule(i, j) ==> (#[trigger] self.productions[i].1[j]).symbols().len() <= n
        &&& n == 0 || exists|i: int, j: int|
            self.is_rule(i, j) && (#[trigger] self.productions[i].1[j]).symbols().len() == n
    }

    /// The length of the longest right-hand side, 0 where every production is
    /// empty or there is none.
    pub open spec fn longest_rhs(self) -> nat {
        choose|n: nat| self.is_longest_rhs(n)
    }

    /// A well-formed grammar: every left-hand side is a variable that is listed
    /// once, with at least one rule; `variables` lists the left-hand sides;
    /// `alphabet` lists, each once, the terminals that occur on a right-hand side.
    pub open spec fn wf(self) -> bool {
        &&& self.variables == keys(self.productions)
        &&& self.variables.no_duplicates()
        &&& forall|i: int|
            0 <= i < self.productions.len() ==> {
                &&& (#[trigger] self.productions[i]).0 is Variable
                &&& self.productions[i].0.wf()
                &&& self.productions[i].1.len() > 0
            }
        &&& forall|i: int, j: int|
            self.is_rule(i, j) ==> (#[trigger] self.productions[i].1[j]).wf()
        &&& self.alphabet.no_duplicates()
        &&& forall|t: TokenView|
            #[trigger] self.alphabet.contains(t) <==> t is Terminal && self.occurs(t)
    }
}

/// What `add_terminals` holds: what the alphabet held, and the terminals among the
/// symbols. It adds nothing twice.
pub proof fn lemma_add_terminals(alphabet: Seq<TokenView>, symbols: Seq<TokenView>)
    ensures
        forall|t: TokenView|
            #[trigger] add_terminals(alphabet, symbols).contains(t) <==> alphabet.contains(t) || (t
                is Terminal && symbols.contains(t)),
        alphabet.no_duplicates() ==> add_terminals(alphabet, symbols).no_duplicates(),
    decreases symbols.len(),
{
    if symbols.len() > 0 {
        let front = symbols.drop_last();
        let last = symbols.last();
        let rest = add_terminals(alphabet, front);
        lemma_add_terminals(alphabet, front);
        assert forall|t: TokenView|
            #[trigger] add_terminals(alphabet, symbols).contains(t) <==> alphabet.contains(t) || (t
                is Terminal && symbols.contains(t)) by {
            if symbols.contains(t) {
                let k = choose|k: int| 0 <= k < symbols.len() && symbols[k] == t;
                if k < symbols.len() - 1 {
                    assert(front[k] == t);
                }
            }
            if front.contains(t) {
                let k = choose|k: int| 0 <= k < front.len() && front[k] == t;
                assert(symbols[k] == t);
            }
            assert(symbols[symbols.len() - 1] == last);
            if last is Terminal && !rest.contains(last) {
                assert(rest.push(last)[rest.len() as int] == last);
                if rest.push(last).contains(t) {
                    let k = choose|k: int|
                        0 <= k < rest.push(last).len() && rest.push(last)[k] == t;
                    if k < rest.len() {
                        assert(rest[k] == t);
                    }
                }
                if rest.contains(t) {
                    let k = choose|k: int| 0 <= k < rest.len() && rest[k] == t;
                    assert(rest.push(last)[k] == t);
                }
            }
        }
    }
}

/// What occurs in a grammar after a production is added: what occurred before,
/// and the symbols of the new rule.
pub proof fn lemma_add_production_occurs(
    g: GrammarView,
    lhs: TokenView,
    rule: RuleView,
    t: TokenView,
)
    ensures
        g.add_production(lhs, rule).occurs(t) <==> g.occurs(t) || rule.symbols().contains(t),
{
    let h = g.add_production(lhs, rule);
    let at = next_occurrence(keys(g.productions), lhs, 0);
    let n = g.productions.len() as int;
    lemma_next_occurrence(keys(g.productions), lhs, 0);
    if g.occurs(t) {
        let (i, j) = choose|i: int, j: int|
            g.is_rule(i, j) && (#[trigger] g.productions[i].1[j]).symbols().contains(t);
        assert(h.productions[i].1[j].symbols().contains(t));
    }
    if rule.symbols().contains(t) {
        if at < n {
            let j = g.productions[at].1.len() as int;
            assert(h.productions[at].1[j].symbols().contains(t));
        } else {
            assert(h.productions[n].1[0].symbols().contains(t));
        }
    }
}

/// Adding a well-formed production to a well-formed grammar leaves it well formed.
pub proof fn lemma_add_production_wf(g: GrammarView, lhs: TokenView, rule: RuleView)
    requires
        g.wf(),
        lhs is Variable,
        lhs.wf(),
        rule.wf(),
    ensures
        g.add_production(lhs, rule).wf(),
{
    let h = g.add_production(lhs, rule);
    let at = next_occurrence(keys(g.productions), lhs, 0);
    let n = g.productions.len() as int;
    lemma_next_occurrence(keys(g.productions), lhs, 0);
    lemma_add_terminals(g.alphabet, rule.symbols());
    if at < n {
        assert(keys(h.productions) =~= keys(g.productions));
    } else {
        assert(keys(h.productions) =~= keys(g.productions).push(lhs));
    }
    assert forall|t: TokenView| #[trigger]
        h.alphabet.contains(t) <==> t is Terminal && h.occurs(t) by {
        lemma_add_production_occurs(g, lhs, rule, t);
        assert(g.alphabet.contains(t) <==> t is Terminal && g.occurs(t));
    }
}

/// A grammar has one longest length of a right-hand side.
pub proof fn lemma_longest_rhs_unique(g: GrammarView, n: nat, m: nat)
    requires
        g.is_longest_rhs(n),
        g.is_longest_rhs(m),
    ensures
        n == m,
{
}

/// A context-free grammar. Its start variable is `S`.
#[derive(Debug)]
pub struct CFG {
    /// Each variable that has productions, in the order of first declaration, with
    /// its rules in the order of declaration.
    pub productions: Vec<(Token, Vec<ProductionRule>)>,
    /// The terminals that occur on a right-hand side.
    pub alphabet: Vec<Token>,
    /// The variables that occur on a left-hand side.
    pub variables: Vec<Token>,
}

impl View for CFG {
    type V = GrammarView;

    open spec fn view(&self) -> GrammarView {
        GrammarView {
            productions: self.productions.deep_view(),
            alphabet: self.alphabet.deep_view(),
            variables: self.variables.deep_view(),
        }
    }
}

impl DeepView for CFG {
    type V = GrammarView;

    open spec fn deep_view(&self) -> GrammarView {
        self@
    }
}

impl Default for CFG {
    fn default() -> (res: Self)
        ensures
            res@ == GrammarView::empty(),
    {
        let res = CFG { productions: Vec::new(), alphabet: Vec::new(), variables: Vec::new() };
        assert(res.productions.deep_view() =~= Seq::empty());
        assert(res.alphabet.deep_view() =~= Seq::empty());
        res
    }
}

impl Clone for CFG {
    fn clone(&self) -> (res: Self)
        ensures
            res@ == self@,
    {
        let mut productions: Vec<(Token, Vec<ProductionRule>)> = Vec::new();
        let mut i: usize = 0;
        while i < self.productions.len()
            invariant
                i <= self.productions.len(),
                productions.len() == i,
                forall|k: int|
                    0 <= k < i ==> productions[k].deep_view() == self.productions[k].deep_view(),
            decreases self.productions.len() - i,
        {
            let rules = &self.productions[i].1;
            let mut copy: Vec<ProductionRule> = Vec::new();
            let mut j: usize = 0;
            while j < rules.len()
                invariant
                    j <= rules.len(),
                    copy.len() == j,
                    forall|k: int| 0 <= k < j ==> copy[k]@ == rules[k]@,
                decreases rules.len() - j,
            {
                copy.push(rules[j].clone());
                j += 1;
            }
            productions.push((self.productions[i].0.clone(), copy));
            i += 1;
        }
        assert(productions.deep_view() =~= self.productions.deep_view());
        CFG {
            productions,
            alphabet: clone_tokens(&self.alphabet),
            variables: clone_tokens(&self.variables),
        }
    }
}

/// Adds `token` to `tokens` unless it is already there.
fn insert_token(tokens: &mut Vec<Token>, token: Token)
    ensures
        final(tokens).deep_view() == add_token(old(tokens).deep_view(), token@),
{
    let ghost before = tokens.deep_view();
    let pos = find_from(tokens, &token, 0);
    proof {
        lemma_next_occurrence(before, token@, 0);
    }
    if pos == tokens.len() {
        tokens.push(token);
    }
}

/// Finds the first entry for `key`: its position, or the number of entries if there is none.
fn find_key(productions: &Vec<(Token, Vec<ProductionRule>)>, key: &Token) -> (pos: usize)
    ensures
        pos == next_occurrence(keys(productions.deep_view()), key@, 0),
        pos <= productions.len(),
{
    let ghost all = keys(productions.deep_view());
    let mut i: usize = 0;
    while i < productions.len()
        invariant
            i <= productions.len(),
            all == keys(productions.deep_view()),
            next_occurrence(all, key@, 0) == next_occurrence(all, key@, i as int),
        decreases productions.len() - i,
    {
        if productions[i].0 == *key {
            return i;
        }
        i += 1;
    }
    i
}

impl CFG {
    /// Whether the grammar derives `input` from `S`, as far as a search that spends
    /// at most `budget` expansions on a branch can tell: whether the automaton of
    /// the grammar accepts `input` within that bound. For a well-formed grammar
    /// that is the case exactly if `S` derives `input` by fewer than `budget`
    /// expansions.
    pub fn trace_string(&self, input: &str, budget: isize) -> (b: bool)
        ensures
            b == accepts(pda_of(self@, budget), input@, bound_of(budget)),
            self@.wf() ==> b == (budget >= 1 && self@.derives(
                seq![start_symbol()],
                input@,
                (budget - 1) as nat,
            )),
    {
        proof {
            if self@.wf() {
                lemma_accepts_iff_derives(self@, budget, input@, bound_of(budget));
            }
        }
        let mut pda = PDA::with_cfg(self, budget);
        pda.trace(input)
    }

    /// The length of the longest right-hand side in the grammar.
    pub fn longest_derivation_length(&self) -> (n: usize)
        ensures
            self@.is_longest_rhs(n as nat),
            n == self@.longest_rhs(),
    {
        let ghost g = self@;
        let mut best: usize = 0;
        let mut i: usize = 0;
        while i < self.productions.len()
            invariant
                i <= self.productions.len(),
                g == self@,
                forall|a: int, b: int|
                    g.is_rule(a, b) && a < i ==> (#[trigger] g.productions[a].1[b]).symbols().len()
                        <= best,
                best == 0 || exists|a: int, b: int|
                    g.is_rule(a, b) && (#[trigger] g.productions[a].1[b]).symbols().len() == best,
            decreases self.productions.len() - i,
        {
            let rules = &self.productions[i].1;
            let mut j: usize = 0;
            while j < rules.len()
                invariant
                    i < self.productions.len(),
                    j <= rules.len(),
                    g == self@,
                    g.productions[i as int].1 == rules.deep_view(),
                    forall|a: int, b: int|
                        g.is_rule(a, b) && (a < i || (a == i && b < j)) ==> (
                        #[trigger] g.productions[a].1[b]).symbols().len() <= best,
                    best == 0 || exists|a: int, b: int|
                        g.is_rule(a, b) && (#[trigger] g.productions[a].1[b]).symbols().len()
                            == best,
                decreases rules.len() - j,
            {
                assert(g.productions[i as int].1[j as int] == rules[j as int]@);
                match &rules[j] {
                    ProductionRule::Sequence(tokens) => {
                        if tokens.len() > best {
                            best = tokens.len();
                        }
                    },
                    ProductionRule::Empty => {},
                }
                j += 1;
            }
            i += 1;
        }
        proof {
            lemma_longest_rhs_unique(g, best as nat, g.longest_rhs());
        }
        best
    }

    /// Adds the production `lhs -> rule` after the others.
    pub fn add_production(&mut self, lhs: Token, rule: ProductionRule)
        ensures
            final(self)@ == old(self)@.add_production(lhs@, rule@),
    {
        let ghost before = self@;
        match &rule {
            ProductionRule::Sequence(tokens) => {
                let mut k: usize = 0;
                while k < tokens.len()
                    invariant
                        k <= tokens.len(),
                        self.productions == old(self).productions,
                        self.variables == old(self).variables,
                        self.alphabet.deep_view() == add_terminals(
                            before.alphabet,
                            tokens.deep_view().take(k as int),
                        ),
                    decreases tokens.len() - k,
                {
                    assert(tokens.deep_view().take(k + 1).drop_last() =~= tokens.deep_view().take(
                        k as int,
                    ));
                    if tokens[k].is_terminal() {
                        insert_token(&mut self.alphabet, tokens[k].clone());
                    }
                    k += 1;
                }
                assert(tokens.deep_view().take(k as int) =~= tokens.deep_view());
            },
            ProductionRule::Empty => {},
        }
        insert_token(&mut self.variables, lhs.clone());
        let i = find_key(&self.productions, &lhs);
        if i < self.productions.len() {
            let ghost old_rules = self.productions[i as int].1.deep_view();
            self.productions[i].1.push(rule);
            assert(self.productions[i as int].1.deep_view() =~= old_rules.push(rule@));
            assert(self.productions.deep_view() =~= add_rule(before.productions, lhs@, rule@));
        } else {
            let mut rules: Vec<ProductionRule> = Vec::new();
            rules.push(rule);
            assert(rules.deep_view() =~= seq![rule@]);
            self.productions.push((lhs, rules));
            assert(self.productions.deep_view() =~= add_rule(before.productions, lhs@, rule@));
        }
    }
}

} // verus!
