//! Pushdown automata built from grammars.

use vstd::prelude::*;
use vstd::std_specs::cmp::PartialEqSpecImpl;
use crate::cfg::{keys, GrammarView, CFG};
use crate::productionrule::{ProductionRule, RuleView};
use crate::token::{clone_tokens, Token, TokenView};
use crate::trace::{accepts, lemma_accepts_unfold, ConfigView, PDAConfiguration};
use crate::worklist::{
    any_accepts, lemma_push, lemma_row_of_other_state, row_size, table_size, total_size,
};

verus! {

/// A state of an automaton.
pub type PDAState = usize;

/// The mathematical value of a [`StackAlphabet`].
pub enum StackView {
    Epsilon,
    Symbol(TokenView),
    EOF,
}

/// What a transition reads or pops, and what lies on the stack.
#[derive(Debug, Eq)]
pub enum StackAlphabet {
    /// Nothing: a transition that reads `Epsilon` consumes no input, one that pops
    /// `Epsilon` leaves the stack as it is. It never lies on a stack.
    Epsilon,
    /// A grammar symbol.
    Symbol(Token),
    /// The marker at the bottom of the stack.
    EOF,
}

impl View for StackAlphabet {
    type V = StackView;

    open spec fn view(&self) -> StackView {
        match self {
            StackAlphabet::Epsilon => StackView::Epsilon,
            StackAlphabet::Symbol(token) => StackView::Symbol(token@),
            StackAlphabet::EOF => StackView::EOF,
        }
    }
}

impl DeepView for StackAlphabet {
    type V = StackView;

    open spec fn deep_view(&self) -> StackView {
        self@
    }
}

impl Default for StackAlphabet {
    fn default() -> (res: Self)
        ensures
            res@ == StackView::EOF,
    {
        StackAlphabet::EOF
    }
}

impl Clone for StackAlphabet {
    fn clone(&self) -> (res: Self)
        ensures
            res@ == self@,
    {
        match self {
            StackAlphabet::Epsilon => StackAlphabet::Epsilon,
            StackAlphabet::Symbol(token) => StackAlphabet::Symbol(token.clone()),
            StackAlphabet::EOF => StackAlphabet::EOF,
        }
    }
}

impl PartialEq for StackAlphabet {
    fn eq(&self, other: &Self) -> (r: bool) {
        match (self, other) {
            (StackAlphabet::Epsilon, StackAlphabet::Epsilon) => true,
            (StackAlphabet::Symbol(a), StackAlphabet::Symbol(b)) => *a == *b,
            (StackAlphabet::EOF, StackAlphabet::EOF) => true,
            _ => false,
        }
    }
}

impl PartialEqSpecImpl for StackAlphabet {
    open spec fn obeys_eq_spec() -> bool {
        true
    }

    open spec fn eq_spec(&self, other: &Self) -> bool {
        self@ == other@
    }
}

/// The mathematical value of a [`TableEntry`].
pub struct EntryView {
    pub state: PDAState,
    pub read: StackView,
    pub pop: StackView,
    pub targets: Seq<(Seq<TokenView>, PDAState)>,
}

/// The transitions of one state for one pair of a symbol read and a symbol popped.
#[derive(Debug)]
pub struct TableEntry {
    /// The state that the transitions leave.
    pub state: PDAState,
    /// What they read: `Epsilon` or a terminal.
    pub read: StackAlphabet,
    /// What they pop.
    pub pop: StackAlphabet,
    /// The alternatives: the symbols to push, the last of them on top, and the state
    /// to go to.
    pub targets: Vec<(Vec<Token>, PDAState)>,
}

impl View for TableEntry {
    type V = EntryView;

    open spec fn view(&self) -> EntryView {
        EntryView {
            state: self.state,
            read: self.read@,
            pop: self.pop@,
            targets: self.targets.deep_view(),
        }
    }
}

impl DeepView for TableEntry {
    type V = EntryView;

    open spec fn deep_view(&self) -> EntryView {
        self@
    }
}

impl Clone for TableEntry {
    fn clone(&self) -> (res: Self)
        ensures
            res@ == self@,
    {
        let mut targets: Vec<(Vec<Token>, PDAState)> = Vec::new();
        let mut j: usize = 0;
        while j < self.targets.len()
            invariant
                j <= self.targets.len(),
                targets.len() == j,
                forall|k: int| 0 <= k < j ==> targets[k].deep_view() == self.targets[k].deep_view(),
            decreases self.targets.len() - j,
        {
            targets.push((clone_tokens(&self.targets[j].0), self.targets[j].1));
            j += 1;
        }
        assert(targets.deep_view() =~= self.targets.deep_view());
        TableEntry { state: self.state, read: self.read.clone(), pop: self.pop.clone(), targets }
    }
}

/// The mathematical value of a [`PDA`].
pub struct PdaView {
    /// The states: `0`, `1` and so on.
    pub states: Seq<PDAState>,
    pub start_state: PDAState,
    pub final_state: PDAState,
    /// The stack, its top last.
    pub stack: Seq<StackView>,
    /// The transitions, in the order in which they are tried.
    pub table: Seq<EntryView>,
    /// The number of expansions that a run may spend.
    pub budget: isize,
}

/// The start variable of every grammar.
pub open spec fn start_symbol() -> TokenView {
    TokenView::Variable(seq!['S'])
}

/// The transition that matches terminal `a` on the stack against `a` in the input.
pub open spec fn terminal_entry(a: TokenView) -> EntryView {
    EntryView {
        state: 0,
        read: StackView::Symbol(a),
        pop: StackView::Symbol(a),
        targets: seq![(Seq::empty(), 0usize)],
    }
}

/// What rule `rule` pushes in place of its variable: its symbols in reverse, so
/// that the first of them comes to lie on top, and the state to go on in.
pub open spec fn expansion(rule: RuleView) -> (Seq<TokenView>, PDAState) {
    (rule.symbols().reverse(), 0usize)
}

/// The transitions that replace a variable on the stack by one of its rules.
pub open spec fn expansion_entry(production: (TokenView, Seq<RuleView>)) -> EntryView {
    EntryView {
        state: 0,
        read: StackView::Epsilon,
        pop: StackView::Symbol(production.0),
        targets: production.1.map_values(|rule: RuleView| expansion(rule)),
    }
}

/// The transition that takes the marker off the stack and goes to the final state.
pub open spec fn eof_entry() -> EntryView {
    EntryView {
        state: 0,
        read: StackView::Epsilon,
        pop: StackView::EOF,
        targets: seq![(Seq::empty(), 1usize)],
    }
}

/// The transition table of the automaton of grammar `g`: first the transitions
/// that match the terminals, then those that expand the variables, then the one
/// that ends the run.
pub open spec fn table_of(g: GrammarView) -> Seq<EntryView> {
    g.alphabet.map_values(|a: TokenView| terminal_entry(a)) + g.productions.map_values(
        |p: (TokenView, Seq<RuleView>)| expansion_entry(p),
    ) + seq![eof_entry()]
}

/// The automaton of grammar `g`: it works in state `0` and ends in state `1`, and
/// starts with the start variable on the marker.
pub open spec fn pda_of(g: GrammarView, budget: isize) -> PdaView {
    PdaView {
        states: seq![0usize, 1usize],
        start_state: 0,
        final_state: 1,
        stack: seq![StackView::EOF, StackView::Symbol(start_symbol())],
        table: table_of(g),
        budget,
    }
}

/// The bound that a budget stands for: a negative budget allows no expansion.
pub open spec fn bound_of(budget: isize) -> nat {
    if budget < 0 {
        0
    } else {
        budget as nat
    }
}

impl PdaView {
    /// Whether `(i, j)` names a transition: the `j`-th alternative of the `i`-th entry.
    pub open spec fn is_transition(self, i: int, j: int) -> bool {
        0 <= i < self.table.len() && 0 <= j < self.table[i].targets.len()
    }

    /// A well-formed automaton: its states are numbered from 0, every state that it
    /// names is one of them, no transition leaves the final state, only the start
    /// state pops the marker, and every transition pops something, so that no run
    /// goes on for ever.
    pub open spec fn wf(self) -> bool {
        &&& forall|q: int| 0 <= q < self.states.len() ==> #[trigger] self.states[q] == q
        &&& self.start_state < self.states.len()
        &&& self.final_state < self.states.len()
        &&& forall|i: int|
            0 <= i < self.table.len() ==> {
                &&& (#[trigger] self.table[i]).state < self.states.len()
                &&& self.table[i].state != self.final_state
                &&& self.table[i].pop !is Epsilon
                &&& (self.table[i].pop is EOF ==> self.table[i].state == self.start_state)
            }
        &&& forall|i: int, j: int|
            self.is_transition(i, j) ==> (#[trigger] self.table[i].targets[j]).1
                < self.states.len()
    }
}

/// The table of a well-formed grammar is a mapping: no two of its entries leave
/// the same state, read the same and pop the same.
pub proof fn lemma_table_of_is_mapping(g: GrammarView, i: int, k: int)
    requires
        g.wf(),
        0 <= i < k < table_of(g).len(),
    ensures
        !({
            &&& table_of(g)[i].state == table_of(g)[k].state
            &&& table_of(g)[i].read == table_of(g)[k].read
            &&& table_of(g)[i].pop == table_of(g)[k].pop
        }),
{
    let na = g.alphabet.len() as int;
    let np = g.productions.len() as int;
    if na <= i && k < na + np {
        assert(keys(g.productions)[i - na] == g.productions[i - na].0);
        assert(keys(g.productions)[k - na] == g.productions[k - na].0);
    }
}

/// The automaton of a grammar is well formed.
pub proof fn lemma_pda_of_wf(g: GrammarView, budget: isize)
    ensures
        pda_of(g, budget).wf(),
{
}

/// A pushdown automaton, with the stack it starts on and the budget of its runs.
#[derive(Debug)]
pub struct PDA {
    pub(crate) states: Vec<PDAState>,
    pub(crate) start_state: PDAState,
    pub(crate) final_state: PDAState,
    pub(crate) stack: Vec<StackAlphabet>,
    pub(crate) table: Vec<TableEntry>,
    pub(crate) budget: isize,
}

impl View for PDA {
    type V = PdaView;

    open(crate) spec fn view(&self) -> PdaView {
        PdaView {
            states: self.states@,
            start_state: self.start_state,
            final_state: self.final_state,
            stack: self.stack.deep_view(),
            table: self.table.deep_view(),
            budget: self.budget,
        }
    }
}

impl DeepView for PDA {
    type V = PdaView;

    open spec fn deep_view(&self) -> PdaView {
        self@
    }
}

/// Copies a stack.
pub fn clone_stack(stack: &Vec<StackAlphabet>) -> (res: Vec<StackAlphabet>)
    ensures
        res.deep_view() == stack.deep_view(),
{
    let mut res: Vec<StackAlphabet> = Vec::new();
    let mut i: usize = 0;
    while i < stack.len()
        invariant
            i <= stack.len(),
            res.len() == i,
            forall|k: int| 0 <= k < i ==> res[k]@ == stack[k]@,
        decreases stack.len() - i,
    {
        res.push(stack[i].clone());
        i += 1;
    }
    res
}

impl Clone for PDA {
    fn clone(&self) -> (res: Self)
        ensures
            res@ == self@,
    {
        let mut states: Vec<PDAState> = Vec::new();
        let mut q: usize = 0;
        while q < self.states.len()
            invariant
                q <= self.states.len(),
                states@ == self.states@.take(q as int),
            decreases self.states.len() - q,
        {
            states.push(self.states[q]);
            q += 1;
        }
        assert(self.states@.take(q as int) =~= self.states@);
        let mut table: Vec<TableEntry> = Vec::new();
        let mut i: usize = 0;
        while i < self.table.len()
            invariant
                i <= self.table.len(),
                table.len() == i,
                forall|k: int| 0 <= k < i ==> table[k]@ == self.table[k]@,
            decreases self.table.len() - i,
        {
            table.push(self.table[i].clone());
            i += 1;
        }
        assert(table.deep_view() =~= self.table.deep_view());
        PDA {
            states,
            start_state: self.start_state,
            final_state: self.final_state,
            stack: clone_stack(&self.stack),
            table,
            budget: self.budget,
        }
    }
}

/// The reverse of a list of tokens.
fn reversed(tokens: &Vec<Token>) -> (res: Vec<Token>)
    ensures
        res.deep_view() == tokens.deep_view().reverse(),
{
    let mut res: Vec<Token> = Vec::new();
    let mut i: usize = tokens.len();
    while i > 0
        invariant
            i <= tokens.len(),
            res.len() == tokens.len() - i,
            forall|k: int| 0 <= k < res.len() ==> res[k]@ == tokens[tokens.len() - 1 - k]@,
        decreases i,
    {
        i -= 1;
        res.push(tokens[i].clone());
    }
    res
}

impl PDA {
    /// The automaton of `cfg`, to be run with `budget`.
    pub fn with_cfg(cfg: &CFG, budget: isize) -> (rval: Self)
        ensures
            rval@ == pda_of(cfg@, budget),
            rval@.wf(),
    {
        let ghost g = cfg@;
        let ghost terminals = g.alphabet.map_values(|a: TokenView| terminal_entry(a));
        let ghost expansions = g.productions.map_values(
            |p: (TokenView, Seq<RuleView>)| expansion_entry(p),
        );
        let mut table: Vec<TableEntry> = Vec::new();
        let mut a: usize = 0;
        while a < cfg.alphabet.len()
            invariant
                a <= cfg.alphabet.len(),
                g == cfg@,
                terminals == g.alphabet.map_values(|a: TokenView| terminal_entry(a)),
                table.deep_view() == terminals.take(a as int),
            decreases cfg.alphabet.len() - a,
        {
            let ghost before = table.deep_view();
            let mut targets: Vec<(Vec<Token>, PDAState)> = Vec::new();
            targets.push((Vec::new(), 0));
            assert(targets.deep_view() =~~= seq![(Seq::<TokenView>::empty(), 0usize)]);
            let entry = TableEntry {
                state: 0,
                read: StackAlphabet::Symbol(cfg.alphabet[a].clone()),
                pop: StackAlphabet::Symbol(cfg.alphabet[a].clone()),
                targets,
            };
            table.push(entry);
            assert(table.deep_view() =~= before.push(terminals[a as int]));
            a += 1;
        }
        let mut p: usize = 0;
        while p < cfg.productions.len()
            invariant
                p <= cfg.productions.len(),
                g == cfg@,
                expansions == g.productions.map_values(
                    |p: (TokenView, Seq<RuleView>)| expansion_entry(p),
                ),
                table.deep_view() == terminals + expansions.take(p as int),
            decreases cfg.productions.len() - p,
        {
            let ghost before = table.deep_view();
            let rules = &cfg.productions[p].1;
            let ghost wanted = g.productions[p as int].1.map_values(
                |rule: RuleView| expansion(rule),
            );
            let mut targets: Vec<(Vec<Token>, PDAState)> = Vec::new();
            let mut r: usize = 0;
            while r < rules.len()
                invariant
                    r <= rules.len(),
                    g.productions[p as int].1 == rules.deep_view(),
                    wanted == g.productions[p as int].1.map_values(
                        |rule: RuleView| expansion(rule),
                    ),
                    targets.deep_view() == wanted.take(r as int),
                decreases rules.len() - r,
            {
                let ghost done = targets.deep_view();
                let push = match &rules[r] {
                    ProductionRule::Sequence(seq) => reversed(seq),
                    ProductionRule::Empty => Vec::new(),
                };
                assert(push.deep_view() =~= rules[r as int]@.symbols().reverse());
                targets.push((push, 0));
                assert(targets.deep_view() =~= done.push(wanted[r as int]));
                r += 1;
            }
            assert(wanted.take(r as int) =~= wanted);
            let entry = TableEntry {
                state: 0,
                read: StackAlphabet::Epsilon,
                pop: StackAlphabet::Symbol(cfg.productions[p].0.clone()),
                targets,
            };
            table.push(entry);
            assert(table.deep_view() =~= before.push(expansions[p as int]));
            p += 1;
        }
        assert(expansions.take(p as int) =~= expansions);
        let mut targets: Vec<(Vec<Token>, PDAState)> = Vec::new();
        targets.push((Vec::new(), 1));
        assert(targets.deep_view() =~~= seq![(Seq::<TokenView>::empty(), 1usize)]);
        table.push(
            TableEntry {
                state: 0,
                read: StackAlphabet::Epsilon,
                pop: StackAlphabet::EOF,
                targets,
            },
        );
        assert(table.deep_view() =~= table_of(g));
        let mut states: Vec<PDAState> = Vec::new();
        states.push(0);
        states.push(1);
        let mut stack: Vec<StackAlphabet> = Vec::new();
        stack.push(StackAlphabet::EOF);
        let start = "S".to_owned();
        proof {
            reveal_strlit("S");
            assert(start@ =~= seq!['S']);
        }
        stack.push(StackAlphabet::Symbol(Token::Variable(start)));
        let rval = PDA { states, start_state: 0, final_state: 1, stack, table, budget };
        assert(rval@.states =~= seq![0usize, 1usize]);
        assert(rval@.stack =~= seq![StackView::EOF, StackView::Symbol(start_symbol())]);
        rval
    }

    /// The states.
    pub fn states(&self) -> (states: &Vec<PDAState>)
        ensures
            states@ == self@.states,
    {
        &self.states
    }

    /// The state in which every run starts.
    pub fn start_state(&self) -> (state: PDAState)
        ensures
            state == self@.start_state,
    {
        self.start_state
    }

    /// The state in which a run accepts.
    pub fn final_state(&self) -> (state: PDAState)
        ensures
            state == self@.final_state,
    {
        self.final_state
    }

    /// The stack, its top last.
    pub fn stack(&self) -> (stack: &Vec<StackAlphabet>)
        ensures
            stack.deep_view() == self@.stack,
    {
        &self.stack
    }

    /// The transitions, in the order in which a search tries them.
    pub fn table(&self) -> (table: &Vec<TableEntry>)
        ensures
            table.deep_view() == self@.table,
    {
        &self.table
    }

    /// The number of expansions that a run of this automaton may spend.
    pub fn bound(&self) -> (bound: usize)
        ensures
            bound == bound_of(self@.budget),
    {
        if self.budget < 0 {
            0
        } else {
            self.budget as usize
        }
    }

    /// Whether the automaton accepts `input` within its budget, found by a
    /// depth-first search.
    pub fn trace(&mut self, input: &str) -> (b: bool)
        requires
            old(self)@.wf(),
        ensures
            b == accepts(old(self)@, input@, bound_of(old(self)@.budget)),
            final(self)@ == old(self)@,
    {
        let mut configuration = PDAConfiguration::with_pda(self.clone(), input, self.bound());
        configuration.trace()
    }

    /// Whether the automaton accepts `input` within its budget, found by a search
    /// that keeps the configurations still to be tried in a list of its own.
    pub fn trace_bfs(&mut self, input: &str) -> (b: bool)
        requires
            old(self)@.wf(),
        ensures
            b == accepts(old(self)@, input@, bound_of(old(self)@.budget)),
            final(self)@ == old(self)@,
    {
        let ghost start = ConfigView::initial(self@, input@, bound_of(self@.budget));
        let mut queue: Vec<PDAConfiguration> = Vec::new();
        queue.push(PDAConfiguration::with_pda(self.clone(), input, self.bound()));
        proof {
            assert(queue.deep_view() =~= Seq::<ConfigView>::empty().push(start));
            lemma_push(Seq::empty(), start);
        }
        while queue.len() > 0
            invariant
                self@ == old(self)@,
                start == ConfigView::initial(old(self)@, input@, bound_of(old(self)@.budget)),
                start.accepts() <==> any_accepts(queue.deep_view()),
                forall|k: int| 0 <= k < queue.len() ==> (#[trigger] queue.deep_view()[k]).pda.wf(),
            decreases total_size(queue.deep_view()),
        {
            let ghost before = queue.deep_view();
            let configuration = queue.pop().unwrap();
            let ghost c = configuration@;
            let ghost base = queue.deep_view();
            proof {
                assert(base =~= before.drop_last());
                assert(before =~= base.push(c));
                lemma_accepts_unfold(c);
            }
            if configuration.is_accepting() {
                return true;
            }
            // The successors are pushed last to first, so that they are taken off in
            // the order of the table.
            let mut i: usize = configuration.pda.table.len();
            while i > 0
                invariant
                    i <= configuration.pda.table.len(),
                    configuration@ == c,
                    c.pda.wf(),
                    any_accepts(queue.deep_view()) <==> any_accepts(base) || exists|a: int, b: int|
                        i <= a && (#[trigger] c.successor(a, b)) is Some && c.successor(
                            a,
                            b,
                        )->0.accepts(),
                    total_size(queue.deep_view()) == total_size(base) + table_size(
                        c,
                        c.pda.table.len() as int,
                    ) - table_size(c, i as int),
                    forall|k: int|
                        0 <= k < queue.len() ==> (#[trigger] queue.deep_view()[k]).pda.wf(),
                decreases i,
            {
                i -= 1;
                let entry = &configuration.pda.table[i];
                if entry.state == configuration.state {
                    let mut j: usize = entry.targets.len();
                    while j > 0
                        invariant
                            i < configuration.pda.table.len(),
                            j <= entry.targets.len(),
                            configuration@ == c,
                            c.pda.wf(),
                            c.pda.table[i as int] == entry@,
                            entry.state == configuration.state,
                            any_accepts(queue.deep_view()) <==> any_accepts(base) || exists|
                                a: int,
                                b: int,
                            |
                                (i < a || (a == i && j <= b)) && (#[trigger] c.successor(a, b))
                                    is Some && c.successor(a, b)->0.accepts(),
                            total_size(queue.deep_view()) == total_size(base) + table_size(
                                c,
                                c.pda.table.len() as int,
                            ) - table_size(c, i + 1) + row_size(
                                c,
                                i as int,
                                entry.targets.len() as int,
                            ) - row_size(c, i as int, j as int),
                            forall|k: int|
                                0 <= k < queue.len() ==> (#[trigger] queue.deep_view()[k]).pda.wf(),
                        decreases j,
                    {
                        j -= 1;
                        let ghost pending = queue.deep_view();
                        match configuration.step(
                            &entry.targets[j].0,
                            &entry.pop,
                            &entry.read,
                            entry.targets[j].1,
                        ) {
                            Some(next) => {
                                proof {
                                    lemma_push(pending, next@);
                                }
                                queue.push(next);
                                assert(queue.deep_view() =~= pending.push(
                                    c.successor(i as int, j as int)->0,
                                ));
                            },
                            None => {},
                        }
                    }
                } else {
                    proof {
                        lemma_row_of_other_state(
                            c,
                            i as int,
                            c.pda.table[i as int].targets.len() as int,
                        );
                    }
                }
            }
        }
        false
    }

    /// The symbol on top of the stack, if the stack holds any.
    pub fn get_stack_top(&self) -> (top: Option<&StackAlphabet>)
        ensures
            self@.stack.len() == 0 ==> top is None,
            self@.stack.len() > 0 ==> top is Some && top->0@ == self@.stack.last(),
    {
        if self.stack.len() == 0 {
            None
        } else {
            Some(&self.stack[self.stack.len() - 1])
        }
    }
}

} // verus!
