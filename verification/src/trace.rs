//! The bounded search for an accepting run.

use vstd::prelude::*;
use crate::pda::{PDAState, PdaView, StackAlphabet, StackView, PDA};
use crate::token::{Token, TokenView};

verus! {

/// The mathematical value of a [`PDAConfiguration`]: an automaton with the stack
/// as it stands, the state, the input still to be read and the number of
/// expansions still allowed.
pub struct ConfigView {
    pub pda: PdaView,
    pub state: PDAState,
    pub input: Seq<char>,
    pub bound: nat,
}

/// The stack symbols that a list of tokens stands for.
pub open spec fn symbols_of(tokens: Seq<TokenView>) -> Seq<StackView> {
    tokens.map_values(|t: TokenView| StackView::Symbol(t))
}

/// The number of markers on a stack.
pub open spec fn count_eof(stack: Seq<StackView>) -> nat
    decreases stack.len(),
{
    if stack.len() == 0 {
        0
    } else {
        count_eof(stack.drop_last()) + if stack.last() is EOF {
            1nat
        } else {
            0nat
        }
    }
}

impl ConfigView {
    /// The configuration in which `pda` starts on `input` with `bound` expansions.
    pub open spec fn initial(pda: PdaView, input: Seq<char>, bound: nat) -> ConfigView {
        ConfigView { pda, state: pda.start_state, input, bound }
    }

    /// A configuration accepts when the input is read and the state is final.
    pub open spec fn accepting(self) -> bool {
        self.input.len() == 0 && self.state == self.pda.final_state
    }

    /// Whether `symbol` lies on top of the stack.
    pub open spec fn top_is(self, symbol: StackView) -> bool {
        self.pda.stack.len() > 0 && self.pda.stack.last() == symbol
    }

    /// This configuration after its stack has become `stack`, with `push` then
    /// pushed on it, in state `next`.
    pub open spec fn moved(
        self,
        stack: Seq<StackView>,
        input: Seq<char>,
        bound: nat,
        push: Seq<TokenView>,
        next: PDAState,
    ) -> ConfigView {
        ConfigView {
            pda: PdaView { stack: stack + symbols_of(push), ..self.pda },
            state: next,
            input,
            bound,
        }
    }

    /// The configuration that a transition leads to, if it applies. No transition
    /// applies once the bound is 0. One that pops `Epsilon` leaves the stack as it
    /// is. One that pops a terminal needs that terminal on top of the stack, as what
    /// it reads and as the first character of the input, and consumes that
    /// character. One that pops a variable needs it on top of the stack, and spends
    /// one expansion. One that pops the marker needs it on top of the stack.
    pub open spec fn apply(
        self,
        read: StackView,
        pop: StackView,
        push: Seq<TokenView>,
        next: PDAState,
    ) -> Option<ConfigView> {
        if self.bound == 0 {
            None
        } else {
            match pop {
                StackView::Epsilon => Some(
                    self.moved(self.pda.stack, self.input, self.bound, push, next),
                ),
                StackView::Symbol(TokenView::Terminal(name)) => {
                    if self.top_is(pop) && self.input.len() > 0 && read == pop && name
                        == seq![self.input[0]] {
                        Some(
                            self.moved(
                                self.pda.stack.drop_last(),
                                self.input.drop_first(),
                                self.bound,
                                push,
                                next,
                            ),
                        )
                    } else {
                        None
                    }
                },
                StackView::Symbol(TokenView::Variable(_)) => {
                    if self.top_is(pop) {
                        Some(
                            self.moved(
                                self.pda.stack.drop_last(),
                                self.input,
                                (self.bound - 1) as nat,
                                push,
                                next,
                            ),
                        )
                    } else {
                        None
                    }
                },
                StackView::EOF => {
                    if self.top_is(pop) {
                        Some(
                            self.moved(
                                self.pda.stack.drop_last(),
                                self.input,
                                self.bound,
                                push,
                                next,
                            ),
                        )
                    } else {
                        None
                    }
                },
            }
        }
    }

    /// The configuration that the `j`-th alternative of the `i`-th table entry leads
    /// to, if there is such a transition, it leaves the current state, and it applies.
    pub open spec fn successor(self, i: int, j: int) -> Option<ConfigView> {
        if self.pda.is_transition(i, j) && self.pda.table[i].state == self.state {
            self.apply(
                self.pda.table[i].read,
                self.pda.table[i].pop,
                self.pda.table[i].targets[j].0,
                self.pda.table[i].targets[j].1,
            )
        } else {
            None
        }
    }

    /// Whether the transitions that `run` names, taken one after the other, lead
    /// from this configuration to an accepting one.
    pub open spec fn accepts_by(self, run: Seq<(int, int)>) -> bool
        decreases run.len(),
    {
        if run.len() == 0 {
            self.accepting()
        } else {
            match self.successor(run[0].0, run[0].1) {
                Some(next) => next.accepts_by(run.drop_first()),
                None => false,
            }
        }
    }

    /// Whether some run leads from this configuration to an accepting one.
    pub open spec fn accepts(self) -> bool {
        exists|run: Seq<(int, int)>| self.accepts_by(run)
    }
}

/// Whether `pda` accepts `input` within `bound` expansions.
pub open spec fn accepts(pda: PdaView, input: Seq<char>, bound: nat) -> bool {
    ConfigView::initial(pda, input, bound).accepts()
}

/// A configuration leads to acceptance exactly if it accepts or one of its
/// successors leads to acceptance.
pub proof fn lemma_accepts_unfold(c: ConfigView)
    ensures
        c.accepts() <==> c.accepting() || exists|i: int, j: int|
            (#[trigger] c.successor(i, j)) is Some && c.successor(i, j)->0.accepts(),
{
    if c.accepts() {
        let run = choose|run: Seq<(int, int)>| c.accepts_by(run);
        if run.len() > 0 {
            let next = c.successor(run[0].0, run[0].1)->0;
            assert(next.accepts_by(run.drop_first()));
        }
    }
    if c.accepting() {
        assert(c.accepts_by(Seq::empty()));
    }
    if exists|i: int, j: int|
        (#[trigger] c.successor(i, j)) is Some && c.successor(i, j)->0.accepts() {
        let (i, j) = choose|i: int, j: int|
            (#[trigger] c.successor(i, j)) is Some && c.successor(i, j)->0.accepts();
        let next = c.successor(i, j)->0;
        let rest = choose|run: Seq<(int, int)>| next.accepts_by(run);
        let run = seq![(i, j)] + rest;
        assert(run.drop_first() =~= rest);
        assert(c.accepts_by(run));
    }
}

/// Pushing grammar symbols adds no marker.
pub proof fn lemma_count_eof_push(stack: Seq<StackView>, push: Seq<TokenView>)
    ensures
        count_eof(stack + symbols_of(push)) == count_eof(stack),
    decreases push.len(),
{
    if push.len() > 0 {
        lemma_count_eof_push(stack, push.drop_last());
        assert((stack + symbols_of(push)).drop_last() =~= stack + symbols_of(push.drop_last()));
    }
}

/// A transition that pops something leads to a configuration that is smaller: it
/// has spent an expansion, or else consumed input, or else taken a marker off.
pub proof fn lemma_apply_decreases(
    c: ConfigView,
    read: StackView,
    pop: StackView,
    push: Seq<TokenView>,
    next: PDAState,
)
    requires
        c.apply(read, pop, push, next) is Some,
        pop !is Epsilon,
    ensures
        ({
            let d = c.apply(read, pop, push, next)->0;
            &&& d.pda.table == c.pda.table
            &&& d.pda.states == c.pda.states
            &&& d.pda.start_state == c.pda.start_state
            &&& d.pda.final_state == c.pda.final_state
            &&& d.pda.budget == c.pda.budget
            &&& d.bound <= c.bound
            &&& d.bound == c.bound ==> d.input.len() <= c.input.len()
            &&& d.bound == c.bound && d.input.len() == c.input.len() ==> count_eof(d.pda.stack)
                < count_eof(c.pda.stack)
        }),
{
    lemma_count_eof_push(c.pda.stack.drop_last(), push);
}

/// A configuration of a search: an automaton with the stack as it stands, the
/// state, the input still to be read and the number of expansions still allowed.
#[derive(Debug)]
pub struct PDAConfiguration<'a> {
    pub(crate) pda: PDA,
    pub(crate) state: PDAState,
    pub(crate) input: &'a str,
    pub(crate) bound: usize,
}

impl<'a> View for PDAConfiguration<'a> {
    type V = ConfigView;

    open(crate) spec fn view(&self) -> ConfigView {
        ConfigView {
            pda: self.pda@,
            state: self.state,
            input: self.input@,
            bound: self.bound as nat,
        }
    }
}

impl<'a> DeepView for PDAConfiguration<'a> {
    type V = ConfigView;

    open spec fn deep_view(&self) -> ConfigView {
        self@
    }
}

impl<'a> Clone for PDAConfiguration<'a> {
    fn clone(&self) -> (res: Self)
        ensures
            res@ == self@,
    {
        PDAConfiguration {
            pda: self.pda.clone(),
            state: self.state,
            input: self.input,
            bound: self.bound,
        }
    }
}

impl<'a> PDAConfiguration<'a> {
    /// The configuration in which `pda` starts on `input_string` with `bound`
    /// expansions.
    pub fn with_pda(pda: PDA, input_string: &'a str, bound: usize) -> (configuration: Self)
        ensures
            configuration@ == ConfigView::initial(pda@, input_string@, bound as nat),
    {
        let start = pda.start_state;
        Self { pda, state: start, input: input_string, bound }
    }

    /// The automaton, with the stack as it stands.
    pub fn pda(&self) -> (pda: &PDA)
        ensures
            pda@ == self@.pda,
    {
        &self.pda
    }

    /// The state.
    pub fn state(&self) -> (state: PDAState)
        ensures
            state == self@.state,
    {
        self.state
    }

    /// The input still to be read.
    pub fn input(&self) -> (input: &'a str)
        ensures
            input@ == self@.input,
    {
        self.input
    }

    /// The number of expansions still allowed.
    pub fn bound(&self) -> (bound: usize)
        ensures
            bound == self@.bound,
    {
        self.bound
    }

    /// Whether this configuration accepts: the input is read and the state is final.
    pub fn is_accepting(&self) -> (b: bool)
        ensures
            b == self@.accepting(),
    {
        self.input.is_empty() && self.state == self.pda.final_state
    }

    /// Takes one transition: the configuration that it leads to, if it applies.
    pub fn step(
        &self,
        push: &Vec<Token>,
        pop: &StackAlphabet,
        read: &StackAlphabet,
        next_state: PDAState,
    ) -> (next: Option<PDAConfiguration<'a>>)
        ensures
            match next {
                Some(configuration) => self@.apply(read@, pop@, push.deep_view(), next_state)
                    == Some(configuration@),
                None => self@.apply(read@, pop@, push.deep_view(), next_state) is None,
            },
    {
        if self.bound == 0 {
            return None;
        }
        let mut copy = PDAConfiguration::with_pda(self.pda.clone(), self.input, self.bound);
        let top_matches = match self.pda.get_stack_top() {
            Some(top) => *top == *pop,
            None => false,
        };
        match pop {
            StackAlphabet::Symbol(Token::Terminal(name)) => {
                if !top_matches || self.input.is_empty() || *read != *pop {
                    return None;
                }
                let length = self.input.unicode_len();
                let first = self.input.get_char(0);
                if !(name.as_str().unicode_len() == 1 && name.as_str().get_char(0) == first) {
                    return None;
                }
                assert(name@ =~= seq![first]);
                copy.pda.stack.pop();
                copy.input = self.input.substring_char(1, length);
            },
            StackAlphabet::Symbol(Token::Variable(_)) => {
                if !top_matches {
                    return None;
                }
                copy.pda.stack.pop();
                copy.bound -= 1;
            },
            StackAlphabet::EOF => {
                if !top_matches {
                    return None;
                }
                copy.pda.stack.pop();
            },
            StackAlphabet::Epsilon => {},
        }
        let ghost base = copy.pda.stack.deep_view();
        let ghost input = copy.input@;
        let ghost bound = copy.bound;
        assert(base =~= if pop@ is Epsilon {
            self@.pda.stack
        } else {
            self@.pda.stack.drop_last()
        });
        let mut k: usize = 0;
        while k < push.len()
            invariant
                k <= push.len(),
                copy.pda.stack.deep_view() == base + symbols_of(push.deep_view().take(k as int)),
                copy.pda.states@ == self.pda.states@,
                copy.pda.start_state == self.pda.start_state,
                copy.pda.final_state == self.pda.final_state,
                copy.pda.table.deep_view() == self.pda.table.deep_view(),
                copy.pda.budget == self.pda.budget,
                copy.input@ == input,
                copy.bound == bound,
            decreases push.len() - k,
        {
            let ghost before = copy.pda.stack.deep_view();
            copy.pda.stack.push(StackAlphabet::Symbol(push[k].clone()));
            assert(copy.pda.stack.deep_view() =~= before.push(StackView::Symbol(push[k as int]@)));
            k += 1;
        }
        assert(push.deep_view().take(k as int) =~= push.deep_view());
        copy.state = next_state;
        Some(copy)
    }

    /// Takes one transition in a copy of this configuration and searches on from
    /// there: whether the transition applies and leads to acceptance.
    pub fn run_copy(
        &self,
        push: &Vec<Token>,
        pop: &StackAlphabet,
        read: &StackAlphabet,
        current_state: PDAState,
    ) -> (b: bool)
        requires
            self@.pda.wf(),
            pop@ !is Epsilon,
        ensures
            b == (self@.apply(read@, pop@, push.deep_view(), current_state) is Some && self@.apply(
                read@,
                pop@,
                push.deep_view(),
                current_state,
            )->0.accepts()),
        decreases self@.bound, self@.input.len(), count_eof(self@.pda.stack), 0nat,
    {
        match self.step(push, pop, read, current_state) {
            Some(mut copy) => {
                proof {
                    lemma_apply_decreases(self@, read@, pop@, push.deep_view(), current_state);
                }
                copy.trace()
            },
            None => false,
        }
    }

    /// Searches for an accepting run from this configuration, depth first, trying
    /// the transitions in the order of the table: whether there is one. The search
    /// ends, since every transition spends an expansion, consumes input or takes a
    /// marker off the stack.
    pub fn trace(&mut self) -> (b: bool)
        requires
            old(self)@.pda.wf(),
        ensures
            b == old(self)@.accepts(),
            final(self)@ == old(self)@,
        decreases old(self)@.bound, old(self)@.input.len(), count_eof(old(self)@.pda.stack), 1nat,
    {
        let ghost c = self@;
        proof {
            lemma_accepts_unfold(c);
        }
        if self.is_accepting() {
            return true;
        }
        if self.bound == 0 {
            return false;
        }
        let mut i: usize = 0;
        while i < self.pda.table.len()
            invariant
                i <= self.pda.table.len(),
                self@ == c,
                c == old(self)@,
                c.pda.wf(),
                forall|a: int, b: int|
                    0 <= a < i && (#[trigger] c.successor(a, b)) is Some ==> !c.successor(
                        a,
                        b,
                    )->0.accepts(),
            decreases self.pda.table.len() - i,
        {
            if self.pda.table[i].state == self.state {
                let mut j: usize = 0;
                while j < self.pda.table[i].targets.len()
                    invariant
                        i < self.pda.table.len(),
                        j <= self.pda.table[i as int].targets.len(),
                        self@ == c,
                        c == old(self)@,
                        c.pda.wf(),
                        self.pda.table[i as int].state == self.state,
                        forall|a: int, b: int|
                            (0 <= a < i || (a == i && b < j)) && (#[trigger] c.successor(a, b))
                                is Some ==> !c.successor(a, b)->0.accepts(),
                    decreases self.pda.table[i as int].targets.len() - j,
                {
                    let entry = &self.pda.table[i];
                    assert(c.successor(i as int, j as int) == c.apply(
                        entry.read@,
                        entry.pop@,
                        entry.targets[j as int].0.deep_view(),
                        entry.targets[j as int].1,
                    ));
                    if self.run_copy(
                        &entry.targets[j].0,
                        &entry.pop,
                        &entry.read,
                        entry.targets[j].1,
                    ) {
                        proof {
                            lemma_accepts_unfold(c);
                        }
                        return true;
                    }
                    j += 1;
                }
            }
            i += 1;
        }
        false
    }
}

} // verus!
