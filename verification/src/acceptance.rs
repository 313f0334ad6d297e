//! What holds of acceptance, whatever the automaton or the grammar.

use vstd::prelude::*;
use crate::cfg::{keys, GrammarView};
use crate::pda::{bound_of, pda_of, start_symbol, table_of, PdaView, StackView};
use crate::token::TokenView;
use crate::trace::{accepts, lemma_accepts_unfold, symbols_of, ConfigView};

verus! {

/// `c` with another bound and another budget.
pub open spec fn with_bound(c: ConfigView, bound: nat, budget: isize) -> ConfigView {
    ConfigView { pda: PdaView { budget, ..c.pda }, bound, ..c }
}

/// A run that accepts from a configuration accepts from it with any larger
/// bound, and whatever the budget that the automaton was made with.
pub proof fn lemma_run_with_larger_bound(
    c: ConfigView,
    run: Seq<(int, int)>,
    larger: nat,
    budget: isize,
)
    requires
        c.accepts_by(run),
        c.bound <= larger,
    ensures
        with_bound(c, larger, budget).accepts_by(run),
    decreases run.len(),
{
    if run.len() > 0 {
        let next = c.successor(run[0].0, run[0].1)->0;
        let extra = (larger - c.bound) as nat;
        lemma_run_with_larger_bound(next, run.drop_first(), next.bound + extra, budget);
    }
}

/// Acceptance is monotone in the bound: what an automaton accepts within a
/// bound, it accepts within every larger bound.
pub proof fn lemma_accepts_monotone(pda: PdaView, input: Seq<char>, bound: nat, larger: nat)
    requires
        accepts(pda, input, bound),
        bound <= larger,
    ensures
        accepts(pda, input, larger),
{
    let c = ConfigView::initial(pda, input, bound);
    let run = choose|run: Seq<(int, int)>| c.accepts_by(run);
    lemma_run_with_larger_bound(c, run, larger, pda.budget);
}

/// What a grammar's automaton accepts within a budget, it accepts within every
/// larger budget.
pub proof fn lemma_grammar_accepts_monotone(
    g: GrammarView,
    input: Seq<char>,
    budget: isize,
    larger: isize,
)
    requires
        accepts(pda_of(g, budget), input, bound_of(budget)),
        budget <= larger,
    ensures
        accepts(pda_of(g, larger), input, bound_of(larger)),
{
    let c = ConfigView::initial(pda_of(g, budget), input, bound_of(budget));
    let run = choose|run: Seq<(int, int)>| c.accepts_by(run);
    lemma_run_with_larger_bound(c, run, bound_of(larger), larger);
}

/// Whether some character of `input` is no terminal of the alphabet of `g`.
pub open spec fn has_foreign_char(g: GrammarView, input: Seq<char>) -> bool {
    exists|k: int|
        0 <= k < input.len() && !g.alphabet.contains(TokenView::Terminal(seq![#[trigger] input[k]]))
}

/// No run of a grammar's automaton accepts from a configuration whose input
/// holds a character that is no terminal of the grammar: no transition consumes it.
pub proof fn lemma_foreign_char_blocks(g: GrammarView, c: ConfigView, run: Seq<(int, int)>)
    requires
        c.pda.table == table_of(g),
        has_foreign_char(g, c.input),
    ensures
        !c.accepts_by(run),
    decreases run.len(),
{
    if run.len() > 0 && c.successor(run[0].0, run[0].1) is Some {
        let i = run[0].0;
        let j = run[0].1;
        let next = c.successor(i, j)->0;
        let entry = c.pda.table[i];
        let k = choose|k: int|
            0 <= k < c.input.len() && !g.alphabet.contains(
                TokenView::Terminal(seq![#[trigger] c.input[k]]),
            );
        if entry.pop matches StackView::Symbol(TokenView::Terminal(name)) {
            assert(next.input[k - 1] == c.input[k]);
        }
        lemma_foreign_char_blocks(g, next, run.drop_first());
    }
}

/// Alphabet closure: a grammar's automaton accepts no input that holds a
/// character outside the grammar's alphabet, whatever the bound.
pub proof fn lemma_alphabet_closure(g: GrammarView, input: Seq<char>, budget: isize, bound: nat)
    requires
        has_foreign_char(g, input),
    ensures
        !accepts(pda_of(g, budget), input, bound),
{
    let c = ConfigView::initial(pda_of(g, budget), input, bound);
    assert forall|run: Seq<(int, int)>| !c.accepts_by(run) by {
        lemma_foreign_char_blocks(g, c, run);
    }
}

/// The configuration in which the automaton of `g` has still to take the
/// sentential form `form` off its stack and to read `word`.
pub open spec fn working_on(
    g: GrammarView,
    budget: isize,
    form: Seq<TokenView>,
    word: Seq<char>,
    bound: nat,
) -> ConfigView {
    ConfigView {
        pda: PdaView {
            stack: seq![StackView::EOF] + symbols_of(form.reverse()),
            ..pda_of(g, budget)
        },
        state: 0,
        input: word,
        bound,
    }
}

/// What lies on the stack of an automaton that works on `form`, and what lies
/// there once the first symbol of `form` is replaced by `rhs`.
proof fn lemma_form_stack(form: Seq<TokenView>, rhs: Seq<TokenView>)
    requires
        form.len() > 0,
    ensures
        (seq![StackView::EOF] + symbols_of(form.reverse())).last() == StackView::Symbol(form[0]),
        (seq![StackView::EOF] + symbols_of(form.reverse())).drop_last() + symbols_of(
            rhs.reverse(),
        ) == seq![StackView::EOF] + symbols_of((rhs + form.drop_first()).reverse()),
{
    assert((seq![StackView::EOF] + symbols_of(form.reverse())).drop_last() + symbols_of(
        rhs.reverse(),
    ) =~= seq![StackView::EOF] + symbols_of((rhs + form.drop_first()).reverse()));
}

/// The automaton of a well-formed grammar that works on a sentential form accepts
/// a word within a bound if and only if the bound is at least 1 and the form
/// derives the word by fewer expansions than the bound: the last unit of the
/// bound is what lets the run take the marker off the stack.
pub proof fn lemma_working_on(
    g: GrammarView,
    budget: isize,
    form: Seq<TokenView>,
    word: Seq<char>,
    bound: nat,
)
    requires
        g.wf(),
        g.knows_terminals(form),
    ensures
        working_on(g, budget, form, word, bound).accepts() <==> bound >= 1 && g.derives(
            form,
            word,
            (bound - 1) as nat,
        ),
    decreases bound, form.len(),
{
    let c = working_on(g, budget, form, word, bound);
    let na = g.alphabet.len() as int;
    let np = g.productions.len() as int;
    lemma_accepts_unfold(c);
    if c.accepts() {
        let (i, j) = choose|i: int, j: int|
            (#[trigger] c.successor(i, j)) is Some && c.successor(i, j)->0.accepts();
        if i < na {
            assert(g.alphabet.contains(g.alphabet[i]));
            lemma_form_stack(form, Seq::empty());
            lemma_working_on(g, budget, form.drop_first(), word.drop_first(), bound);
        } else if i < na + np {
            let p = i - na;
            assert(g.is_rule(p, j));
            lemma_form_stack(form, g.productions[p].1[j].symbols());
            lemma_working_on(g, budget, g.expand(form, p, j), word, (bound - 1) as nat);
        }
    }
    if bound >= 1 && g.derives(form, word, (bound - 1) as nat) {
        if form.len() == 0 {
            let next = c.successor(na + np, 0)->0;
            assert(next.accepts_by(Seq::empty()));
        } else if form[0] is Terminal {
            let i = choose|i: int| 0 <= i < na && g.alphabet[i] == form[0];
            lemma_form_stack(form, Seq::empty());
            lemma_working_on(g, budget, form.drop_first(), word.drop_first(), bound);
            assert(c.successor(i, 0) == Some(
                working_on(g, budget, form.drop_first(), word.drop_first(), bound),
            ));
        } else {
            let (i, j) = choose|i: int, j: int|
                #[trigger] g.is_rule(i, j) && g.productions[i].0 == form[0] && g.derives(
                    g.expand(form, i, j),
                    word,
                    (bound - 2) as nat,
                );
            lemma_form_stack(form, g.productions[i].1[j].symbols());
            lemma_working_on(g, budget, g.expand(form, i, j), word, (bound - 1) as nat);
            assert(c.successor(na + i, j) == Some(
                working_on(g, budget, g.expand(form, i, j), word, (bound - 1) as nat),
            ));
        }
    }
}

/// With more expansions allowed, a form still derives a word.
pub proof fn lemma_derives_monotone(
    g: GrammarView,
    form: Seq<TokenView>,
    word: Seq<char>,
    n: nat,
    m: nat,
)
    requires
        g.derives(form, word, n),
        n <= m,
    ensures
        g.derives(form, word, m),
    decreases n, form.len(),
{
    if form.len() > 0 {
        if form[0] is Terminal {
            lemma_derives_monotone(g, form.drop_first(), word.drop_first(), n, m);
        } else {
            let (i, j) = choose|i: int, j: int|
                #[trigger] g.is_rule(i, j) && g.productions[i].0 == form[0] && g.derives(
                    g.expand(form, i, j),
                    word,
                    (n - 1) as nat,
                );
            lemma_derives_monotone(g, g.expand(form, i, j), word, (n - 1) as nat, (m - 1) as nat);
        }
    }
}

/// The search is sound and complete up to its bound: the automaton of a
/// well-formed grammar accepts a word within a bound if and only if the bound is
/// at least 1 and the start variable derives the word by fewer expansions than
/// the bound.
pub proof fn lemma_accepts_iff_derives(g: GrammarView, budget: isize, word: Seq<char>, bound: nat)
    requires
        g.wf(),
    ensures
        accepts(pda_of(g, budget), word, bound) <==> bound >= 1 && g.derives(
            seq![start_symbol()],
            word,
            (bound - 1) as nat,
        ),
{
    let form = seq![start_symbol()];
    lemma_working_on(g, budget, form, word, bound);
    assert(seq![StackView::EOF] + symbols_of(form.reverse()) =~= pda_of(g, budget).stack);
}

/// A well-formed grammar without productions of the start variable accepts
/// nothing.
pub proof fn lemma_no_start_rejects(g: GrammarView, budget: isize, word: Seq<char>, bound: nat)
    requires
        g.wf(),
        !g.variables.contains(start_symbol()),
    ensures
        !accepts(pda_of(g, budget), word, bound),
{
    lemma_accepts_iff_derives(g, budget, word, bound);
    if bound >= 1 && g.derives(seq![start_symbol()], word, (bound - 1) as nat) {
        let (i, j) = choose|i: int, j: int|
            #[trigger] g.is_rule(i, j) && g.productions[i].0 == start_symbol();
        assert(keys(g.productions)[i] == start_symbol());
    }
}

/// The empty word is accepted within a bound if and only if the start variable
/// derives it within that many expansions, unless the shortest such derivation
/// takes exactly as many expansions as the bound allows: taking the marker off
/// the stack needs one unit of the bound more.
pub proof fn lemma_accepts_empty_iff_derives(g: GrammarView, budget: isize, bound: nat)
    requires
        g.wf(),
        g.derives(seq![start_symbol()], Seq::empty(), bound) ==> bound >= 1 && g.derives(
            seq![start_symbol()],
            Seq::empty(),
            (bound - 1) as nat,
        ),
    ensures
        accepts(pda_of(g, budget), Seq::empty(), bound) <==> g.derives(
            seq![start_symbol()],
            Seq::empty(),
            bound,
        ),
{
    lemma_accepts_iff_derives(g, budget, Seq::empty(), bound);
    if bound >= 1 && g.derives(seq![start_symbol()], Seq::empty(), (bound - 1) as nat) {
        lemma_derives_monotone(
            g,
            seq![start_symbol()],
            Seq::empty(),
            (bound - 1) as nat,
            bound,
        );
    }
}

} // verus!
