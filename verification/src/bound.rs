//! How many expansions a search may spend, and the decision as a whole.

use vstd::math::max;
use vstd::prelude::*;
use crate::parser::{parse, parse_grammar, ParseError};
use crate::pda::{bound_of, pda_of};
use crate::text::{normalize, normalize_input};
use crate::trace::accepts;

verus! {

/// Why no bound can be had.
#[derive(Debug, Clone, Copy, PartialEq, Eq, Structural)]
pub enum BoundError {
    /// The bound type is none of 1, 2 and 3.
    InvalidBoundType,
    /// The second bound type divides by the length of the longest right-hand
    /// side less 1, and that length is below 2.
    ShortRules,
}

/// Why no decision can be had.
#[derive(Debug, Clone, Copy, PartialEq, Eq, Structural)]
pub enum DecideError {
    /// The grammar text is malformed.
    Grammar(ParseError),
    /// No bound can be had.
    Bound(BoundError),
}

/// `a / b`, rounded up.
pub open spec fn ceil_div(a: int, b: int) -> int {
    if a % b == 0 {
        a / b
    } else {
        a / b + 1
    }
}

/// The bound of type `bound_type` for an input of `length` characters and a
/// grammar whose longest right-hand side has `longest` symbols. The first type
/// is 100 whatever the input; the second is `(max(length, 1) - 1) / (longest - 1)`,
/// rounded up, and needs a `longest` of at least 2; the third is
/// `max(2 * length - 1, 1)`.
pub open spec fn bound_for(bound_type: u8, length: nat, longest: nat) -> Result<int, BoundError> {
    if bound_type == 1 {
        Ok(100)
    } else if bound_type == 2 {
        if longest < 2 {
            Err(BoundError::ShortRules)
        } else {
            Ok(ceil_div(max(length as int, 1) - 1, longest - 1))
        }
    } else if bound_type == 3 {
        Ok(max(2 * length - 1, 1))
    } else {
        Err(BoundError::InvalidBoundType)
    }
}

/// The decision for a grammar text and an input text under a bound type:
/// whether the automaton of the grammar accepts what is left of the input within
/// the bound, unless the grammar is malformed or no bound can be had.
pub open spec fn decision(bound_type: u8, grammar: Seq<char>, input: Seq<char>) -> Result<
    bool,
    DecideError,
> {
    match parse(grammar) {
        Err(e) => Err(DecideError::Grammar(e)),
        Ok(g) => match bound_for(bound_type, normalize(input).len(), g.longest_rhs()) {
            Err(e) => Err(DecideError::Bound(e)),
            Ok(bound) => Ok(
                accepts(pda_of(g, bound as isize), normalize(input), bound_of(bound as isize)),
            ),
        },
    }
}

/// The bound of type `bound_type` for an input of `length` characters and a
/// grammar whose longest right-hand side has `longest` symbols. The bound must
/// fit the machine's integers.
pub fn bound(bound_type: u8, length: usize, longest: usize) -> (res: Result<isize, BoundError>)
    requires
        bound_for(bound_type, length as nat, longest as nat) matches Ok(b) ==> b <= isize::MAX,
    ensures
        match res {
            Ok(b) => bound_for(bound_type, length as nat, longest as nat) == Ok::<int, BoundError>(
                b as int,
            ),
            Err(e) => bound_for(bound_type, length as nat, longest as nat) == Err::<
                int,
                BoundError,
            >(e),
        },
{
    if bound_type == 1 {
        Ok(100)
    } else if bound_type == 2 {
        if longest < 2 {
            Err(BoundError::ShortRules)
        } else {
            let steps: usize = longest - 1;
            let rest: usize = if length == 0 {
                0
            } else {
                length - 1
            };
            let whole: usize = rest / steps;
            if rest % steps == 0 {
                Ok(whole as isize)
            } else {
                Ok((whole + 1) as isize)
            }
        }
    } else if bound_type == 3 {
        if length == 0 {
            Ok(1)
        } else {
            Ok((2 * length - 1) as isize)
        }
    } else {
        Err(BoundError::InvalidBoundType)
    }
}

/// Decides whether the grammar of `cfg_def` derives what is left of
/// `input_string`, by a search under the bound of type `bound_type`.
pub fn decide(bound_type: u8, cfg_def: &str, input_string: &str) -> (res: Result<
    bool,
    DecideError,
>)
    requires
        2 * normalize(input_string@).len() <= isize::MAX,
    ensures
        res == decision(bound_type, cfg_def@, input_string@),
{
    let input = normalize_input(input_string);
    let cfg = match parse_grammar(cfg_def) {
        Ok(cfg) => cfg,
        Err(e) => {
            return Err(DecideError::Grammar(e));
        },
    };
    let length = input.as_str().unicode_len();
    match bound(bound_type, length, cfg.longest_derivation_length()) {
        Ok(b) => Ok(cfg.trace_string(input.as_str(), b)),
        Err(e) => Err(DecideError::Bound(e)),
    }
}

} // verus!
