//! The highlighter state that the tokenizer shim walks to find the active
//! subsyntaxes.
use vstd::prelude::*;

verus! {

/// The index of the first zero byte of `state` at or after `i`, or the
/// state's length when there is none.
pub open spec fn first_zero(state: Seq<u8>, i: int) -> int
    decreases state.len() - i,
{
    if i < 0 || i >= state.len() {
        state.len() as int
    } else if state[i] == 0 {
        i
    } else {
        first_zero(state, i + 1)
    }
}

/// The pattern indices that a highlighter state walks: its bytes before the
/// first zero byte. Each one indexes the `patterns` of the syntax reached so
/// far, starting from the base syntax.
pub open spec fn subsyntax_steps(state: Seq<u8>) -> Seq<u8> {
    state.subrange(0, first_zero(state, 0))
}

proof fn lemma_first_zero_range(state: Seq<u8>, i: int)
    requires
        0 <= i <= state.len(),
    ensures
        i <= first_zero(state, i) <= state.len(),
        forall|k: int| i <= k < first_zero(state, i) ==> state[k] != 0,
    decreases state.len() - i,
{
    if i < state.len() && state[i] != 0 {
        lemma_first_zero_range(state, i + 1);
    }
}

/// The pattern indices that `extract_subsyntaxes` follows for `state`.
pub fn subsyntax_path(state: &[u8]) -> (r: Vec<u8>)
    ensures
        r@ == subsyntax_steps(state@),
        forall|k: int| 0 <= k < r@.len() ==> r@[k] != 0,
{
    proof {
        lemma_first_zero_range(state@, 0);
    }
    let mut r: Vec<u8> = Vec::new();
    let mut i: usize = 0;
    while i < state.len() && state[i] != 0
        invariant
            i <= state@.len(),
            first_zero(state@, 0) == first_zero(state@, i as int),
            r@ == state@.subrange(0, i as int),
        decreases state@.len() - i,
    {
        r.push(state[i]);
        i = i + 1;
        assert(r@ =~= state@.subrange(0, i as int));
    }
    proof {
        lemma_first_zero_range(state@, 0);
    }
    r
}

} // verus!
