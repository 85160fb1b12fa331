//! Trusted surface over the `regex_automata` dense DFA.
//!
//! The automaton is deterministic, so each of its observations is a pure
//! function of the DFA value and the arguments; those functions are given
//! names below (`dfa_next`, `dfa_eoi`, ...), and each trusted function
//! states its result over them. State identifiers are carried as plain
//! `usize` values; `dfa_valid` holds of the identifiers the automaton hands
//! out, and every trusted function that takes a state requires it.

use vstd::arithmetic::power2::pow2;
use vstd::prelude::*;

use regex_automata::dfa::Automaton;
use regex_automata::dfa::dense;
use regex_automata::util::primitives::StateID;

verus! {

/// Declares `regex_automata::dfa::dense::DFA` so that it can stand in
/// signatures and fields.
#[verifier::external_type_specification]
#[verifier::external_body]
#[verifier::reject_recursive_types(T)]
pub struct ExDenseDfa<T>(dense::DFA<T>);

/// Declares `regex_automata::dfa::dense::BuildError`, the error type of
/// DFA construction.
#[verifier::external_type_specification]
#[verifier::external_body]
pub struct ExDenseBuildError(dense::BuildError);

/// The state reached from `s` on input byte `b`.
pub uninterp spec fn dfa_next(d: dense::DFA<Vec<u32>>, s: usize, b: u8) -> usize;

/// The state reached from `s` on the end-of-input transition.
pub uninterp spec fn dfa_eoi(d: dense::DFA<Vec<u32>>, s: usize) -> usize;

/// Whether `s` is a match state.
pub uninterp spec fn dfa_is_match(d: dense::DFA<Vec<u32>>, s: usize) -> bool;

/// How many patterns match in match state `s`.
pub uninterp spec fn dfa_match_count(d: dense::DFA<Vec<u32>>, s: usize) -> usize;

/// The pattern index reported at position `i` of match state `s`.
pub uninterp spec fn dfa_match_at(d: dense::DFA<Vec<u32>>, s: usize, i: int) -> usize;

/// Whether `s` is a state identifier of `d`.
pub uninterp spec fn dfa_valid(d: dense::DFA<Vec<u32>>, s: usize) -> bool;

/// The base-2 logarithm of the transition table's stride.
pub uninterp spec fn dfa_stride2(d: dense::DFA<Vec<u32>>) -> usize;

/// The number of patterns the DFA was built from.
pub uninterp spec fn dfa_pattern_count(d: dense::DFA<Vec<u32>>) -> usize;

/// The universal anchored start state, for a DFA that has one.
pub uninterp spec fn dfa_universal_start(d: dense::DFA<Vec<u32>>) -> usize;

/// Whether the pattern list compiles into a dense DFA: compilation is
/// deterministic, so success depends on the pattern strings alone.
pub uninterp spec fn dfa_buildable(patterns: Seq<String>) -> bool;

/// Whether the automaton compiled from the pattern list has a universal
/// anchored start state (it has none exactly when some pattern begins
/// with a look-around assertion).
pub uninterp spec fn dfa_start_ok(patterns: Seq<String>) -> bool;

/// Whether this DFA has a universal anchored start state.
pub uninterp spec fn dfa_has_universal_start(d: dense::DFA<Vec<u32>>) -> bool;

/// State identifiers stay below this bound (they are 32-bit indices capped
/// at the signed maximum).
pub const STATE_ID_BOUND: usize = 0x8000_0000;

/// Dense state identifiers are premultiplied: each is a multiple of the
/// transition table's stride.
pub open spec fn dfa_aligned(d: dense::DFA<Vec<u32>>, s: usize) -> bool {
    s as int % pow2(dfa_stride2(d) as nat) as int == 0
}

/// Relies on `dense::Builder::build_many`: builds one DFA over all the
/// patterns, with anchored start semantics, match-all (overlapping) match
/// semantics, and a raw-byte syntax with Unicode and UTF-8 modes disabled.
/// Compilation is deterministic, so it succeeds exactly when the pattern
/// list compiles (`dfa_buildable`), the DFA's pattern count equals the
/// number of patterns given, and whether the result has a universal
/// anchored start state is likewise fixed by the patterns (`dfa_start_ok`).
#[verifier::external_body]
pub fn build_dfa(patterns: &Vec<String>) -> (r: Result<dense::DFA<Vec<u32>>, dense::BuildError>)
    ensures
        (r is Ok) == dfa_buildable(patterns@),
        r is Ok ==> dfa_pattern_count(r->Ok_0) == patterns@.len(),
        r is Ok ==> dfa_has_universal_start(r->Ok_0) == dfa_start_ok(patterns@),
{
    dense::Builder::new()
        .configure(
            dense::Config::new()
                .start_kind(regex_automata::dfa::StartKind::Anchored)
                .match_kind(regex_automata::MatchKind::All),
        )
        .syntax(regex_automata::util::syntax::Config::new().unicode(false).utf8(false))
        .build_many(patterns)
}

/// Relies on `Automaton::universal_start_state`: the anchored start state
/// that applies regardless of surrounding context, returned exactly when
/// the DFA has one (it has none when a pattern starts with a look-around
/// assertion).
#[verifier::external_body]
pub fn dfa_universal_start_state(d: &dense::DFA<Vec<u32>>) -> (r: Option<usize>)
    ensures
        (r is Some) == dfa_has_universal_start(*d),
        r is Some ==> r->0 == dfa_universal_start(*d) && dfa_valid(*d, dfa_universal_start(*d))
            && dfa_aligned(*d, dfa_universal_start(*d)) && dfa_universal_start(*d)
            < STATE_ID_BOUND,
{
    d.universal_start_state(regex_automata::Anchored::Yes).map(|s| s.as_usize())
}

/// Relies on `Automaton::next_state`: the deterministic byte transition;
/// a valid state in always yields a valid state out.
#[verifier::external_body]
pub fn dfa_next_state(d: &dense::DFA<Vec<u32>>, s: usize, b: u8) -> (r: usize)
    requires
        dfa_valid(*d, s),
    ensures
        r == dfa_next(*d, s, b),
        dfa_valid(*d, r),
        dfa_aligned(*d, r),
        r < STATE_ID_BOUND,
{
    d.next_state(StateID::new_unchecked(s), b).as_usize()
}

/// Relies on `Automaton::next_eoi_state`: the deterministic end-of-input
/// transition; a valid state in always yields a valid state out.
#[verifier::external_body]
pub fn dfa_next_eoi_state(d: &dense::DFA<Vec<u32>>, s: usize) -> (r: usize)
    requires
        dfa_valid(*d, s),
    ensures
        r == dfa_eoi(*d, s),
        dfa_valid(*d, r),
        dfa_aligned(*d, r),
        r < STATE_ID_BOUND,
{
    d.next_eoi_state(StateID::new_unchecked(s)).as_usize()
}

/// Relies on `Automaton::is_match_state`.
#[verifier::external_body]
pub fn dfa_is_match_state(d: &dense::DFA<Vec<u32>>, s: usize) -> (r: bool)
    requires
        dfa_valid(*d, s),
    ensures
        r == dfa_is_match(*d, s),
{
    d.is_match_state(StateID::new_unchecked(s))
}

/// Relies on `Automaton::match_len`: the number of patterns matching in a
/// match state (the call may panic on a non-match state).
#[verifier::external_body]
pub fn dfa_match_len(d: &dense::DFA<Vec<u32>>, s: usize) -> (r: usize)
    requires
        dfa_valid(*d, s),
        dfa_is_match(*d, s),
    ensures
        r == dfa_match_count(*d, s),
{
    d.match_len(StateID::new_unchecked(s))
}

/// Relies on `Automaton::match_pattern`: the pattern reported at match
/// index `i` of a match state, always one of the patterns the DFA was
/// built from (the call may panic outside those bounds).
#[verifier::external_body]
pub fn dfa_match_pattern(d: &dense::DFA<Vec<u32>>, s: usize, i: usize) -> (r: usize)
    requires
        dfa_valid(*d, s),
        dfa_is_match(*d, s),
        i < dfa_match_count(*d, s),
    ensures
        r == dfa_match_at(*d, s, i as int),
        r < dfa_pattern_count(*d),
{
    d.match_pattern(StateID::new_unchecked(s), i).as_usize()
}

/// Relies on `dense::DFA::stride2`: the stride exponent, between 1 and 9.
#[verifier::external_body]
pub fn dfa_stride2_of(d: &dense::DFA<Vec<u32>>) -> (r: usize)
    ensures
        r == dfa_stride2(*d),
        1 <= r <= 9,
{
    d.stride2()
}

} // verus!
