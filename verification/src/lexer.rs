//! The incremental matching engine: automaton construction, the backward
//! fixpoint that computes per-state possible sets, and the `advance` step.

use vstd::arithmetic::div_mod::lemma_fundamental_div_mod;
use vstd::arithmetic::power2::{lemma2_to64, lemma_pow2_strictly_increases, lemma_pow2_unfold,
    pow2};
use vstd::prelude::*;

use regex_automata::dfa::dense;

use crate::dfa::{build_dfa, dfa_aligned, dfa_buildable, dfa_eoi, dfa_is_match,
    dfa_is_match_state, dfa_match_at, dfa_match_count, dfa_match_len, dfa_match_pattern, dfa_next,
    dfa_next_eoi_state, dfa_next_state, dfa_pattern_count, dfa_start_ok, dfa_stride2,
    dfa_stride2_of, dfa_universal_start_state, dfa_valid};
use crate::fixpoint::{bit_at, explore, match_set_vob, run_fixpoint};
use crate::vobs::{all_false, vob_bits, vob_from_elem};
use crate::vobset::{VobIdx, VobSet};

verus! {

/// Why building a `Lexer` failed.
#[derive(Debug, Clone, Copy, PartialEq, Eq, Structural)]
pub enum LexerError {
    /// A pattern string is not valid regular-expression syntax (or the
    /// pattern set is too large to compile).
    InvalidPattern,
    /// The automaton has no context-independent anchored start state (a
    /// pattern starts with a look-around assertion).
    NoUniversalStart,
}

/// The set of pattern indices matching in state `s` (empty for a
/// non-match state).
pub open spec fn matched(d: dense::DFA<Vec<u32>>, s: usize) -> Set<usize> {
    if dfa_is_match(d, s) {
        Set::new(
            |p: usize| exists|i: int| 0 <= i < dfa_match_count(d, s) && dfa_match_at(d, s, i) == p,
        )
    } else {
        Set::empty()
    }
}

/// Pattern `p` can be completed from state `s` by consuming at most `fuel`
/// further bytes and then ending the input.
pub open spec fn can_match_within(d: dense::DFA<Vec<u32>>, s: usize, p: usize, fuel: nat) -> bool
    decreases fuel,
{
    matched(d, dfa_eoi(d, s)).contains(p) || (fuel > 0 && exists|b: u8|
        can_match_within(d, dfa_next(d, s, b), p, (fuel - 1) as nat))
}

/// Pattern `p` can still be completed by some continuation of the input
/// from state `s`: `p` belongs to the possible set of `s`.
pub open spec fn pat_possible(d: dense::DFA<Vec<u32>>, s: usize, p: usize) -> bool {
    exists|fuel: nat| can_match_within(d, s, p, fuel)
}

/// One byte of progress preserves possibility: whatever can still match
/// after consuming `b` could already match before it.
pub proof fn lemma_possible_step(d: dense::DFA<Vec<u32>>, s: usize, b: u8, p: usize)
    requires
        pat_possible(d, dfa_next(d, s, b), p),
    ensures
        pat_possible(d, s, p),
{
    let fuel = choose|fuel: nat| can_match_within(d, dfa_next(d, s, b), p, fuel);
    assert(can_match_within(d, s, p, fuel + 1));
}

/// A pattern matching at the end-of-input transition of `s` is possible
/// at `s`.
pub proof fn lemma_matched_possible(d: dense::DFA<Vec<u32>>, s: usize, p: usize)
    requires
        matched(d, dfa_eoi(d, s)).contains(p),
    ensures
        pat_possible(d, s, p),
{
    assert(can_match_within(d, s, p, 0));
}

/// The least pattern index among the first `k` match positions of state
/// `s`, or `None` when `k` is zero.
pub open spec fn min_match_upto(d: dense::DFA<Vec<u32>>, s: usize, k: int) -> Option<usize>
    decreases k,
{
    if k <= 0 {
        None
    } else {
        let v = dfa_match_at(d, s, k - 1);
        match min_match_upto(d, s, k - 1) {
            None => Some(v),
            Some(m) => Some(if v < m { v } else { m }),
        }
    }
}

/// The completed pattern reported for match state `s`: the least pattern
/// index that matches there, or `None` for a non-match state.
pub open spec fn min_match(d: dense::DFA<Vec<u32>>, s: usize) -> Option<usize> {
    if dfa_is_match(d, s) {
        min_match_upto(d, s, dfa_match_count(d, s) as int)
    } else {
        None
    }
}

proof fn lemma_min_match_upto_least(d: dense::DFA<Vec<u32>>, s: usize, k: int)
    requires
        0 <= k,
    ensures
        match min_match_upto(d, s, k) {
            Some(p) => (exists|i: int| 0 <= i < k && dfa_match_at(d, s, i) == p) && forall|i: int|
                0 <= i < k ==> p <= dfa_match_at(d, s, i),
            None => k == 0,
        },
    decreases k,
{
    if k > 0 {
        lemma_min_match_upto_least(d, s, k - 1);
    }
}

/// Tie-break correctness: when several patterns match simultaneously, the
/// reported pattern is the one with the least declared index.
pub proof fn lemma_min_match_least(d: dense::DFA<Vec<u32>>, s: usize)
    ensures
        match min_match(d, s) {
            Some(p) => matched(d, s).contains(p) && forall|q: usize|
                matched(d, s).contains(q) ==> p <= q,
            None => matched(d, s).is_empty(),
        },
{
    if dfa_is_match(d, s) {
        let k = dfa_match_count(d, s) as int;
        lemma_min_match_upto_least(d, s, k);
        match min_match(d, s) {
            Some(p) => {
                assert(matched(d, s).contains(p));
                assert forall|q: usize| matched(d, s).contains(q) implies p <= q by {
                    let i = choose|i: int| 0 <= i < dfa_match_count(d, s) && dfa_match_at(d, s, i)
                        == q;
                    assert(p <= dfa_match_at(d, s, i));
                }
            },
            None => {
                assert(matched(d, s) =~= Set::empty());
            },
        }
    } else {
        assert(matched(d, s) =~= Set::empty());
    }
}

/// The matching engine: an immutable deterministic automaton over all
/// patterns, plus, for every reachable state, the interned handle of the
/// set of patterns that can still be completed from it.
pub struct Lexer {
    dfa: dense::DFA<Vec<u32>>,
    /// Which pattern indices are skip patterns (carried through for the
    /// caller; never consulted by matching itself).
    pub skip_patterns: vob::Vob,
    /// A diagnostic name per pattern index.
    pub friendly_pattern_names: Vec<String>,
    /// The start state of every match attempt.
    pub initial: usize,
    /// The state reached from `initial` by consuming one line-break byte,
    /// so that line-anchored patterns see the start of input as the start
    /// of a line.
    pub file_start: usize,
    vobidx_by_state_off: Vec<VobIdx>,
    stride: usize,
    states_g: Ghost<Set<usize>>,
    pool_g: Ghost<Seq<Seq<bool>>>,
}

impl Lexer {
    /// The underlying automaton value, for specification purposes.
    pub closed spec fn dfa_spec(&self) -> dense::DFA<Vec<u32>> {
        self.dfa
    }

    /// The value of the public `initial` field, for specification purposes.
    pub closed spec fn initial_spec(&self) -> usize {
        self.initial
    }

    /// The value of the public `file_start` field, for specification
    /// purposes.
    pub closed spec fn file_start_spec(&self) -> usize {
        self.file_start
    }

    /// The bits of the public `skip_patterns` field, for specification
    /// purposes.
    pub closed spec fn skip_bits(&self) -> Seq<bool> {
        vob_bits(self.skip_patterns)
    }

    /// The public `friendly_pattern_names` field, for specification
    /// purposes.
    pub closed spec fn names_spec(&self) -> Seq<String> {
        self.friendly_pattern_names@
    }

    /// The set of automaton states discovered at construction time; every
    /// state a matching session can be in belongs to it.
    pub closed spec fn states(&self) -> Set<usize> {
        self.states_g@
    }

    /// The bitset pool as it stood when construction finished.
    pub closed spec fn pool(&self) -> Seq<Seq<bool>> {
        self.pool_g@
    }

    /// The number of patterns the automaton was built from.
    pub open spec fn n_patterns(&self) -> usize {
        dfa_pattern_count(self.dfa_spec())
    }

    /// The pool handle stored for state `s`.
    pub closed spec fn handle_of(&self, s: usize) -> int {
        self.vobidx_by_state_off@[s as int / self.stride as int]@
    }

    /// The possible set of state `s`: the interned bitset under its handle.
    pub open spec fn possible_bits(&self, s: usize) -> Seq<bool> {
        self.pool()[self.handle_of(s)]
    }

    /// The private part of well-formedness: the stride matches the
    /// automaton's, and every discovered state addresses the handle table
    /// in bounds.
    pub closed spec fn internal_inv(&self) -> bool {
        &&& self.stride >= 1
        &&& self.stride as nat == pow2(dfa_stride2(self.dfa) as nat)
        &&& forall|s: usize|
            #[trigger] self.states_g@.contains(s) ==> ((s as int / self.stride as int)
                < self.vobidx_by_state_off@.len() && dfa_aligned(self.dfa, s))
    }

    /// Everything construction establishes: the discovered states are
    /// closed under byte transitions, contain the two start states, and
    /// each maps to the handle of exactly its possible set; the pool is
    /// duplicate-free with the all-zero bitset at handle 0, so a state's
    /// handle is 0 exactly when no pattern can still match from it.
    pub open spec fn wf(&self) -> bool {
        &&& self.internal_inv()
        &&& self.pool().len() >= 1
        &&& self.pool()[0].len() == self.n_patterns()
        &&& all_false(self.pool()[0])
        &&& (forall|i: int, j: int| 0 <= i < j < self.pool().len() ==> self.pool()[i] != self.pool()[j])
        &&& self.states().contains(self.initial_spec())
        &&& self.states().contains(self.file_start_spec())
        &&& self.file_start_spec() == dfa_next(self.dfa_spec(), self.initial_spec(), 10u8)
        &&& (forall|s: usize, b: u8|
            self.states().contains(s) ==> self.states().contains(
                #[trigger] dfa_next(self.dfa_spec(), s, b),
            ))
        &&& (forall|s: usize| #[trigger] self.states().contains(s) ==> dfa_valid(self.dfa_spec(), s))
        &&& (forall|s: usize|
            #[trigger] self.states().contains(s) ==> 0 <= self.handle_of(s) < self.pool().len()
                && self.possible_bits(s).len() == self.n_patterns())
        &&& (forall|s: usize, p: usize|
            #[trigger] self.states().contains(s) && p < self.n_patterns() ==> (self.possible_bits(
                s,
            )[p as int] <==> #[trigger] pat_possible(self.dfa_spec(), s, p)))
    }

    /// The handle stored for a reachable state is the zero sentinel exactly
    /// when the state's possible set is empty: matching from it is dead.
    pub proof fn lemma_handle_zero_iff_dead(&self, s: usize)
        requires
            self.wf(),
            self.states().contains(s),
        ensures
            self.handle_of(s) == 0 <==> all_false(self.possible_bits(s)),
    {
        if self.handle_of(s) != 0 && all_false(self.possible_bits(s)) {
            assert(self.pool()[0] =~= self.pool()[self.handle_of(s)]);
            assert(false);
        }
    }

    /// The start state a fresh matching session is seeded with.
    pub fn initial_state(&self) -> (r: usize)
        ensures
            r == self.initial_spec(),
    {
        self.initial
    }

    /// The start state for a session that treats the start of input as the
    /// start of a line.
    pub fn file_start_state(&self) -> (r: usize)
        ensures
            r == self.file_start_spec(),
    {
        self.file_start
    }

    /// The interned handle of the possible set of `state`.
    fn possible_tokens(&self, state: usize) -> (r: VobIdx)
        requires
            self.wf(),
            self.states().contains(state),
        ensures
            r@ == self.handle_of(state),
    {
        self.vobidx_by_state_off[state / self.stride]
    }

    /// The completed pattern to report for resolved state `state`: the
    /// least pattern index matching there, if any.
    fn get_token(&self, state: usize) -> (r: Option<usize>)
        requires
            dfa_valid(self.dfa_spec(), state),
        ensures
            r == min_match(self.dfa_spec(), state),
    {
        if !dfa_is_match_state(&self.dfa, state) {
            return None;
        }
        let cnt = dfa_match_len(&self.dfa, state);
        let mut best: Option<usize> = None;
        let mut k: usize = 0;
        while k < cnt
            invariant
                dfa_valid(self.dfa_spec(), state),
                dfa_is_match(self.dfa_spec(), state),
                cnt == dfa_match_count(self.dfa_spec(), state),
                k <= cnt,
                best == min_match_upto(self.dfa_spec(), state, k as int),
            decreases cnt - k,
        {
            let p = dfa_match_pattern(&self.dfa, state, k);
            best = match best {
                None => Some(p),
                Some(m) => Some(if p < m {
                    p
                } else {
                    m
                }),
            };
            k += 1;
        }
        best
    }

    /// The token resolved when input ends (or hits a dead byte) in state
    /// `prev`: the least pattern matching at `prev`'s end-of-input
    /// transition.
    pub open spec fn spec_token(&self, prev: usize) -> Option<usize> {
        min_match(self.dfa_spec(), dfa_eoi(self.dfa_spec(), prev))
    }

    /// What `advance` returns, with the handle as its integer value. On a
    /// byte: follow the byte transition; if some pattern can still match
    /// there, carry on with no completed token. Otherwise resolve the token
    /// completed at `prev`; with none, matching has failed; with one,
    /// restart from `initial` on the same byte. On end of input: resolve
    /// the token at `prev` and return to `initial`.
    pub open spec fn spec_advance(&self, prev: usize, byte: Option<u8>) -> Option<
        (usize, int, Option<usize>),
    > {
        match byte {
            Some(b) => {
                let st = dfa_next(self.dfa_spec(), prev, b);
                if !all_false(self.possible_bits(st)) {
                    Some((st, self.handle_of(st), None::<usize>))
                } else {
                    match self.spec_token(prev) {
                        None => None,
                        Some(tok) => {
                            let s0 = dfa_next(self.dfa_spec(), self.initial_spec(), b);
                            Some((s0, self.handle_of(s0), Some(tok)))
                        },
                    }
                }
            },
            None => match self.spec_token(prev) {
                None => None,
                Some(tok) => Some(
                    (self.initial_spec(), self.handle_of(self.initial_spec()), Some(tok)),
                ),
            },
        }
    }

    /// One matching step: consume one byte, or an end-of-input signal, in
    /// state `prev`. Returns the new state, the handle of its possible
    /// set, and the completed pattern if this step resolved one; `None`
    /// means the input cannot be tokenized at all. The result is exactly
    /// `spec_advance`, so a repeated call returns the same result.
    pub fn advance(&self, prev: usize, byte: Option<u8>) -> (r: Option<
        (usize, VobIdx, Option<usize>),
    >)
        requires
            self.wf(),
            self.states().contains(prev),
        ensures
            match (r, self.spec_advance(prev, byte)) {
                (None, None) => true,
                (Some((st, h, tok)), Some((st_s, h_s, tok_s))) => st == st_s && h@ == h_s && tok
                    == tok_s && self.states().contains(st),
                _ => false,
            },
    {
        match byte {
            Some(b) => {
                let state = dfa_next_state(&self.dfa, prev, b);
                let v = self.possible_tokens(state);
                proof {
                    self.lemma_handle_zero_iff_dead(state);
                }
                if v.is_zero() {
                    let final_state = dfa_next_eoi_state(&self.dfa, prev);
                    match self.get_token(final_state) {
                        None => None,
                        Some(tok) => {
                            let state = dfa_next_state(&self.dfa, self.initial, b);
                            Some((state, self.possible_tokens(state), Some(tok)))
                        },
                    }
                } else {
                    Some((state, v, None))
                }
            },
            None => {
                let final_state = dfa_next_eoi_state(&self.dfa, prev);
                match self.get_token(final_state) {
                    None => None,
                    Some(tok) => Some((self.initial, self.possible_tokens(self.initial), Some(tok))),
                }
            },
        }
    }
}

/// Distinct stride-aligned state identifiers land in distinct slots of the
/// stride-indexed handle table.
proof fn lemma_aligned_div_injective(s1: usize, s2: usize, stride: usize)
    requires
        stride >= 1,
        s1 as int % stride as int == 0,
        s2 as int % stride as int == 0,
        s1 as int / stride as int == s2 as int / stride as int,
    ensures
        s1 == s2,
{
    lemma_fundamental_div_mod(s1 as int, stride as int);
    lemma_fundamental_div_mod(s2 as int, stride as int);
}

/// The handle stored for the dense index `j2` addresses the pool entry
/// holding exactly the bits of `poss[j2]`.
spec fn slot_stored(
    table: Seq<VobIdx>,
    pool: Seq<Seq<bool>>,
    states: Seq<usize>,
    stride: usize,
    poss: Seq<vob::Vob>,
    j2: int,
) -> bool {
    let h = table[states[j2] as int / stride as int]@;
    &&& 0 <= h < pool.len()
    &&& pool[h] == vob_bits(poss[j2])
}

impl Lexer {
    /// Builds a `Lexer` over the pattern list: compiles the deterministic
    /// automaton, discovers its reachable states, computes every state's
    /// possible set by the backward fixpoint, and interns each set in the
    /// pool. The skip bitset and the friendly names carry one entry per
    /// pattern. The pool must be fresh: the all-zero bitset is interned
    /// first, so handle 0 is the dead sentinel. Fails when a pattern does
    /// not parse, or when the automaton has no context-independent anchored
    /// start state; no lexer is produced then and the pool is untouched.
    #[verifier::loop_isolation(false)]
    pub fn from(
        patterns: Vec<String>,
        skip_patterns: vob::Vob,
        friendly_pattern_names: Vec<String>,
        vobset: &mut VobSet,
    ) -> (r: Result<Lexer, LexerError>)
        requires
            old(vobset)@.len() == 0,
            vob_bits(skip_patterns).len() == patterns@.len(),
            friendly_pattern_names@.len() == patterns@.len(),
        ensures
            (r is Ok) == (dfa_buildable(patterns@) && dfa_start_ok(patterns@)),
            match r {
                Ok(lex) => {
                    &&& lex.wf()
                    &&& final(vobset).wf()
                    &&& lex.pool() == final(vobset)@
                    &&& lex.n_patterns() == patterns@.len()
                    &&& lex.skip_bits() == vob_bits(skip_patterns)
                    &&& lex.names_spec() == friendly_pattern_names@
                },
                Err(e) => {
                    &&& final(vobset)@ == old(vobset)@
                    &&& ((e == LexerError::InvalidPattern) <==> !dfa_buildable(patterns@))
                    &&& ((e == LexerError::NoUniversalStart) <==> (dfa_buildable(patterns@)
                        && !dfa_start_ok(patterns@)))
                },
            },
    {
        let n = patterns.len();
        let dfa = match build_dfa(&patterns) {
            Ok(d) => d,
            Err(_) => {
                return Err(LexerError::InvalidPattern);
            },
        };
        let initial = match dfa_universal_start_state(&dfa) {
            Some(s) => s,
            None => {
                return Err(LexerError::NoUniversalStart);
            },
        };
        let sh = dfa_stride2_of(&dfa);
        proof {
            lemma2_to64();
        }
        let mut stride: usize = 1;
        let mut t: usize = 0;
        while t < sh
            invariant
                t <= sh,
                1 <= stride <= 512,
                stride == pow2(t as nat),
            decreases sh - t,
        {
            proof {
                lemma_pow2_unfold((t + 1) as nat);
                if t + 1 < 9 {
                    lemma_pow2_strictly_increases((t + 1) as nat, 9nat);
                }
                lemma2_to64();
            }
            stride = stride * 2;
            t += 1;
        }
        let (states, edges) = explore(&dfa, initial);

        let mut poss: Vec<vob::Vob> = Vec::new();
        let mut j: usize = 0;
        while j < states.len()
            invariant
                j <= states@.len(),
                poss@.len() == j,
                forall|j2: int| 0 <= j2 < j ==> vob_bits(#[trigger] poss@[j2]).len() == n,
                forall|j2: int, q: usize|
                    0 <= j2 < j && q < n ==> (#[trigger] bit_at(poss@[j2], q) <==> matched(
                        dfa,
                        dfa_eoi(dfa, states@[j2]),
                    ).contains(q)),
                forall|j2: int, q: usize|
                    0 <= j2 < j && #[trigger] matched(dfa, dfa_eoi(dfa, states@[j2])).contains(q)
                        ==> q < n,
            decreases states@.len() - j,
        {
            let m = match_set_vob(&dfa, states[j], n);
            poss.push(m);
            j += 1;
        }
        run_fixpoint(&dfa, &states, &edges, &mut poss, n);

        let empty = vob_from_elem(false, n);
        let ghost zero_bits = Seq::new(n as nat, |i: int| false);
        let zero = vobset.get(&empty);
        proof {
            assert(zero@ == 0);
            assert(vobset@ =~= seq![zero_bits]);
        }

        let mut max_slot: usize = 0;
        let mut j: usize = 0;
        while j < states.len()
            invariant
                j <= states@.len(),
                max_slot < crate::dfa::STATE_ID_BOUND,
                forall|j2: int|
                    0 <= j2 < j ==> (#[trigger] states@[j2]) as int / stride as int
                        <= max_slot as int,
            decreases states@.len() - j,
        {
            let slot = states[j] / stride;
            proof {
                lemma_fundamental_div_mod(states@[j as int] as int, stride as int);
                vstd::arithmetic::div_mod::lemma_div_is_ordered_by_denominator(
                    states@[j as int] as int,
                    1,
                    stride as int,
                );
            }
            if slot > max_slot {
                max_slot = slot;
            }
            j += 1;
        }

        let mut table: Vec<VobIdx> = Vec::new();
        let mut j: usize = 0;
        while j < max_slot + 1
            invariant
                table@.len() == j,
                j <= max_slot + 1,
            decreases max_slot + 1 - j,
        {
            table.push(zero);
            j += 1;
        }

        let mut j: usize = 0;
        while j < states.len()
            invariant
                j <= states@.len(),
                poss@.len() == states@.len(),
                table@.len() == max_slot + 1,
                vobset.wf(),
                vobset@.len() >= 1,
                vobset@[0] == zero_bits,
                forall|j2: int|
                    0 <= j2 < j ==> #[trigger] slot_stored(
                        table@,
                        vobset@,
                        states@,
                        stride,
                        poss@,
                        j2,
                    ),
            decreases states@.len() - j,
        {
            let ghost table_pre = table@;
            let ghost pool_pre = vobset@;
            let h = vobset.get(&poss[j]);
            proof {
                assert forall|j2: int| 0 <= j2 < j implies #[trigger] slot_stored(
                    table@,
                    vobset@,
                    states@,
                    stride,
                    poss@,
                    j2,
                ) by {
                    assert(slot_stored(table@, pool_pre, states@, stride, poss@, j2));
                }
            }
            let slot = states[j] / stride;
            let ghost pool_mid = vobset@;
            table[slot] = h;
            proof {
                assert forall|j2: int| 0 <= j2 < j + 1 implies #[trigger] slot_stored(
                    table@,
                    vobset@,
                    states@,
                    stride,
                    poss@,
                    j2,
                ) by {
                    let s2 = states@[j2];
                    let s1 = states@[j as int];
                    if j2 < j {
                        if s2 as int / stride as int == s1 as int / stride as int {
                            lemma_aligned_div_injective(s1, s2, stride);
                            assert(false);
                        }
                        assert(table@[s2 as int / stride as int] == table_pre[s2 as int
                            / stride as int]);
                        assert(slot_stored(table_pre, pool_mid, states@, stride, poss@, j2));
                    } else {
                        assert(table@[s1 as int / stride as int]@ == h@);
                        assert(pool_mid[h@] == vob_bits(poss@[j as int]));
                    }
                }
            }
            j += 1;
        }

        let file_start = dfa_next_state(&dfa, initial, 10u8);
        let lex = Lexer {
            dfa,
            skip_patterns,
            friendly_pattern_names,
            initial,
            file_start,
            vobidx_by_state_off: table,
            stride,
            states_g: Ghost(states@.to_set()),
            pool_g: Ghost(vobset@),
        };
        proof {
            assert(lex.states() =~= states@.to_set());
            assert(lex.states().contains(initial)) by {
                assert(states@[0] == initial);
            }
            assert(lex.states().contains(lex.file_start)) by {
                assert(states@.contains(dfa_next(lex.dfa, states@[0], 10u8)));
            }
            assert forall|s: usize, b: u8| lex.states().contains(s) implies lex.states().contains(
                #[trigger] dfa_next(lex.dfa, s, b),
            ) by {
                let i = choose|i: int| 0 <= i < states@.len() && states@[i] == s;
                assert(states@.contains(dfa_next(lex.dfa, states@[i], b)));
            }
            assert forall|s: usize| #[trigger] lex.states().contains(s) implies dfa_valid(
                lex.dfa,
                s,
            ) && dfa_aligned(lex.dfa, s) && ((s as int / stride as int)
                < lex.vobidx_by_state_off@.len()) by {
                let i = choose|i: int| 0 <= i < states@.len() && states@[i] == s;
                assert(states@[i] as int / stride as int <= max_slot as int);
            }
            assert forall|s: usize| #[trigger] lex.states().contains(s) implies 0 <= lex.handle_of(
                s,
            ) < lex.pool().len() && lex.possible_bits(s).len() == lex.n_patterns() && (forall|
                p: usize,
            |
                p < lex.n_patterns() ==> (lex.possible_bits(s)[p as int] <==> #[trigger] pat_possible(
                    lex.dfa,
                    s,
                    p,
                ))) by {
                let i = choose|i: int| 0 <= i < states@.len() && states@[i] == s;
                assert(slot_stored(lex.vobidx_by_state_off@, lex.pool(), states@, stride, poss@, i));
                assert(lex.possible_bits(s) == vob_bits(poss@[i]));
                assert forall|p: usize| p < lex.n_patterns() implies (lex.possible_bits(
                    s,
                )[p as int] <==> #[trigger] pat_possible(lex.dfa, s, p)) by {
                    assert(bit_at(poss@[i], p) <==> pat_possible(lex.dfa, states@[i], p));
                }
            }
            assert(lex.wf());
        }
        Ok(lex)
    }
}

/// The token resolved in a state is the least pattern index matching at
/// that state's end-of-input transition — when several patterns tie, the
/// lowest declared index wins — and there is no token exactly when no
/// pattern matches there.
pub proof fn lemma_token_is_least_match(lex: &Lexer, prev: usize)
    ensures
        match lex.spec_token(prev) {
            Some(p) => matched(lex.dfa_spec(), dfa_eoi(lex.dfa_spec(), prev)).contains(p)
                && forall|q: usize|
                matched(lex.dfa_spec(), dfa_eoi(lex.dfa_spec(), prev)).contains(q) ==> p <= q,
            None => matched(lex.dfa_spec(), dfa_eoi(lex.dfa_spec(), prev)).is_empty(),
        },
{
    lemma_min_match_least(lex.dfa_spec(), dfa_eoi(lex.dfa_spec(), prev));
}

/// The central construction property: for every reachable state, the
/// interned bitset under the state's handle holds exactly the patterns
/// that can still be completed by some continuation of the input from it.
pub proof fn lemma_possible_set_exact(lex: &Lexer, s: usize, p: usize)
    requires
        lex.wf(),
        lex.states().contains(s),
        p < lex.n_patterns(),
    ensures
        lex.possible_bits(s)[p as int] <==> pat_possible(lex.dfa_spec(), s, p),
{
}

/// Possible sets only shrink along a successful, non-restarting step:
/// when consuming `b` in state `prev` leaves the possible set non-empty,
/// that set is a subset of the possible set of `prev` itself.
pub proof fn lemma_possible_set_monotonic(lex: &Lexer, prev: usize, b: u8)
    requires
        lex.wf(),
        lex.states().contains(prev),
        !all_false(lex.possible_bits(dfa_next(lex.dfa_spec(), prev, b))),
    ensures
        forall|p: usize|
            p < lex.n_patterns() && lex.possible_bits(dfa_next(lex.dfa_spec(), prev, b))[p as int]
                ==> lex.possible_bits(prev)[p as int],
{
    let st = dfa_next(lex.dfa_spec(), prev, b);
    assert(lex.states().contains(st));
    assert forall|p: usize|
        p < lex.n_patterns() && lex.possible_bits(st)[p as int] implies lex.possible_bits(
        prev,
    )[p as int] by {
        assert(pat_possible(lex.dfa_spec(), st, p));
        lemma_possible_step(lex.dfa_spec(), prev, b, p);
        assert(pat_possible(lex.dfa_spec(), prev, p));
    }
}

} // verus!


