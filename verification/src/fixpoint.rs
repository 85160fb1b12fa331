//! Construction-time scaffolding: breadth-first discovery of the reachable
//! automaton states with their incoming-edge graph, per-state match sets,
//! and the backward fixpoint that turns match sets into possible sets.

use vstd::prelude::*;
use vstd::set_lib::{lemma_int_range, lemma_len_subset, set_int_range};

use std::collections::HashMap;

use regex_automata::dfa::dense;

use crate::dfa::{dfa_aligned, dfa_eoi, dfa_is_match_state, dfa_match_at, dfa_match_count,
    dfa_match_len, dfa_match_pattern, dfa_next, dfa_next_eoi_state, dfa_next_state,
    dfa_pattern_count, dfa_valid, STATE_ID_BOUND};
use crate::lexer::{can_match_within, lemma_matched_possible, lemma_possible_step, matched,
    pat_possible};
use crate::vobs::{vob_bits, vob_clone, vob_from_elem, vob_or, vob_set};

verus! {

broadcast use vstd::std_specs::hash::group_hash_axioms;

/// Every entry of `states` is a valid, premultiplied, bounded state
/// identifier of `d`.
pub open spec fn states_ok(d: dense::DFA<Vec<u32>>, states: Seq<usize>) -> bool {
    forall|i: int|
        0 <= i < states.len() ==> dfa_valid(d, #[trigger] states[i]) && dfa_aligned(d, states[i])
            && states[i] < STATE_ID_BOUND
}

/// An edge joins indices of discovered states related by some byte
/// transition.
pub open spec fn edge_ok(d: dense::DFA<Vec<u32>>, states: Seq<usize>, e: (usize, usize)) -> bool {
    &&& e.0 < states.len()
    &&& e.1 < states.len()
    &&& exists|b: u8| dfa_next(d, states[e.0 as int], b) == states[e.1 as int]
}

/// Every recorded edge joins indices of discovered states related by some
/// byte transition.
pub open spec fn edges_sound(
    d: dense::DFA<Vec<u32>>,
    states: Seq<usize>,
    edges: Seq<(usize, usize)>,
) -> bool {
    forall|k: int| 0 <= k < edges.len() ==> edge_ok(d, states, #[trigger] edges[k])
}

/// The transition out of state `i` on byte `b` is recorded as an edge.
pub open spec fn edge_recorded(
    d: dense::DFA<Vec<u32>>,
    states: Seq<usize>,
    edges: Seq<(usize, usize)>,
    i: int,
    b: u8,
) -> bool {
    exists|k: int|
        0 <= k < edges.len() && (#[trigger] edges[k]).0 == i && edges[k].1 < states.len()
            && states[edges[k].1 as int] == dfa_next(d, states[i], b)
}

/// Every byte transition out of every discovered state is recorded.
pub open spec fn edges_complete(
    d: dense::DFA<Vec<u32>>,
    states: Seq<usize>,
    edges: Seq<(usize, usize)>,
) -> bool {
    forall|i: int, b: u8| 0 <= i < states.len() ==> #[trigger] edge_recorded(d, states, edges, i, b)
}

/// The bit at pattern index `q` of a vob.
pub open spec fn bit_at(v: vob::Vob, q: usize) -> bool {
    vob_bits(v)[q as int]
}

/// The bit sequences of a vector of vobs.
pub open spec fn bits_of(s: Seq<vob::Vob>) -> Seq<Seq<bool>> {
    s.map(|i: int, v: vob::Vob| vob_bits(v))
}

/// How many bits of `s` are clear: the termination measure of the
/// fixpoint, which strictly shrinks whenever a pass sets a bit.
pub closed spec fn count_false(s: Seq<bool>) -> nat
    decreases s.len(),
{
    if s.len() == 0 {
        0
    } else {
        count_false(s.drop_last()) + (if s.last() {
            0nat
        } else {
            1nat
        })
    }
}

/// The total number of clear bits over a sequence of bit sequences.
pub closed spec fn total_false(ps: Seq<Seq<bool>>) -> nat
    decreases ps.len(),
{
    if ps.len() == 0 {
        0
    } else {
        total_false(ps.drop_last()) + count_false(ps.last())
    }
}

/// Setting bits never increases the number of clear bits, and setting at
/// least one strictly decreases it.
proof fn lemma_count_false_grow(a: Seq<bool>, b: Seq<bool>)
    requires
        a.len() == b.len(),
        forall|i: int| 0 <= i < a.len() ==> (a[i] ==> b[i]),
    ensures
        count_false(b) <= count_false(a),
        a != b ==> count_false(b) < count_false(a),
    decreases a.len(),
{
    if a.len() == 0 {
        assert(a =~= b);
    } else {
        let a1 = a.drop_last();
        let b1 = b.drop_last();
        assert(forall|i: int| 0 <= i < a1.len() ==> (a1[i] ==> b1[i]));
        lemma_count_false_grow(a1, b1);
        if a != b {
            if a.last() == b.last() && a1 == b1 {
                assert forall|i: int| 0 <= i < a.len() implies a[i] == b[i] by {
                    if i < a.len() - 1 {
                        assert(a[i] == a1[i] && b[i] == b1[i]);
                    }
                }
                assert(a =~= b);
                assert(false);
            }
        }
    }
}

/// Replacing one entry changes the total clear-bit count by exactly the
/// difference at that entry.
proof fn lemma_total_false_update(ps: Seq<Seq<bool>>, o: int, nv: Seq<bool>)
    requires
        0 <= o < ps.len(),
    ensures
        total_false(ps.update(o, nv)) + count_false(ps[o]) == total_false(ps) + count_false(nv),
    decreases ps.len(),
{
    let u = ps.update(o, nv);
    if o == ps.len() - 1 {
        assert(u.drop_last() =~= ps.drop_last());
        assert(u.last() == nv);
    } else {
        lemma_total_false_update(ps.drop_last(), o, nv);
        assert(u.drop_last() =~= ps.drop_last().update(o, nv));
        assert(u.last() == ps.last());
    }
}

/// A duplicate-free sequence of values below `bound` has at most `bound`
/// entries.
proof fn lemma_bounded_distinct_len(s: Seq<usize>, bound: usize)
    requires
        s.no_duplicates(),
        forall|i: int| 0 <= i < s.len() ==> s[i] < bound,
    ensures
        s.len() <= bound,
{
    let t = s.map_values(|x: usize| x as int);
    assert forall|i: int, j: int|
        0 <= i < t.len() && 0 <= j < t.len() && i != j implies t[i] != t[j] by {
        assert(s[i] != s[j]);
    }
    assert(t.no_duplicates());
    t.unique_seq_to_set();
    let r = set_int_range(0, bound as int);
    lemma_int_range(0, bound as int);
    assert forall|x: int| t.to_set().contains(x) implies r.contains(x) by {
        let i = choose|i: int| 0 <= i < t.len() && t[i] == x;
        assert(s[i] < bound);
    }
    lemma_len_subset(t.to_set(), r);
}

/// A recorded transition survives appending further states and edges: the
/// same witness edge still stands in the extended graph.
proof fn lemma_recorded_extend(
    d: dense::DFA<Vec<u32>>,
    states0: Seq<usize>,
    states1: Seq<usize>,
    edges0: Seq<(usize, usize)>,
    edges1: Seq<(usize, usize)>,
    i: int,
    b: u8,
)
    requires
        states0.len() <= states1.len(),
        forall|x: int| 0 <= x < states0.len() ==> states1[x] == #[trigger] states0[x],
        edges0.len() <= edges1.len(),
        forall|k: int| 0 <= k < edges0.len() ==> edges1[k] == #[trigger] edges0[k],
        0 <= i < states0.len(),
        edge_recorded(d, states0, edges0, i, b),
    ensures
        edge_recorded(d, states1, edges1, i, b),
{
    let k = choose|k: int|
        0 <= k < edges0.len() && (#[trigger] edges0[k]).0 == i && edges0[k].1 < states0.len()
            && states0[edges0[k].1 as int] == dfa_next(d, states0[i], b);
    assert((#[trigger] edges1[k]).0 == i);
    assert(states1[edges1[k].1 as int] == dfa_next(d, states1[i], b));
}

/// Edge soundness survives appending further states.
proof fn lemma_sound_extend(
    d: dense::DFA<Vec<u32>>,
    states0: Seq<usize>,
    states1: Seq<usize>,
    edges: Seq<(usize, usize)>,
)
    requires
        states0.len() <= states1.len(),
        forall|x: int| 0 <= x < states0.len() ==> states1[x] == #[trigger] states0[x],
        edges_sound(d, states0, edges),
    ensures
        edges_sound(d, states1, edges),
{
    assert forall|k: int| 0 <= k < edges.len() implies edge_ok(d, states1, #[trigger] edges[k]) by {
        assert(edge_ok(d, states0, edges[k]));
        let e = edges[k];
        let b = choose|b: u8| dfa_next(d, states0[e.0 as int], b) == states0[e.1 as int];
        assert(dfa_next(d, states1[e.0 as int], b) == states1[e.1 as int]);
    }
}

/// Discovers every automaton state reachable from `initial` by byte
/// transitions, together with the complete edge list between discovered
/// states (an edge records the indices of its endpoints in the returned
/// state list).
#[verifier::loop_isolation(false)]
pub(crate) fn explore(d: &dense::DFA<Vec<u32>>, initial: usize) -> (r: (
    Vec<usize>,
    Vec<(usize, usize)>,
))
    requires
        dfa_valid(*d, initial),
        dfa_aligned(*d, initial),
        initial < STATE_ID_BOUND,
    ensures
        ({
            let (states, edges) = r;
            &&& states@.len() >= 1
            &&& states@[0] == initial
            &&& states@.no_duplicates()
            &&& states_ok(*d, states@)
            &&& edges_sound(*d, states@, edges@)
            &&& edges_complete(*d, states@, edges@)
            &&& forall|i: int, b: u8|
                0 <= i < states@.len() ==> states@.contains(
                    #[trigger] dfa_next(*d, states@[i], b),
                )
        }),
{
    let mut states: Vec<usize> = Vec::new();
    let mut edges: Vec<(usize, usize)> = Vec::new();
    let mut index_of: HashMap<usize, usize> = HashMap::new();
    states.push(initial);
    index_of.insert(initial, 0);
    proof {
        assert(states@[0] == initial);
        assert forall|kk: usize| #[trigger] index_of@.contains_key(kk) implies states@.contains(
            kk,
        ) by {
            assert(kk == initial);
            assert(states@[0] == kk);
        }
    }
    let mut next_i: usize = 0;
    while next_i < states.len()
        invariant
            1 <= states@.len() <= STATE_ID_BOUND,
            states@[0] == initial,
            next_i <= states@.len(),
            states@.no_duplicates(),
            states_ok(*d, states@),
            edges_sound(*d, states@, edges@),
            forall|kk: usize| #[trigger] index_of@.contains_key(kk) ==> states@.contains(kk),
            forall|i: int|
                0 <= i < states@.len() ==> index_of@.contains_key(#[trigger] states@[i])
                    && index_of@[states@[i]] == i,
            forall|i: int, b: u8|
                0 <= i < next_i ==> #[trigger] edge_recorded(*d, states@, edges@, i, b),
        decreases STATE_ID_BOUND - next_i,
    {
        let s = states[next_i];
        let mut bi: usize = 0;
        while bi < 256
            invariant
                bi <= 256,
                next_i < states@.len() <= STATE_ID_BOUND,
                states@[0] == initial,
                s == states@[next_i as int],
                states@.no_duplicates(),
                states_ok(*d, states@),
                edges_sound(*d, states@, edges@),
                forall|kk: usize| #[trigger] index_of@.contains_key(kk) ==> states@.contains(kk),
                forall|i: int|
                    0 <= i < states@.len() ==> index_of@.contains_key(#[trigger] states@[i])
                        && index_of@[states@[i]] == i,
                forall|i: int, b: u8|
                    0 <= i < next_i ==> #[trigger] edge_recorded(*d, states@, edges@, i, b),
                forall|b: u8|
                    (b as int) < bi ==> #[trigger] edge_recorded(
                        *d,
                        states@,
                        edges@,
                        next_i as int,
                        b,
                    ),
            decreases 256 - bi,
        {
            let ghost states0 = states@;
            let ghost edges0 = edges@;
            let byte = bi as u8;
            let s2 = dfa_next_state(d, s, byte);
            let j: usize;
            match index_of.get(&s2) {
                Some(jj) => {
                    j = *jj;
                    proof {
                        assert(index_of@.contains_key(s2));
                        let i = choose|i: int| 0 <= i < states@.len() && states@[i] == s2;
                        assert(index_of@[states@[i]] == i);
                        assert(j == i);
                        assert(j < states@.len() && states@[j as int] == s2);
                    }
                },
                None => {
                    j = states.len();
                    proof {
                        if states0.contains(s2) {
                            let i = choose|i: int| 0 <= i < states0.len() && states0[i] == s2;
                            assert(index_of@.contains_key(states0[i]));
                            assert(false);
                        }
                    }
                    states.push(s2);
                    index_of.insert(s2, j);
                    proof {
                        assert forall|a: int, c: int|
                            0 <= a < states@.len() && 0 <= c < states@.len() && a != c implies
                            states@[a] != states@[c] by {
                            if a < states0.len() && c < states0.len() {
                                assert(states0[a] != states0[c]);
                            } else if a == states0.len() {
                                assert(states0[c] != s2);
                            } else if c == states0.len() {
                                assert(states0[a] != s2);
                            }
                        }
                        lemma_bounded_distinct_len(states@, STATE_ID_BOUND);
                        assert forall|kk: usize| #[trigger] index_of@.contains_key(kk) implies
                            states@.contains(kk) by {
                            if kk == s2 {
                                assert(states@[states0.len() as int] == kk);
                            } else {
                                assert(states0.contains(kk));
                                let i = choose|i: int| 0 <= i < states0.len() && states0[i] == kk;
                                assert(states@[i] == kk);
                            }
                        }
                        assert forall|i: int| 0 <= i < states@.len() implies index_of@.contains_key(
                            #[trigger] states@[i],
                        ) && index_of@[states@[i]] == i by {
                            if i < states0.len() {
                                assert(states@[i] == states0[i]);
                                assert(states0[i] != s2);
                            } else {
                                assert(states@[i] == s2);
                            }
                        }
                        lemma_sound_extend(*d, states0, states@, edges0);
                        assert(j < states@.len() && states@[j as int] == s2);
                    }
                },
            }
            let ghost edges_mid = edges@;
            edges.push((next_i, j));
            proof {
                assert(states@[next_i as int] == states0[next_i as int]);
                assert(dfa_next(*d, states@[next_i as int], byte) == states@[j as int]);
                assert(edges@[edges_mid.len() as int] == (next_i, j));
                assert(edges_sound(*d, states@, edges0));
                assert forall|k: int| 0 <= k < edges@.len() implies edge_ok(
                    *d,
                    states@,
                    #[trigger] edges@[k],
                ) by {
                    if k < edges0.len() {
                        assert(edges@[k] == edges0[k]);
                        assert(edge_ok(*d, states@, edges0[k]));
                    } else {
                        assert(edges@[k] == (next_i, j));
                        assert(dfa_next(*d, states@[(next_i, j).0 as int], byte) == states@[(
                            next_i,
                            j,
                        ).1 as int]);
                        assert(edge_ok(*d, states@, (next_i, j)));
                    }
                }
                assert forall|b: u8| (b as int) < bi + 1 implies #[trigger] edge_recorded(
                    *d,
                    states@,
                    edges@,
                    next_i as int,
                    b,
                ) by {
                    if (b as int) < bi {
                        assert(edge_recorded(*d, states0, edges0, next_i as int, b));
                        lemma_recorded_extend(
                            *d,
                            states0,
                            states@,
                            edges0,
                            edges@,
                            next_i as int,
                            b,
                        );
                    } else {
                        assert(b == byte);
                        assert((#[trigger] edges@[edges_mid.len() as int]).0 == next_i as int);
                        assert(states@[j as int] == dfa_next(*d, states@[next_i as int], b));
                    }
                }
                assert forall|i: int, b: u8| 0 <= i < next_i implies #[trigger] edge_recorded(
                    *d,
                    states@,
                    edges@,
                    i,
                    b,
                ) by {
                    assert(edge_recorded(*d, states0, edges0, i, b));
                    lemma_recorded_extend(*d, states0, states@, edges0, edges@, i, b);
                }
            }
            bi += 1;
        }
        next_i += 1;
    }
    proof {
        assert forall|i: int, b: u8| 0 <= i < states@.len() implies states@.contains(
            #[trigger] dfa_next(*d, states@[i], b),
        ) by {
            assert(edge_recorded(*d, states@, edges@, i, b));
            let k = choose|k: int|
                0 <= k < edges@.len() && (#[trigger] edges@[k]).0 == i && edges@[k].1
                    < states@.len() && states@[edges@[k].1 as int] == dfa_next(*d, states@[i], b);
            assert(states@[edges@[k].1 as int] == dfa_next(*d, states@[i], b));
        }
    }
    (states, edges)
}

/// The bitset of patterns that match at the end-of-input transition of
/// state `s`: the state's match set.
pub(crate) fn match_set_vob(d: &dense::DFA<Vec<u32>>, s: usize, n: usize) -> (r: vob::Vob)
    requires
        dfa_valid(*d, s),
        n == dfa_pattern_count(*d),
    ensures
        vob_bits(r).len() == n,
        forall|q: usize|
            q < n ==> (#[trigger] bit_at(r, q) <==> matched(*d, dfa_eoi(*d, s)).contains(q)),
        forall|q: usize| #[trigger] matched(*d, dfa_eoi(*d, s)).contains(q) ==> q < n,
{
    let s2 = dfa_next_eoi_state(d, s);
    let mut m = vob_from_elem(false, n);
    if dfa_is_match_state(d, s2) {
        let cnt = dfa_match_len(d, s2);
        let mut k: usize = 0;
        while k < cnt
            invariant
                dfa_valid(*d, s2),
                crate::dfa::dfa_is_match(*d, s2),
                s2 == dfa_eoi(*d, s),
                n == dfa_pattern_count(*d),
                cnt == dfa_match_count(*d, s2),
                k <= cnt,
                vob_bits(m).len() == n,
                forall|i: int| 0 <= i < k ==> #[trigger] dfa_match_at(*d, s2, i) < n,
                forall|q: usize|
                    q < n ==> (#[trigger] bit_at(m, q) <==> exists|i: int|
                        0 <= i < k && dfa_match_at(*d, s2, i) == q),
            decreases cnt - k,
        {
            let p = dfa_match_pattern(d, s2, k);
            let ghost m_pre = m;
            vob_set(&mut m, p, true);
            proof {
                assert forall|q: usize| q < n implies (#[trigger] bit_at(m, q) <==> exists|i: int|
                    0 <= i < k + 1 && dfa_match_at(*d, s2, i) == q) by {
                    if q == p {
                        assert(dfa_match_at(*d, s2, k as int) == q);
                        assert(bit_at(m, q));
                    } else {
                        assert(bit_at(m, q) == bit_at(m_pre, q));
                        if exists|i: int| 0 <= i < k + 1 && dfa_match_at(*d, s2, i) == q {
                            let i = choose|i: int| 0 <= i < k + 1 && dfa_match_at(*d, s2, i) == q;
                            assert(i < k);
                        }
                    }
                }
            }
            k += 1;
        }
        proof {
            assert forall|q: usize|
                q < n implies (bit_at(m, q) <==> matched(*d, dfa_eoi(*d, s)).contains(q)) by {
                assert(matched(*d, s2).contains(q) == (exists|i: int|
                    0 <= i < dfa_match_count(*d, s2) && dfa_match_at(*d, s2, i) == q));
            }
            assert forall|q: usize| matched(*d, dfa_eoi(*d, s)).contains(q) implies q < n by {
                let i = choose|i: int|
                    0 <= i < dfa_match_count(*d, s2) && dfa_match_at(*d, s2, i) == q;
            }
        }
    } else {
        proof {
            assert(matched(*d, s2) =~= Set::empty());
        }
    }
    m
}

/// In a stable, match-set-containing assignment over a complete edge
/// graph, every pattern that can still match from a discovered state is
/// marked at that state.
proof fn lemma_fixpoint_complete(
    d: dense::DFA<Vec<u32>>,
    states: Seq<usize>,
    edges: Seq<(usize, usize)>,
    ps: Seq<Seq<bool>>,
    n: usize,
    j: int,
    p: usize,
    fuel: nat,
)
    requires
        edges_sound(d, states, edges),
        edges_complete(d, states, edges),
        ps.len() == states.len(),
        forall|j2: int, q: usize|
            0 <= j2 < states.len() && q < n && matched(d, dfa_eoi(d, states[j2])).contains(q)
                ==> #[trigger] ps[j2][q as int],
        forall|k: int, q: usize|
            0 <= k < edges.len() && q < n && (#[trigger] ps[edges[k].1 as int][q as int])
                ==> ps[edges[k].0 as int][q as int],
        0 <= j < states.len(),
        p < n,
        can_match_within(d, states[j], p, fuel),
    ensures
        ps[j][p as int],
    decreases fuel,
{
    if matched(d, dfa_eoi(d, states[j])).contains(p) {
        assert(ps[j][p as int]);
    } else {
        let b = choose|b: u8| can_match_within(d, dfa_next(d, states[j], b), p, (fuel - 1) as nat);
        assert(edge_recorded(d, states, edges, j, b));
        let k = choose|k: int|
            0 <= k < edges.len() && (#[trigger] edges[k]).0 == j && edges[k].1 < states.len()
                && states[edges[k].1 as int] == dfa_next(d, states[j], b);
        lemma_fixpoint_complete(d, states, edges, ps, n, edges[k].1 as int, p, (fuel - 1) as nat);
    }
}

/// Runs the backward fixpoint: starting from each state's match set,
/// repeatedly unions every state's set into each of its predecessors until
/// a full pass changes nothing. Afterwards each state's bitset holds
/// exactly the patterns that can still be completed from it.
#[verifier::loop_isolation(false)]
pub(crate) fn run_fixpoint(
    d: &dense::DFA<Vec<u32>>,
    states: &Vec<usize>,
    edges: &Vec<(usize, usize)>,
    poss: &mut Vec<vob::Vob>,
    n: usize,
)
    requires
        n == dfa_pattern_count(*d),
        states_ok(*d, states@),
        edges_sound(*d, states@, edges@),
        edges_complete(*d, states@, edges@),
        old(poss)@.len() == states@.len(),
        forall|j: int| 0 <= j < states@.len() ==> vob_bits(#[trigger] old(poss)@[j]).len() == n,
        forall|j: int, q: usize|
            0 <= j < states@.len() && q < n ==> (#[trigger] bit_at(old(poss)@[j], q) <==> matched(
                *d,
                dfa_eoi(*d, states@[j]),
            ).contains(q)),
        forall|j: int, q: usize|
            0 <= j < states@.len() && #[trigger] matched(*d, dfa_eoi(*d, states@[j])).contains(q)
                ==> q < n,
    ensures
        final(poss)@.len() == states@.len(),
        forall|j: int| 0 <= j < states@.len() ==> vob_bits(#[trigger] final(poss)@[j]).len() == n,
        forall|j: int, q: usize|
            0 <= j < states@.len() && q < n ==> (#[trigger] bit_at(final(poss)@[j], q)
                <==> pat_possible(*d, states@[j], q)),
{
    proof {
        assert forall|j: int, q: usize|
            0 <= j < states@.len() && q < n && #[trigger] bit_at(poss@[j], q) implies pat_possible(
            *d,
            states@[j],
            q,
        ) by {
            lemma_matched_possible(*d, states@[j], q);
        }
    }
    #[verifier::loop_isolation(true)]
    loop
        invariant_except_break
            n == dfa_pattern_count(*d),
            states_ok(*d, states@),
            edges_sound(*d, states@, edges@),
            edges_complete(*d, states@, edges@),
            poss@.len() == states@.len(),
            forall|j: int| 0 <= j < states@.len() ==> vob_bits(#[trigger] poss@[j]).len() == n,
            forall|j: int, q: usize|
                0 <= j < states@.len() && q < n && #[trigger] bit_at(poss@[j], q) ==> pat_possible(
                    *d,
                    states@[j],
                    q,
                ),
            forall|j: int, q: usize|
                0 <= j < states@.len() && q < n && matched(*d, dfa_eoi(*d, states@[j])).contains(q)
                    ==> #[trigger] bit_at(poss@[j], q),
        ensures
            poss@.len() == states@.len(),
            forall|j: int| 0 <= j < states@.len() ==> vob_bits(#[trigger] poss@[j]).len() == n,
            forall|j: int, q: usize|
                0 <= j < states@.len() && q < n && #[trigger] bit_at(poss@[j], q) ==> pat_possible(
                    *d,
                    states@[j],
                    q,
                ),
            forall|j: int, q: usize|
                0 <= j < states@.len() && q < n && matched(*d, dfa_eoi(*d, states@[j])).contains(q)
                    ==> #[trigger] bit_at(poss@[j], q),
            forall|k: int, q: usize|
                0 <= k < edges@.len() && q < n && #[trigger] bit_at(
                    poss@[edges@[k].1 as int],
                    q,
                ) ==> bit_at(poss@[edges@[k].0 as int], q),
        decreases total_false(bits_of(poss@)),
    {
        let ghost start = bits_of(poss@);
        let mut num_set: usize = 0;
        let mut k: usize = 0;
        while k < edges.len()
            invariant
                k <= edges@.len(),
                num_set <= k,
                poss@.len() == states@.len(),
                forall|j: int| 0 <= j < states@.len() ==> vob_bits(#[trigger] poss@[j]).len() == n,
                forall|j: int, q: usize|
                    0 <= j < states@.len() && q < n && #[trigger] bit_at(poss@[j], q)
                        ==> pat_possible(*d, states@[j], q),
                forall|j: int, q: usize|
                    0 <= j < states@.len() && q < n && matched(
                        *d,
                        dfa_eoi(*d, states@[j]),
                    ).contains(q) ==> #[trigger] bit_at(poss@[j], q),
                total_false(bits_of(poss@)) <= total_false(start),
                num_set > 0 ==> total_false(bits_of(poss@)) < total_false(start),
                num_set == 0 ==> bits_of(poss@) == start,
                num_set == 0 ==> forall|k2: int, q: usize|
                    0 <= k2 < k && q < n && #[trigger] bit_at(poss@[edges@[k2].1 as int], q)
                        ==> bit_at(poss@[edges@[k2].0 as int], q),
            decreases edges@.len() - k,
        {
            let edge = edges[k];
            let e0 = edge.0;
            let e1 = edge.1;
            proof {
                assert(edges@[k as int].0 == e0 && edges@[k as int].1 == e1);
                assert(edge_ok(*d, states@, edges@[k as int]));
                assert(e0 < states@.len() && e1 < states@.len());
            }
            let ghost poss_pre = poss@;
            let ghost pre = bits_of(poss@);
            let ghost pre_e0 = vob_bits(poss@[e0 as int]);
            let src = vob_clone(&poss[e1]);
            let changed = vob_or(&mut poss[e0], &src);
            proof {
                let now_e0 = vob_bits(poss@[e0 as int]);
                assert(vob_bits(src) == vob_bits(poss_pre[e1 as int]));
                assert(poss@ =~= poss_pre.update(e0 as int, poss@[e0 as int]));
                assert(bits_of(poss@) =~= pre.update(e0 as int, now_e0));
                lemma_total_false_update(pre, e0 as int, now_e0);
                assert(forall|x: int| 0 <= x < pre_e0.len() ==> (pre_e0[x] ==> now_e0[x]));
                lemma_count_false_grow(pre_e0, now_e0);
                let b = choose|b: u8| dfa_next(*d, states@[e0 as int], b) == states@[e1 as int];
                assert forall|j: int| 0 <= j < states@.len() implies vob_bits(
                    #[trigger] poss@[j],
                ).len() == n by {
                    if j != e0 as int {
                        assert(poss@[j] == poss_pre[j]);
                    }
                }
                assert forall|j: int, q: usize|
                    0 <= j < states@.len() && q < n && #[trigger] bit_at(poss@[j], q) implies
                    pat_possible(*d, states@[j], q) by {
                    if j == e0 as int {
                        if pre_e0[q as int] {
                            assert(bit_at(poss_pre[j], q));
                        } else {
                            assert(vob_bits(src)[q as int]);
                            assert(bit_at(poss_pre[e1 as int], q));
                            assert(pat_possible(*d, states@[e1 as int], q));
                            lemma_possible_step(*d, states@[e0 as int], b, q);
                        }
                    } else {
                        assert(poss@[j] == poss_pre[j]);
                        assert(bit_at(poss_pre[j], q));
                    }
                }
                assert forall|j: int, q: usize|
                    0 <= j < states@.len() && q < n && matched(
                        *d,
                        dfa_eoi(*d, states@[j]),
                    ).contains(q) implies #[trigger] bit_at(poss@[j], q) by {
                    assert(bit_at(poss_pre[j], q));
                    if j == e0 as int {
                        assert(now_e0[q as int] == (pre_e0[q as int] || vob_bits(src)[q as int]));
                    } else {
                        assert(poss@[j] == poss_pre[j]);
                    }
                }
                if !changed {
                    assert(now_e0 == pre_e0);
                    assert(bits_of(poss@) =~= pre);
                    if num_set == 0 {
                        assert forall|k2: int, q: usize|
                            0 <= k2 < k + 1 && q < n && #[trigger] bit_at(
                                poss@[edges@[k2].1 as int],
                                q,
                            ) implies bit_at(poss@[edges@[k2].0 as int], q) by {
                            let x1 = edges@[k2].1 as int;
                            let x0 = edges@[k2].0 as int;
                            assert(vob_bits(poss@[x1]) == pre[x1] && pre[x1] == vob_bits(
                                poss_pre[x1],
                            ));
                            assert(vob_bits(poss@[x0]) == pre[x0] && pre[x0] == vob_bits(
                                poss_pre[x0],
                            ));
                            if k2 < k {
                                assert(bit_at(poss_pre[x1], q));
                            } else {
                                assert(vob_bits(poss_pre[x1]) == vob_bits(src));
                                assert(now_e0[q as int] == (pre_e0[q as int] || vob_bits(
                                    src,
                                )[q as int]));
                            }
                        }
                    }
                }
            }
            if changed {
                num_set += 1;
            }
            k += 1;
        }
        if num_set == 0 {
            break;
        }
    }
    proof {
        assert forall|j: int, q: usize|
            0 <= j < states@.len() && q < n implies (#[trigger] bit_at(poss@[j], q)
            <==> pat_possible(*d, states@[j], q)) by {
            if pat_possible(*d, states@[j], q) {
                let fuel = choose|fuel: nat| can_match_within(*d, states@[j], q, fuel);
                assert forall|j2: int, q2: usize|
                    0 <= j2 < states@.len() && q2 < n && matched(
                        *d,
                        dfa_eoi(*d, states@[j2]),
                    ).contains(q2) implies #[trigger] bits_of(poss@)[j2][q2 as int] by {
                    assert(bit_at(poss@[j2], q2));
                }
                assert forall|k: int, q2: usize|
                    0 <= k < edges@.len() && q2 < n && (#[trigger] bits_of(
                        poss@,
                    )[edges@[k].1 as int][q2 as int]) implies bits_of(
                    poss@,
                )[edges@[k].0 as int][q2 as int] by {
                    assert(bit_at(poss@[edges@[k].1 as int], q2));
                    assert(bit_at(poss@[edges@[k].0 as int], q2));
                }
                lemma_fixpoint_complete(*d, states@, edges@, bits_of(poss@), n, j, q, fuel);
                assert(bits_of(poss@)[j][q as int]);
            }
        }
    }
}

} // verus!
