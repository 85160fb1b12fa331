//! The bitset pool: interns bit-vectors over the pattern index space so that
//! equal "set of patterns" values are stored once and compared by handle.
//! Handle 0 always denotes the all-zero bitset, the "no patterns possible"
//! sentinel.

use vstd::prelude::*;

use crate::vobs::{all_false, vob_bits, vob_clone, vob_eq, vob_from_elem, vob_get, vob_len,
    vob_set};

verus! {

/// A stable handle into a `VobSet`: the index at which a bitset is interned.
#[derive(Debug, Clone, Hash, PartialEq, Eq, Structural, Copy)]
pub struct VobIdx(usize);

impl View for VobIdx {
    type V = int;

    closed spec fn view(&self) -> int {
        self.0 as int
    }
}

impl VobIdx {
    /// True exactly for the sentinel handle of the all-zero bitset.
    pub fn is_zero(&self) -> (r: bool)
        ensures
            r == (self@ == 0),
    {
        self.0 == 0
    }
}

/// The handle that interning `bits` into `pool` yields: the least index
/// already holding `bits`, or `pool.len()` if no entry holds them yet.
pub open spec fn intern_idx(pool: Seq<Seq<bool>>, bits: Seq<bool>) -> int
    decreases pool.len(),
{
    if pool.len() == 0 {
        0
    } else if pool[0] == bits {
        0
    } else {
        1 + intern_idx(pool.skip(1), bits)
    }
}

/// The pool after interning `bits`: unchanged if an equal entry exists,
/// otherwise extended by one entry holding `bits`.
pub open spec fn intern_pool(pool: Seq<Seq<bool>>, bits: Seq<bool>) -> Seq<Seq<bool>> {
    if pool.contains(bits) {
        pool
    } else {
        pool.push(bits)
    }
}

/// The interning index is the least index holding `bits`, and equals the
/// pool length exactly when `bits` is not interned yet.
pub proof fn lemma_intern_idx_props(pool: Seq<Seq<bool>>, bits: Seq<bool>)
    ensures
        0 <= intern_idx(pool, bits) <= pool.len(),
        intern_idx(pool, bits) < pool.len() ==> pool[intern_idx(pool, bits)] == bits,
        forall|j: int| 0 <= j < intern_idx(pool, bits) ==> pool[j] != bits,
        (intern_idx(pool, bits) == pool.len()) <==> !pool.contains(bits),
    decreases pool.len(),
{
    if pool.len() == 0 {
        assert(!pool.contains(bits));
    } else if pool[0] == bits {
        assert(pool.contains(bits));
    } else {
        let rest = pool.skip(1);
        lemma_intern_idx_props(rest, bits);
        assert(forall|j: int| 0 <= j < rest.len() ==> rest[j] == pool[j + 1]);
        assert forall|j: int| 0 <= j < intern_idx(pool, bits) implies pool[j] != bits by {
            if j > 0 {
                assert(rest[j - 1] != bits);
            }
        }
        if pool.contains(bits) {
            let w = choose|w: int| 0 <= w < pool.len() && pool[w] == bits;
            assert(w != 0);
            assert(rest[w - 1] == bits);
            assert(rest.contains(bits));
        }
        if rest.contains(bits) {
            let w = choose|w: int| 0 <= w < rest.len() && rest[w] == bits;
            assert(pool[w + 1] == bits);
            assert(pool.contains(bits));
        }
    }
}

/// An index that holds `bits` and is preceded by no index holding them is
/// the interning index.
pub proof fn lemma_intern_idx_unique(pool: Seq<Seq<bool>>, bits: Seq<bool>, i: int)
    requires
        0 <= i <= pool.len(),
        i < pool.len() ==> pool[i] == bits,
        forall|j: int| 0 <= j < i ==> pool[j] != bits,
        i == pool.len() ==> !pool.contains(bits),
    ensures
        intern_idx(pool, bits) == i,
{
    lemma_intern_idx_props(pool, bits);
    let k = intern_idx(pool, bits);
    if i < pool.len() {
        if k < i {
            assert(pool[k] != bits);
            assert(false);
        }
        if i < k {
            assert(pool[i] != bits);
            assert(false);
        }
    }
}

/// No position is set in both sequences, compared over their common length.
pub open spec fn inter_empty(a: Seq<bool>, b: Seq<bool>) -> bool {
    forall|i: int| 0 <= i < a.len() && i < b.len() ==> !(a[i] && b[i])
}

/// True exactly when no bit position is set in both vobs, compared over
/// their common length.
pub fn vob_and_is_zero(a: &vob::Vob, b: &vob::Vob) -> (r: bool)
    ensures
        r == inter_empty(vob_bits(*a), vob_bits(*b)),
{
    let la = vob_len(a);
    let lb = vob_len(b);
    let n = if la < lb {
        la
    } else {
        lb
    };
    let mut i: usize = 0;
    while i < n
        invariant
            la == vob_bits(*a).len(),
            lb == vob_bits(*b).len(),
            n <= la && n <= lb && (n == la || n == lb),
            i <= n,
            forall|j: int| 0 <= j < i ==> !(vob_bits(*a)[j] && vob_bits(*b)[j]),
        decreases n - i,
    {
        if vob_get(a, i) && vob_get(b, i) {
            return false;
        }
        i += 1;
    }
    true
}

/// True exactly when no bit of the vob is set.
pub fn vob_is_zero(v: &vob::Vob) -> (r: bool)
    ensures
        r == all_false(vob_bits(*v)),
{
    let n = vob_len(v);
    let mut i: usize = 0;
    while i < n
        invariant
            n == vob_bits(*v).len(),
            i <= n,
            forall|j: int| 0 <= j < i ==> !vob_bits(*v)[j],
        decreases n - i,
    {
        if vob_get(v, i) {
            return false;
        }
        i += 1;
    }
    true
}

/// The pool of interned bitsets.
pub struct VobSet {
    vobs: Vec<vob::Vob>,
    non_empty: vob::Vob,
}

impl View for VobSet {
    type V = Seq<Seq<bool>>;

    closed spec fn view(&self) -> Seq<Seq<bool>> {
        self.vobs@.map(|i: int, v: vob::Vob| vob_bits(v))
    }
}

impl VobSet {
    /// The pool invariant: all entries have one length (the bitsets range
    /// over one pattern-index space), entry 0, when present, is the
    /// all-zero bitset, and no two entries hold the same bits, so equal
    /// handles mean equal bitsets and unequal handles mean unequal ones.
    pub open spec fn wf(&self) -> bool {
        &&& self@.len() > 0 ==> all_false(self@[0])
        &&& forall|i: int, j: int| 0 <= i < j < self@.len() ==> self@[i] != self@[j]
        &&& forall|i: int| 0 <= i < self@.len() ==> (#[trigger] self@[i]).len() == self@[0].len()
    }

    /// The pairwise matrix written by `pre_compute`, row-major over handle
    /// pairs: a cell is set exactly when the two interned bitsets intersect.
    pub closed spec fn matrix(&self) -> Seq<bool> {
        vob_bits(self.non_empty)
    }

    /// An empty pool.
    pub fn new() -> (r: VobSet)
        ensures
            r@.len() == 0,
            r.wf(),
    {
        VobSet { vobs: Vec::new(), non_empty: vob_from_elem(false, 0) }
    }

    /// The interning index of `vob`'s bits in the current pool.
    fn find(&self, vob: &vob::Vob) -> (r: usize)
        ensures
            r as int == intern_idx(self@, vob_bits(*vob)),
    {
        let ghost bits = vob_bits(*vob);
        let n = self.vobs.len();
        let mut i: usize = 0;
        while i < n
            invariant
                n == self.vobs@.len(),
                i <= n,
                bits == vob_bits(*vob),
                forall|j: int| 0 <= j < i ==> self@[j] != bits,
            decreases n - i,
        {
            if vob_eq(&self.vobs[i], vob) {
                proof {
                    assert(self@[i as int] == vob_bits(self.vobs@[i as int]));
                    lemma_intern_idx_unique(self@, bits, i as int);
                }
                return i;
            }
            proof {
                assert(self@[i as int] == vob_bits(self.vobs@[i as int]));
            }
            i += 1;
        }
        proof {
            if self@.contains(bits) {
                let w = choose|w: int| 0 <= w < self@.len() && self@[w] == bits;
                assert(false);
            }
            lemma_intern_idx_unique(self@, bits, n as int);
        }
        n
    }

    /// Interns a bitset: returns the existing handle if an equal bitset was
    /// already interned, and otherwise stores a copy under the next handle.
    /// The very first bitset interned must be the all-zero bitset, because
    /// handle 0 is relied on as the "no patterns possible" sentinel, and
    /// every bitset must range over the pool's one pattern-index space.
    pub fn get(&mut self, vob: &vob::Vob) -> (r: VobIdx)
        requires
            old(self).wf(),
            old(self)@.len() == 0 ==> all_false(vob_bits(*vob)),
            old(self)@.len() > 0 ==> vob_bits(*vob).len() == old(self)@[0].len(),
        ensures
            final(self).wf(),
            final(self)@ == intern_pool(old(self)@, vob_bits(*vob)),
            r@ == intern_idx(old(self)@, vob_bits(*vob)),
            0 <= r@ < final(self)@.len(),
            final(self)@[r@] == vob_bits(*vob),
    {
        let ghost pool0 = self@;
        let ghost bits = vob_bits(*vob);
        proof {
            lemma_intern_idx_props(pool0, bits);
        }
        let i = self.find(vob);
        if i < self.vobs.len() {
            return VobIdx(i);
        }
        proof {
            assert(!pool0.contains(bits));
        }
        self.vobs.push(vob_clone(vob));
        proof {
            assert(self@ =~= pool0.push(bits));
            assert forall|a: int, b: int| 0 <= a < b < self@.len() implies self@[a] != self@[b] by {
                if b < pool0.len() {
                } else {
                    assert(self@[b] == bits);
                    assert(pool0[a] != bits);
                }
            }
        }
        VobIdx(i)
    }

    /// True exactly when the bitsets under the two handles have empty
    /// intersection.
    pub fn and_is_zero(&self, a: VobIdx, b: VobIdx) -> (r: bool)
        requires
            0 <= a@ < self@.len(),
            0 <= b@ < self@.len(),
        ensures
            r == inter_empty(self@[a@], self@[b@]),
    {
        proof {
            assert(self@[a@] == vob_bits(self.vobs@[a@]));
            assert(self@[b@] == vob_bits(self.vobs@[b@]));
        }
        vob_and_is_zero(&self.vobs[a.0], &self.vobs[b.0])
    }

    /// Precomputes the dense pairwise matrix recording which pairs of
    /// interned bitsets have a non-empty intersection.
    pub fn pre_compute(&mut self)
        requires
            old(self).wf(),
            old(self)@.len() * old(self)@.len() <= usize::MAX,
        ensures
            final(self).wf(),
            final(self)@ == old(self)@,
            final(self).matrix().len() == old(self)@.len() * old(self)@.len(),
            forall|x: int, y: int|
                0 <= x < old(self)@.len() && 0 <= y < old(self)@.len()
                    ==> final(self).matrix()[x * old(self)@.len() + y] == !inter_empty(
                    old(self)@[x],
                    old(self)@[y],
                ),
    {
        let l = self.vobs.len();
        let mut m = vob_from_elem(false, l * l);
        let mut x: usize = 0;
        while x < l
            invariant
                l == self.vobs@.len(),
                self@ == old(self)@,
                self.vobs@ == old(self).vobs@,
                l * l <= usize::MAX,
                x <= l,
                vob_bits(m).len() == l * l,
                forall|a: int, b: int|
                    0 <= a < x && 0 <= b < l ==> vob_bits(m)[a * l + b] == !inter_empty(
                        self@[a],
                        self@[b],
                    ),
            decreases l - x,
        {
            let mut y: usize = 0;
            while y < l
                invariant
                    l == self.vobs@.len(),
                    self@ == old(self)@,
                    self.vobs@ == old(self).vobs@,
                    l * l <= usize::MAX,
                    x < l,
                    y <= l,
                    vob_bits(m).len() == l * l,
                    forall|a: int, b: int|
                        0 <= a < x && 0 <= b < l ==> vob_bits(m)[a * l + b] == !inter_empty(
                            self@[a],
                            self@[b],
                        ),
                    forall|b: int|
                        0 <= b < y ==> vob_bits(m)[x as int * l + b] == !inter_empty(
                            self@[x as int],
                            self@[b],
                        ),
                decreases l - y,
            {
                proof {
                    assert(x * l + y < l * l && x * l + l <= l * l) by (nonlinear_arith)
                        requires
                            0 <= x < l,
                            0 <= y < l,
                    ;
                    assert(self@[x as int] == vob_bits(self.vobs@[x as int]));
                    assert(self@[y as int] == vob_bits(self.vobs@[y as int]));
                }
                let z = vob_and_is_zero(&self.vobs[x], &self.vobs[y]);
                let ghost m_pre = vob_bits(m);
                vob_set(&mut m, x * l + y, !z);
                proof {
                    assert forall|a: int, b: int| 0 <= a < x && 0 <= b < l implies vob_bits(m)[a
                        * l + b] == !inter_empty(self@[a], self@[b]) by {
                        assert(a * l + b < x * l + y || a * l + l <= x * l) by (nonlinear_arith)
                            requires
                                0 <= a < x,
                                0 <= b < l,
                                0 <= y,
                        ;
                        assert(m_pre[a * l + b] == !inter_empty(self@[a], self@[b]));
                    }
                }
                y += 1;
            }
            x += 1;
        }
        self.non_empty = m;
    }
}

/// Handle 0 always denotes the all-zero bitset, and only handle 0 does: a
/// valid handle is 0 exactly when the bitset under it is empty, so no
/// state maps to handle 0 unless matching from it is genuinely dead.
pub proof fn lemma_zero_handle_sentinel(s: VobSet, h: VobIdx)
    requires
        s.wf(),
        0 <= h@ < s@.len(),
    ensures
        h@ == 0 <==> all_false(s@[h@]),
{
    if h@ != 0 && all_false(s@[h@]) {
        assert(s@[0] =~= s@[h@]);
        assert(false);
    }
}

/// Interning the same bitset contents twice returns the same handle both
/// times and leaves the pool unchanged the second time.
pub proof fn lemma_intern_idempotent(pool: Seq<Seq<bool>>, bits: Seq<bool>)
    ensures
        intern_pool(intern_pool(pool, bits), bits) == intern_pool(pool, bits),
        intern_idx(intern_pool(pool, bits), bits) == intern_idx(pool, bits),
{
    let p1 = intern_pool(pool, bits);
    lemma_intern_idx_props(pool, bits);
    lemma_intern_idx_props(p1, bits);
    if pool.contains(bits) {
    } else {
        assert(p1[pool.len() as int] == bits);
        assert(p1.contains(bits));
        assert(forall|j: int| 0 <= j < pool.len() ==> p1[j] == pool[j]);
        lemma_intern_idx_unique(p1, bits, pool.len() as int);
    }
}

} // verus!

