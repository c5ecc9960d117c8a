use vstd::prelude::*;

verus! {

/// Ways in which a queue operation can be refused.
#[derive(Clone, Copy, Debug, PartialEq, Eq, Structural)]
pub enum PqError {
    /// `insert` was given a key that is already queued.
    DuplicateKey,
    /// `decrease_key` was given a key that is not queued.
    UnknownKey,
    /// `extract_min` was called on an empty queue.
    Empty,
}

/// Position of the parent of heap position `p` in a heap of fan-out `d`.
pub open spec fn parent(p: int, d: int) -> int {
    (p - 1) / d
}

/// Entry `a` comes no later than entry `b`: smaller value first, the lower key on a tie.
pub open spec fn entry_le(va: usize, a: usize, vb: usize, b: usize) -> bool {
    va < vb || (va == vb && a <= b)
}

/// `k` is the entry of `m` that `extract_min` hands out: the least value, and among
/// equal values the least key.
pub open spec fn is_min_entry(m: Map<usize, usize>, k: usize) -> bool {
    &&& m.contains_key(k)
    &&& forall|j: usize| #[trigger] m.contains_key(j) ==> entry_le(m[k], k, m[j], j)
}

spec fn key_le(vals: Seq<usize>, a: usize, b: usize) -> bool {
    entry_le(vals[a as int], a, vals[b as int], b)
}

/// The heap order holds on every edge but the one from position `i` up to its parent;
/// the parent of `i` still comes before the children of `i`.
spec fn ordered_except_up(heap: Seq<usize>, vals: Seq<usize>, d: int, i: int) -> bool {
    &&& forall|p: int|
        0 < p < heap.len() && p != i ==> key_le(vals, heap[parent(p, d)], #[trigger] heap[p])
    &&& i > 0 ==> forall|c: int|
        0 < c < heap.len() && #[trigger] parent(c, d) == i ==> key_le(
            vals,
            heap[parent(i, d)],
            heap[c],
        )
}

/// The heap order holds on every edge but those from position `i` down to its
/// children; the parent of `i` still comes before the children of `i`.
spec fn ordered_except_down(heap: Seq<usize>, vals: Seq<usize>, d: int, i: int) -> bool {
    &&& forall|p: int|
        0 < p < heap.len() && parent(p, d) != i ==> key_le(
            vals,
            heap[parent(p, d)],
            #[trigger] heap[p],
        )
    &&& i > 0 ==> forall|c: int|
        0 < c < heap.len() && #[trigger] parent(c, d) == i ==> key_le(
            vals,
            heap[parent(i, d)],
            heap[c],
        )
}

spec fn ordered(heap: Seq<usize>, vals: Seq<usize>, d: int) -> bool {
    forall|p: int| 0 < p < heap.len() ==> key_le(vals, heap[parent(p, d)], #[trigger] heap[p])
}

/// Each heap slot holds a key that `pos` can index, whose recorded position is that slot.
spec fn indexed(heap: Seq<usize>, pos: Seq<usize>) -> bool {
    forall|p: int|
        0 <= p < heap.len() ==> (#[trigger] heap[p]) < pos.len() && pos[heap[p] as int] == p
}

proof fn lemma_parent_below(p: int, d: int)
    requires
        p > 0,
        d >= 2,
    ensures
        0 <= parent(p, d) < p,
{
    assert(0 <= (p - 1) / d <= p - 1) by (nonlinear_arith)
        requires
            p > 0,
            d >= 2,
    ;
}

proof fn lemma_children(c: int, d: int, i: int)
    requires
        c >= 1,
        d >= 2,
        i >= 0,
    ensures
        (parent(c, d) == i) <==> (d * i + 1 <= c <= d * i + d),
{
    let q = (c - 1) / d;
    let r = (c - 1) % d;
    vstd::arithmetic::div_mod::lemma_fundamental_div_mod(c - 1, d);
    assert(0 <= r < d);
    assert(c - 1 == d * q + r);
    if q < i {
        assert(d * q + d <= d * i) by (nonlinear_arith)
            requires
                q < i,
                d >= 2,
        ;
    }
    if q > i {
        assert(d * i + d <= d * q) by (nonlinear_arith)
            requires
                q > i,
                d >= 2,
        ;
    }
}

proof fn lemma_first_child(n: int, d: int, i: int)
    requires
        n >= 2,
        d >= 2,
        i >= 0,
    ensures
        i <= (n - 2) / d ==> d * i <= n - 2,
        i > (n - 2) / d ==> d * i > n - 2,
{
    let q = (n - 2) / d;
    vstd::arithmetic::div_mod::lemma_fundamental_div_mod(n - 2, d);
    if i <= q {
        assert(d * i <= d * q) by (nonlinear_arith)
            requires
                i <= q,
                d >= 2,
        ;
    } else {
        assert(d * i >= d * q + d) by (nonlinear_arith)
            requires
                i > q,
                d >= 2,
        ;
    }
}

proof fn lemma_all_below_parent(len: int, d: int)
    requires
        d >= 2,
    ensures
        forall|c: int| 0 < c < len ==> 0 <= #[trigger] parent(c, d) < c,
{
    assert forall|c: int| 0 < c < len implies 0 <= #[trigger] parent(c, d) < c by {
        lemma_parent_below(c, d);
    }
}

proof fn lemma_root_first(heap: Seq<usize>, vals: Seq<usize>, d: int, p: int)
    requires
        d >= 2,
        ordered(heap, vals, d),
        0 <= p < heap.len(),
    ensures
        key_le(vals, heap[0], heap[p]),
    decreases p,
{
    if p > 0 {
        lemma_parent_below(p, d);
        lemma_root_first(heap, vals, d, parent(p, d));
    }
}

/// A min-priority queue over the keys `0..capacity`, each queued at most once with a
/// value, kept as a heap of fan-out `degree` together with the position of each key in
/// it, so that a key's value can be lowered in place.
pub struct IndexedMinPQ {
    degree: usize,
    /// Heap slot to key.
    heap: Vec<usize>,
    /// Key to its heap slot; meaningful only while the key is queued.
    pos: Vec<usize>,
    /// Key to its value; meaningful only while the key is queued.
    vals: Vec<usize>,
}

impl View for IndexedMinPQ {
    type V = Map<usize, usize>;

    /// The queued keys, each with its value.
    closed spec fn view(&self) -> Map<usize, usize> {
        Map::new(|k: usize| self.holds(k), |k: usize| self.vals@[k as int])
    }
}

impl IndexedMinPQ {
    closed spec fn holds(&self, k: usize) -> bool {
        &&& k < self.pos@.len()
        &&& self.pos@[k as int] < self.heap@.len()
        &&& self.heap@[self.pos@[k as int] as int] == k
    }

    /// The keys this queue can hold are those below this bound.
    pub closed spec fn capacity(&self) -> nat {
        self.pos@.len()
    }

    /// The fan-out of the heap.
    pub closed spec fn fan_out(&self) -> nat {
        self.degree as nat
    }

    pub closed spec fn wf(&self) -> bool {
        &&& self.degree >= 2
        &&& self.vals@.len() == self.pos@.len()
        &&& self.heap@.len() <= self.pos@.len()
        &&& indexed(self.heap@, self.pos@)
        &&& ordered(self.heap@, self.vals@, self.degree as int)
    }

    proof fn lemma_view_keys(&self)
        requires
            self.vals@.len() == self.pos@.len(),
            indexed(self.heap@, self.pos@),
        ensures
            forall|k: usize| #[trigger] self@.contains_key(k) <==> self.holds(k),
            forall|k: usize| #[trigger] self@.contains_key(k) ==> self@[k] == self.vals@[k as int],
            self@.dom().finite(),
            self@.len() == self.heap@.len(),
    {
        let keys = Set::new(|k: usize| self.holds(k));
        let slots = Set::new(|p: int| 0 <= p < self.heap@.len());
        assert(self@.dom() =~= keys);
        let f = |p: int| self.heap@[p];
        assert forall|a: int, b: int|
            slots.contains(a) && slots.contains(b) && #[trigger] f(a) == #[trigger] f(b) implies a
            == b by {
            assert(self.pos@[self.heap@[a] as int] == a);
            assert(self.pos@[self.heap@[b] as int] == b);
        }
        assert(keys =~= slots.map(f)) by {
            assert forall|k: usize| keys.contains(k) implies slots.map(f).contains(k) by {
                assert(slots.contains(self.pos@[k as int] as int));
                assert(f(self.pos@[k as int] as int) == k);
            }
            assert forall|k: usize| slots.map(f).contains(k) implies keys.contains(k) by {
                let p = choose|p: int| slots.contains(p) && f(p) == k;
                assert(self.pos@[self.heap@[p] as int] == p);
            }
        }
        vstd::set_lib::lemma_int_range(0, self.heap@.len() as int);
        assert(slots =~= vstd::set_lib::set_int_range(0, self.heap@.len() as int));
        vstd::set_lib::lemma_map_size(slots, keys, f);
    }

    pub proof fn lemma_view_finite(&self)
        requires
            self.wf(),
        ensures
            self@.dom().finite(),
    {
        self.lemma_view_keys();
    }

    /// An empty queue for the keys `0..capacity`, with the given fan-out.
    pub fn new(capacity: usize, degree: usize) -> (r: IndexedMinPQ)
        requires
            degree >= 2,
        ensures
            r.wf(),
            r@ == Map::<usize, usize>::empty(),
            r.capacity() == capacity,
            r.fan_out() == degree,
    {
        let mut pos: Vec<usize> = Vec::new();
        let mut vals: Vec<usize> = Vec::new();
        let mut k: usize = 0;
        while k < capacity
            invariant
                k <= capacity,
                pos@.len() == k,
                vals@.len() == k,
            decreases capacity - k,
        {
            pos.push(0);
            vals.push(0);
            k = k + 1;
        }
        let r = IndexedMinPQ { degree, heap: Vec::new(), pos, vals };
        assert(r@ =~= Map::<usize, usize>::empty());
        r
    }

    /// Number of queued keys.
    pub fn len(&self) -> (r: usize)
        requires
            self.wf(),
        ensures
            r == self@.len(),
    {
        proof {
            self.lemma_view_keys();
        }
        self.heap.len()
    }

    pub fn is_empty(&self) -> (r: bool)
        requires
            self.wf(),
        ensures
            r == (self@.len() == 0),
    {
        proof {
            self.lemma_view_keys();
        }
        self.heap.len() == 0
    }

    /// Whether `key` is queued.
    pub fn contains(&self, key: usize) -> (r: bool)
        requires
            self.wf(),
        ensures
            r == self@.contains_key(key),
    {
        proof {
            self.lemma_view_keys();
        }
        key < self.pos.len() && self.pos[key] < self.heap.len() && self.heap[self.pos[key]] == key
    }

    /// The value of `key`, if it is queued.
    pub fn priority(&self, key: usize) -> (r: Option<usize>)
        requires
            self.wf(),
        ensures
            r == (if self@.contains_key(key) {
                Some(self@[key])
            } else {
                None
            }),
    {
        proof {
            self.lemma_view_keys();
        }
        if self.contains(key) {
            Some(self.vals[key])
        } else {
            None
        }
    }

    fn swap_slots(&mut self, a: usize, b: usize)
        requires
            a < old(self).heap@.len(),
            b < old(self).heap@.len(),
            a != b,
            old(self).vals@.len() == old(self).pos@.len(),
            indexed(old(self).heap@, old(self).pos@),
        ensures
            final(self).heap@ == old(self).heap@.update(a as int, old(self).heap@[b as int]).update(
                b as int,
                old(self).heap@[a as int],
            ),
            final(self).vals@ == old(self).vals@,
            final(self).degree == old(self).degree,
            final(self).pos@.len() == old(self).pos@.len(),
            indexed(final(self).heap@, final(self).pos@),
            final(self)@ == old(self)@,
    {
        let ka = self.heap[a];
        let kb = self.heap[b];
        self.heap[a] = kb;
        self.heap[b] = ka;
        self.pos[ka] = b;
        self.pos[kb] = a;
        proof {
            old(self).lemma_view_keys();
            self.lemma_view_keys();
            assert forall|k: usize| #[trigger] self.holds(k) == old(self).holds(k) by {
                if k != ka && k != kb && k < self.pos@.len() && self.pos@[k as int]
                    < self.heap@.len() {
                    let p = self.pos@[k as int] as int;
                    if p == a as int || p == b as int {
                        assert(old(self).pos@[old(self).heap@[p] as int] == p);
                    }
                }
            }
            assert(self@ =~= old(self)@);
        }
    }

    /// Moves the key at slot `i` up until the heap order holds.
    fn swim(&mut self, i: usize)
        requires
            i < old(self).heap@.len(),
            old(self).degree >= 2,
            old(self).vals@.len() == old(self).pos@.len(),
            old(self).heap@.len() <= old(self).pos@.len(),
            indexed(old(self).heap@, old(self).pos@),
            ordered_except_up(old(self).heap@, old(self).vals@, old(self).degree as int, i as int),
        ensures
            final(self).wf(),
            final(self)@ == old(self)@,
            final(self).vals@ == old(self).vals@,
            final(self).degree == old(self).degree,
            final(self).pos@.len() == old(self).pos@.len(),
    {
        let d = self.degree;
        let mut i = i;
        while i > 0
            invariant
                i < self.heap@.len(),
                self.degree == d,
                d >= 2,
                self.vals@ == old(self).vals@,
                self.vals@.len() == self.pos@.len(),
                self.pos@.len() == old(self).pos@.len(),
                self.heap@.len() == old(self).heap@.len(),
                self.heap@.len() <= self.pos@.len(),
                indexed(self.heap@, self.pos@),
                ordered_except_up(self.heap@, self.vals@, d as int, i as int),
                self@ == old(self)@,
            ensures
                ordered(self.heap@, self.vals@, d as int),
            decreases i,
        {
            let p = (i - 1) / d;
            proof {
                lemma_parent_below(i as int, d as int);
            }
            let ki = self.heap[i];
            let kp = self.heap[p];
            if self.vals[ki] < self.vals[kp] || (self.vals[ki] == self.vals[kp] && ki < kp) {
                let ghost h = self.heap@;
                let ghost vals = self.vals@;
                self.swap_slots(i, p);
                proof {
                    let h2 = self.heap@;
                    lemma_all_below_parent(h.len() as int, d as int);
                    assert forall|q: int| 0 < q < h2.len() && q != p implies key_le(
                        vals,
                        h2[parent(q, d as int)],
                        #[trigger] h2[q],
                    ) by {
                        if q != i as int && parent(q, d as int) == i as int {
                            assert(key_le(vals, h[parent(i as int, d as int)], h[q]));
                        } else if q != i as int && parent(q, d as int) == p as int {
                            assert(key_le(vals, h[parent(q, d as int)], h[q]));
                        }
                    }
                    if p > 0 {
                        assert forall|c: int|
                            0 < c < h2.len() && #[trigger] parent(c, d as int) == p implies key_le(
                            vals,
                            h2[parent(p as int, d as int)],
                            h2[c],
                        ) by {
                            let pp = parent(p as int, d as int);
                            assert(key_le(vals, h[pp], h[p as int]));
                            if c != i as int {
                                assert(key_le(vals, h[p as int], h[c]));
                            }
                        }
                    }
                }
                i = p;
            } else {
                proof {
                    assert(self.pos@[self.heap@[p as int] as int] == p);
                    assert(key_le(self.vals@, kp, ki));
                }
                break;
            }
        }
    }

    /// Moves the key at slot `i` down until the heap order holds.
    fn sink(&mut self, i: usize)
        requires
            i < old(self).heap@.len(),
            old(self).degree >= 2,
            old(self).vals@.len() == old(self).pos@.len(),
            old(self).heap@.len() <= old(self).pos@.len(),
            indexed(old(self).heap@, old(self).pos@),
            ordered_except_down(old(self).heap@, old(self).vals@, old(self).degree as int, i as int),
        ensures
            final(self).wf(),
            final(self)@ == old(self)@,
            final(self).vals@ == old(self).vals@,
            final(self).degree == old(self).degree,
            final(self).pos@.len() == old(self).pos@.len(),
    {
        let d = self.degree;
        let n = self.heap.len();
        let mut i = i;
        loop
            invariant
                i < n,
                n == self.heap@.len(),
                self.degree == d,
                d >= 2,
                self.vals@ == old(self).vals@,
                self.vals@.len() == self.pos@.len(),
                self.pos@.len() == old(self).pos@.len(),
                self.heap@.len() == old(self).heap@.len(),
                self.heap@.len() <= self.pos@.len(),
                indexed(self.heap@, self.pos@),
                ordered_except_down(self.heap@, self.vals@, d as int, i as int),
                self@ == old(self)@,
            ensures
                ordered(self.heap@, self.vals@, d as int),
            decreases n - i,
        {
            proof {
                lemma_all_below_parent(n as int, d as int);
            }
            if n < 2 || i > (n - 2) / d {
                proof {
                    assert forall|c: int| 0 < c < n implies parent(c, d as int) != i by {
                        if n >= 2 {
                            lemma_children(c, d as int, i as int);
                            lemma_first_child(n as int, d as int, i as int);
                        }
                    }
                }
                break;
            }
            proof {
                lemma_first_child(n as int, d as int, i as int);
            }
            let base = d * i;
            let last = if n - 1 - base <= d {
                n - 1
            } else {
                base + d
            };
            let mut m = base + 1;
            let mut c = base + 2;
            while c <= last
                invariant
                    base + 1 <= m < c,
                    base + 2 <= c <= last + 1,
                    last < n,
                    n == self.heap@.len(),
                    self.vals@.len() == self.pos@.len(),
                    indexed(self.heap@, self.pos@),
                    forall|q: int|
                        base + 1 <= q < c ==> key_le(
                            self.vals@,
                            self.heap@[m as int],
                            #[trigger] self.heap@[q],
                        ),
                decreases last + 1 - c,
            {
                let kc = self.heap[c];
                let km = self.heap[m];
                if self.vals[kc] < self.vals[km] || (self.vals[kc] == self.vals[km] && kc < km) {
                    m = c;
                }
                c = c + 1;
            }
            proof {
                assert forall|q: int| 0 < q < n && parent(q, d as int) == i implies base + 1 <= q
                    <= last by {
                    lemma_children(q, d as int, i as int);
                }
                assert forall|q: int| base + 1 <= q <= last implies parent(q, d as int) == i by {
                    lemma_children(q, d as int, i as int);
                }
            }
            let ki = self.heap[i];
            let km = self.heap[m];
            if self.vals[km] < self.vals[ki] || (self.vals[km] == self.vals[ki] && km < ki) {
                let ghost h = self.heap@;
                let ghost vals = self.vals@;
                assert(parent(m as int, d as int) == i);
                self.swap_slots(i, m);
                proof {
                    let h2 = self.heap@;
                    assert forall|q: int|
                        0 < q < h2.len() && parent(q, d as int) != m implies key_le(
                        vals,
                        h2[parent(q, d as int)],
                        #[trigger] h2[q],
                    ) by {
                        if q == m as int {
                        } else if parent(q, d as int) == i {
                            assert(key_le(vals, h[m as int], h[q]));
                        } else if q == i as int {
                            assert(key_le(vals, h[parent(i as int, d as int)], h[m as int]));
                        }
                    }
                    assert forall|q: int|
                        0 < q < h2.len() && #[trigger] parent(q, d as int) == m implies key_le(
                        vals,
                        h2[parent(m as int, d as int)],
                        h2[q],
                    ) by {
                        assert(key_le(vals, h[m as int], h[q]));
                    }
                }
                i = m;
            } else {
                proof {
                    assert forall|q: int| 0 < q < n && parent(q, d as int) == i implies key_le(
                        self.vals@,
                        self.heap@[i as int],
                        #[trigger] self.heap@[q],
                    ) by {
                        assert(key_le(self.vals@, self.heap@[m as int], self.heap@[q]));
                    }
                    assert(self.pos@[self.heap@[m as int] as int] == m);
                    assert(key_le(self.vals@, ki, km));
                }
                break;
            }
        }
    }

    /// Queues `key` with `value`; refused with `DuplicateKey` where `key` is queued.
    pub fn insert(&mut self, key: usize, value: usize) -> (r: Result<(), PqError>)
        requires
            old(self).wf(),
            key < old(self).capacity(),
        ensures
            final(self).wf(),
            final(self).capacity() == old(self).capacity(),
            final(self).fan_out() == old(self).fan_out(),
            old(self)@.contains_key(key) ==> r == Err::<(), PqError>(PqError::DuplicateKey)
                && final(self)@ == old(self)@,
            !old(self)@.contains_key(key) ==> r == Ok::<(), PqError>(()) && final(self)@ == old(
                self,
            )@.insert(key, value),
    {
        if self.contains(key) {
            return Err(PqError::DuplicateKey);
        }
        proof {
            self.lemma_view_keys();
        }
        let ghost before = *self;
        proof {
            let full = Set::<usize>::range(0, self.pos.len());
            vstd::set_lib::range_set_properties(0usize, self.pos.len());
            assert forall|k: usize| #[trigger] self@.dom().insert(key).contains(k) implies full.contains(k) by {
                if k != key {
                    assert(self.holds(k));
                }
            }
            vstd::set_lib::lemma_len_subset(self@.dom().insert(key), full);
        }
        let n = self.heap.len();
        self.heap.push(key);
        self.pos[key] = n;
        self.vals[key] = value;
        proof {
            let d = self.degree as int;
            lemma_all_below_parent(self.heap@.len() as int, d);
            assert forall|p: int| 0 <= p < n implies self.heap@[p] != key by {
                assert(before.pos@[before.heap@[p] as int] == p);
            }
            assert(indexed(self.heap@, self.pos@));
            assert forall|q: int| 0 < q < self.heap@.len() && q != n implies key_le(
                self.vals@,
                self.heap@[parent(q, d)],
                #[trigger] self.heap@[q],
            ) by {
                assert(key_le(before.vals@, before.heap@[parent(q, d)], before.heap@[q]));
            }
            assert(ordered_except_up(self.heap@, self.vals@, d, n as int));
            assert forall|k: usize| #[trigger] self.holds(k) == (before.holds(k) || k == key) by {
                if k != key && k < self.pos@.len() && self.pos@[k as int] < self.heap@.len() {
                    if self.pos@[k as int] == n {
                    }
                }
            }
            assert(self@ =~= before@.insert(key, value));
        }
        self.swim(n);
        Ok(())
    }

    /// Lowers the value of `key` to `value`. A value that is not lower leaves the queue
    /// as it is; a key that is not queued is refused with `UnknownKey`.
    pub fn decrease_key(&mut self, key: usize, value: usize) -> (r: Result<(), PqError>)
        requires
            old(self).wf(),
        ensures
            final(self).wf(),
            final(self).capacity() == old(self).capacity(),
            final(self).fan_out() == old(self).fan_out(),
            !old(self)@.contains_key(key) ==> r == Err::<(), PqError>(PqError::UnknownKey)
                && final(self)@ == old(self)@,
            old(self)@.contains_key(key) ==> r == Ok::<(), PqError>(()) && final(self)@ == (if value
                < old(self)@[key] {
                old(self)@.insert(key, value)
            } else {
                old(self)@
            }),
    {
        if !self.contains(key) {
            return Err(PqError::UnknownKey);
        }
        proof {
            self.lemma_view_keys();
        }
        if value >= self.vals[key] {
            return Ok(());
        }
        let ghost before = *self;
        let i = self.pos[key];
        self.vals[key] = value;
        proof {
            let d = self.degree as int;
            let h = self.heap@;
            lemma_all_below_parent(h.len() as int, d);
            assert forall|p: int| 0 <= p < h.len() && p != i implies h[p] != key by {
                assert(before.pos@[before.heap@[p] as int] == p);
            }
            assert forall|q: int| 0 < q < h.len() && q != i implies key_le(
                self.vals@,
                h[parent(q, d)],
                #[trigger] h[q],
            ) by {
                assert(key_le(before.vals@, h[parent(q, d)], h[q]));
            }
            if i > 0 {
                assert forall|c: int| 0 < c < h.len() && #[trigger] parent(c, d) == i implies key_le(
                    self.vals@,
                    h[parent(i as int, d)],
                    h[c],
                ) by {
                    assert(key_le(before.vals@, h[parent(i as int, d)], h[i as int]));
                    assert(key_le(before.vals@, h[i as int], h[c]));
                }
            }
            assert(self@ =~= before@.insert(key, value));
        }
        self.swim(i);
        Ok(())
    }

    /// Removes and returns the first entry: the least value, the lowest key on a tie.
    /// Refused with `Empty` on an empty queue.
    pub fn extract_min(&mut self) -> (r: Result<(usize, usize), PqError>)
        requires
            old(self).wf(),
        ensures
            final(self).wf(),
            final(self).capacity() == old(self).capacity(),
            final(self).fan_out() == old(self).fan_out(),
            old(self)@.len() == 0 ==> r == Err::<(usize, usize), PqError>(PqError::Empty)
                && final(self)@ == old(self)@,
            old(self)@.len() > 0 ==> exists|k: usize|
                #![trigger is_min_entry(old(self)@, k)]
                is_min_entry(old(self)@, k) && r == Ok::<(usize, usize), PqError>((k, old(self)@[k]))
                    && final(self)@ == old(self)@.remove(k),
    {
        proof {
            self.lemma_view_keys();
        }
        if self.heap.len() == 0 {
            return Err(PqError::Empty);
        }
        let ghost before = *self;
        let d = self.degree;
        let k0 = self.heap[0];
        let v0 = self.vals[k0];
        proof {
            assert forall|j: usize| #[trigger] before@.contains_key(j) implies entry_le(
                before@[k0],
                k0,
                before@[j],
                j,
            ) by {
                lemma_root_first(before.heap@, before.vals@, d as int, before.pos@[j as int] as int);
            }
            assert(is_min_entry(before@, k0));
        }
        let last = self.heap.pop().unwrap();
        let n = self.heap.len();
        if n > 0 {
            self.heap[0] = last;
            self.pos[last] = 0;
        }
        proof {
            let h = self.heap@;
            lemma_all_below_parent(h.len() as int, d as int);
            assert(before.pos@[before.heap@[n as int] as int] == n);
            assert(indexed(h, self.pos@)) by {
                assert forall|p: int| 0 <= p < h.len() implies (#[trigger] h[p]) < self.pos@.len()
                    && self.pos@[h[p] as int] == p by {
                    if p > 0 {
                        assert(before.pos@[before.heap@[p] as int] == p);
                    }
                }
            }
            assert forall|q: int| 0 < q < h.len() && parent(q, d as int) != 0 implies key_le(
                self.vals@,
                h[parent(q, d as int)],
                #[trigger] h[q],
            ) by {
                assert(key_le(self.vals@, before.heap@[parent(q, d as int)], before.heap@[q]));
            }
            assert forall|k: usize| #[trigger] self.holds(k) == (before.holds(k) && k != k0) by {
                if k < self.pos@.len() {
                    if before.holds(k) && k != k0 {
                        assert(before.pos@[before.heap@[0] as int] == 0);
                    }
                    if self.holds(k) && self.pos@[k as int] > 0 {
                        assert(before.heap@[self.pos@[k as int] as int] == k);
                    }
                    if k == k0 && n > 0 {
                        assert(before.pos@[before.heap@[0] as int] == 0);
                    }
                }
            }
            assert(self@ =~= before@.remove(k0));
        }
        if n > 0 {
            self.sink(0);
        }
        Ok((k0, v0))
    }
}

/// Entries leave the queue in order: after the first entry of `m` is taken out, the
/// first entry of what is left has no smaller value.
pub proof fn lemma_extraction_order(m: Map<usize, usize>, k1: usize, k2: usize)
    requires
        is_min_entry(m, k1),
        is_min_entry(m.remove(k1), k2),
    ensures
        m[k1] <= m.remove(k1)[k2],
        entry_le(m[k1], k1, m[k2], k2),
{
    assert(m.contains_key(k2));
}

/// After `decrease_key`, the value held for the key is the one given last, wherever it
/// lowered the value.
pub proof fn lemma_decrease_holds_latest(m: Map<usize, usize>, k: usize, v: usize)
    requires
        m.contains_key(k),
        v < m[k],
    ensures
        m.insert(k, v)[k] == v,
        m.insert(k, v).dom() == m.dom(),
{
    assert(m.insert(k, v).dom() =~= m.dom());
}

} // verus!
