//! A hierarchical timer.
//!
//! Sleepers wait in one of `N` queues.  A sleeper due at tick `t` while the
//! clock reads `c` waits in queue `min(h, N - 1)`, where `h` is the highest
//! bit in which `c` and `t` differ.  When the clock advances from `c` to
//! `c + 1`, only the queue of the highest bit that changes can hold sleepers
//! that are due or that must move: each of them is either woken (it is due)
//! or moved to the queue its new highest differing bit names.
use vstd::prelude::*;
use vstd::std_specs::bits::{axiom_u64_leading_zeros, u64_leading_zeros};

use crate::interrupt::CriticalSection;
use crate::list::{List, Ref};

verus! {

/// The highest set bit of a non-zero `v`.
pub open spec fn msb(v: u64) -> int {
    63 - u64_leading_zeros(v)
}

/// The highest bit in which two different clock readings differ.
pub open spec fn level(x: usize, y: usize) -> int {
    msb((x as u64) ^ (y as u64))
}

/// The queue for a given highest differing bit, with `n` queues.
pub open spec fn clip(l: int, n: usize) -> int {
    if l < n - 1 {
        l
    } else {
        n - 1
    }
}

/// A sleeper due at `t` is in the right queue `q` when the clock reads
/// `ticks`.
pub open spec fn placed(ticks: usize, t: usize, q: int, n: usize) -> bool {
    ticks < t && clip(level(ticks, t), n) == q
}

proof fn lemma_shr_is_one(v: u64, k: u64)
    by (bit_vector)
    requires
        k < 64,
        (v >> k) & 1u64 != 0u64,
        k == 63 || (v >> k) >> 1u64 == 0,
    ensures
        v >> k == 1u64,
{
}

proof fn lemma_shr_unique(v: u64, a: u64, b: u64)
    by (bit_vector)
    requires
        a < 64,
        b < 64,
        v >> a == 1u64,
        v >> b == 1u64,
    ensures
        a == b,
{
}

proof fn lemma_shr_shr(v: u64, k: u64, j: u64)
    by (bit_vector)
    requires
        k < 63,
        j == k + 1,
    ensures
        (v >> k) >> 1u64 == v >> j,
{
}

/// The highest set bit of `v` is the one shift that leaves exactly `1`.
proof fn lemma_msb(v: u64)
    requires
        v != 0,
    ensures
        0 <= msb(v) < 64,
        v >> (msb(v) as u64) == 1u64,
{
    axiom_u64_leading_zeros(v);
    let lz = u64_leading_zeros(v);
    let k = (63 - lz) as u64;
    assert(0 <= lz < 64);
    if k < 63 {
        assert(v >> ((64 - lz) as u64) == 0);
        lemma_shr_shr(v, k, (k + 1) as u64);
    }
    lemma_shr_is_one(v, k);
}

proof fn lemma_xor_nonzero(x: u64, y: u64)
    by (bit_vector)
    requires
        x != y,
    ensures
        x ^ y != 0,
        x ^ y == y ^ x,
{
}

/// Clock readings that differ have a highest differing bit, and it does not
/// depend on their order.
pub proof fn lemma_level(x: usize, y: usize)
    requires
        x != y,
    ensures
        0 <= level(x, y) < 64,
        ((x as u64) ^ (y as u64)) >> (level(x, y) as u64) == 1u64,
        level(x, y) == level(y, x),
{
    lemma_xor_nonzero(x as u64, y as u64);
    lemma_msb((x as u64) ^ (y as u64));
}

/// Characterises `level(x, y)` by its bit.
pub proof fn lemma_level_is(x: usize, y: usize, l: u64)
    requires
        x != y,
        l < 64,
        ((x as u64) ^ (y as u64)) >> l == 1u64,
    ensures
        level(x, y) == l,
{
    lemma_level(x, y);
    lemma_shr_unique((x as u64) ^ (y as u64), l, level(x, y) as u64);
}

proof fn lemma_tick_bits(o: u64, n: u64, t: u64, l: u64, q: u64)
    by (bit_vector)
    requires
        o < t,
        n == o + 1,
        l < 64,
        q < 64,
        (o ^ t) >> l == 1u64,
        (o ^ n) >> q == 1u64,
    ensures
        l >= q,
        l > q ==> (n ^ t) >> l == 1u64,
{
}

/// When the clock goes from `o` to `o + 1`, a sleeper due later than `o`
/// differs from `o` at least as high as `o + 1` does; when it differs higher
/// up, it differs from `o + 1` in that same bit.
pub proof fn lemma_tick_level(o: usize, t: usize)
    requires
        o < t,
    ensures
        level(o, t) >= level(o, (o + 1) as usize),
        level(o, t) > level(o, (o + 1) as usize) ==> level((o + 1) as usize, t) == level(o, t),
        t != o + 1 ==> o + 1 < t,
{
    let n = (o + 1) as usize;
    lemma_level(o, t);
    lemma_level(o, n);
    assert((n as u64) == (o as u64) + 1);
    lemma_tick_bits(o as u64, n as u64, t as u64, level(o, t) as u64, level(o, n) as u64);
    if level(o, t) > level(o, n) {
        assert(n != t) by {
            if n == t {
                lemma_shr_unique((o as u64) ^ (t as u64), level(o, t) as u64, level(o, n) as u64);
            }
        }
        lemma_level_is(n, t, level(o, t) as u64);
    }
}

/// A sleeper placed right for clock `o` in a queue other than the one the
/// step to `o + 1` empties is placed right for `o + 1` as well.
pub proof fn lemma_still_placed(o: usize, t: usize, q: int, qp: int, n: usize)
    requires
        n > 0,
        o < usize::MAX,
        placed(o, t, q, n),
        qp == clip(level(o, (o + 1) as usize), n),
        q != qp,
    ensures
        placed((o + 1) as usize, t, q, n),
{
    lemma_tick_level(o, t);
    if t == o + 1 {
        assert(level(o, t) == level(o, (o + 1) as usize));
    }
}

/// One who waits for the clock: the tick it is due at.
pub struct TWaitBlk {
    pub timeout: usize,
}

pub struct Timer<const N: usize> {
    timers: Vec<List<TWaitBlk>>,
    len: Vec<usize>,
    ticks: usize,
    pending: Ghost<Map<usize, usize>>,
}

impl<const N: usize> Timer<N> {
    /// The clock: ticks counted so far.
    pub closed spec fn ticks(&self) -> usize {
        self.ticks
    }

    /// The sleepers: the tick each one waits for, by identity.
    pub closed spec fn pending(&self) -> Map<usize, usize> {
        self.pending@
    }

    /// Whether [`Timer::init`] has been run.
    pub closed spec fn is_init(&self) -> bool {
        forall|q: int| 0 <= q < N ==> #[trigger] self.timers@[q].is_init()
    }

    /// The identities of the sleepers waiting in queue `q`, in order.
    pub closed spec fn queue(&self, q: int) -> Seq<usize> {
        self.timers@[q].ids()
    }

    /// The length kept beside queue `q`.
    pub closed spec fn queue_len(&self, q: int) -> usize {
        self.len@[q]
    }

    /// The timer has its `N` queues and their lengths.
    pub closed spec fn sized(&self) -> bool {
        self.timers@.len() == N && self.len@.len() == N
    }

    spec fn holds(&self, q: int, id: usize) -> bool {
        self.timers@[q].ids().contains(id)
    }

    /// The `k`-th sleeper of queue `q` is known, and waits in the right
    /// queue for the clock reading `c`.
    spec fn entry_ok(&self, q: int, k: int, c: usize) -> bool {
        let id = self.timers@[q].ids()[k];
        &&& self.pending@.contains_key(id)
        &&& self.pending@[id] == self.timers@[q].payload(id).timeout
        &&& placed(c, self.pending@[id], q, N)
    }

    spec fn shape(&self) -> bool {
        &&& N > 0
        &&& self.timers@.len() == N
        &&& self.len@.len() == N
        &&& forall|q: int| 0 <= q < N ==> (#[trigger] self.timers@[q]).wf()
        &&& forall|q1: int, q2: int, id: usize|
            0 <= q1 < N && 0 <= q2 < N && #[trigger] self.holds(q1, id) && #[trigger] self.holds(q2, id) ==> q1 == q2
        &&& forall|id: usize| #[trigger] self.pending@.contains_key(id) ==> exists|q: int| 0 <= q < N && self.holds(q, id)
    }

    /// Every sleeper waits in exactly one queue, the one its due tick and
    /// the clock name, and each queue's length is kept beside it.
    pub closed spec fn wf(&self) -> bool {
        &&& self.shape()
        &&& forall|q: int| 0 <= q < N ==> self.len@[q] == (#[trigger] self.timers@[q]).ids().len()
        &&& forall|q: int, k: int|
            0 <= q < N && 0 <= k < self.timers@[q].ids().len() ==> #[trigger] self.entry_ok(q, k, self.ticks)
    }

    /// What the queues hold: each sleeper waits in exactly one queue, the one
    /// named by the highest bit in which its due tick differs from the clock
    /// (at most `N - 1`), and each queue's length is kept beside it.
    pub proof fn lemma_queues(&self)
        requires
            self.wf(),
        ensures
            N > 0,
            self.sized(),
            forall|q: int| 0 <= q < N ==> (#[trigger] self.queue_len(q)) == self.queue(q).len(),
            forall|q: int| 0 <= q < N ==> (#[trigger] self.queue(q)).no_duplicates(),
            forall|q: int, k: int|
                0 <= q < N && 0 <= k < self.queue(q).len() ==> self.pending().contains_key(#[trigger] self.queue(q)[k])
                    && placed(self.ticks(), self.pending()[self.queue(q)[k]], q, N),
            forall|id: usize| #[trigger] self.pending().contains_key(id) ==> exists|q: int| 0 <= q < N && self.queue(q).contains(id),
            forall|q1: int, q2: int, id: usize|
                0 <= q1 < N && 0 <= q2 < N && #[trigger] self.queue(q1).contains(id) && #[trigger] self.queue(q2).contains(id) ==> q1 == q2,
    {
        assert forall|q: int| 0 <= q < N implies (#[trigger] self.queue(q)).no_duplicates() by {
            self.timers@[q].lemma_ids_distinct();
        }
        assert forall|q: int, k: int|
            0 <= q < N && 0 <= k < self.queue(q).len() implies self.pending().contains_key(#[trigger] self.queue(q)[k])
                && placed(self.ticks(), self.pending()[self.queue(q)[k]], q, N) by {
            assert(self.entry_ok(q, k, self.ticks));
        }
        assert forall|id: usize| #[trigger] self.pending().contains_key(id) implies exists|q: int| 0 <= q < N && self.queue(q).contains(id) by {
            let q = choose|q: int| 0 <= q < N && self.holds(q, id);
            assert(self.queue(q).contains(id));
        }
        assert forall|q1: int, q2: int, id: usize|
            0 <= q1 < N && 0 <= q2 < N && #[trigger] self.queue(q1).contains(id) && #[trigger] self.queue(q2).contains(id) implies q1 == q2 by {
            assert(self.holds(q1, id) && self.holds(q2, id));
        }
    }

    /// A timer reading zero with nobody asleep, still to be initialised.
    pub fn new() -> (t: Self)
        ensures
            t.sized(),
            forall|q: int| 0 <= q < N ==> (#[trigger] t.queue(q)) == Seq::<usize>::empty() && t.queue_len(q) == 0,
            N > 0 ==> t.wf(),
            N > 0 ==> !t.is_init(),
            t.ticks() == 0,
            t.pending() == Map::<usize, usize>::empty(),
    {
        let mut timers: Vec<List<TWaitBlk>> = Vec::new();
        let mut len: Vec<usize> = Vec::new();
        let mut i: usize = 0;
        while i < N
            invariant
                i <= N,
                timers@.len() == i,
                len@.len() == i,
                forall|q: int| 0 <= q < i ==> (#[trigger] timers@[q]).wf() && !timers@[q].is_init() && timers@[q].ids().len() == 0,
                forall|q: int| 0 <= q < i ==> #[trigger] len@[q] == 0,
            decreases N - i,
        {
            timers.push(List::new());
            len.push(0);
            i = i + 1;
        }
        let t = Timer { timers, len, ticks: 0, pending: Ghost(Map::empty()) };
        proof {
            if N > 0 {
                assert(!t.timers@[0].is_init());
            }
        }
        t
    }

    /// Makes every queue ready for use.  Nobody may be asleep: the queue
    /// lengths are left as they are.
    pub fn init(&mut self)
        requires
            old(self).sized(),
            N > 0 ==> old(self).wf(),
            old(self).pending() == Map::<usize, usize>::empty(),
        ensures
            final(self).sized(),
            N > 0 ==> final(self).wf(),
            final(self).is_init(),
            final(self).ticks() == old(self).ticks(),
            final(self).pending() == Map::<usize, usize>::empty(),
            forall|q: int| 0 <= q < N ==> (#[trigger] final(self).queue_len(q)) == old(self).queue_len(q),
            forall|q: int| 0 <= q < N ==> (#[trigger] final(self).queue(q)) == Seq::<usize>::empty(),
    {
        let mut i: usize = 0;
        proof {
            assert forall|q: int| 0 <= q < N implies (#[trigger] self.timers@[q]).ids().len() == 0 && self.len@[q] == 0 by {
                if self.timers@[q].ids().len() > 0 {
                    assert(self.entry_ok(q, 0, self.ticks));
                }
            }
            assert forall|q: int| 0 <= q < N implies #[trigger] self.len@[q] == 0 by {
                assert(self.timers@[q].ids().len() == 0);
            }
        }
        while i < N
            invariant
                0 <= i <= N,
                self.timers@.len() == N,
                self.len@.len() == N,
                self.ticks == old(self).ticks,
                self.pending@ == Map::<usize, usize>::empty(),
                forall|q: int| 0 <= q < i ==> (#[trigger] self.timers@[q]).wf() && self.timers@[q].is_init() && self.timers@[q].ids().len() == 0,
                forall|q: int| i <= q < N ==> (#[trigger] self.timers@[q]).wf(),
                self.len == old(self).len,
                forall|q: int| 0 <= q < N ==> #[trigger] self.len@[q] == 0,
            decreases N - i,
        {
            self.timers[i].init();
            i = i + 1;
        }
        proof {
            assert forall|q1: int, q2: int, id: usize|
                0 <= q1 < N && 0 <= q2 < N && #[trigger] self.holds(q1, id) && #[trigger] self.holds(q2, id) implies q1 == q2 by {
                assert(self.timers@[q1].ids().len() == 0);
            }
        }
    }

    /// The queue for the sleeper due at `y` while the clock reads `x`: the
    /// highest bit in which they differ, at most `N - 1`.
    pub fn diff_msb(x: usize, y: usize) -> (q: usize)
        requires
            x != y,
            N > 0,
        ensures
            q == clip(level(x, y), N),
            q < N,
    {
        proof {
            lemma_level(x, y);
        }
        let xor = (x as u64) ^ (y as u64);
        let lz = xor.leading_zeros();
        let msb = (63 - lz) as usize;
        if msb < N - 1 {
            msb
        } else {
            N - 1
        }
    }

    /// The clock reading.
    pub fn now(&self) -> (t: usize)
        ensures
            t == self.ticks(),
    {
        self.ticks
    }

    /// Whether the sleeper `id` is asleep.
    pub fn is_asleep(&self, id: usize) -> (r: bool)
        requires
            self.wf(),
        ensures
            r == self.pending().contains_key(id),
    {
        let mut q: usize = 0;
        while q < N
            invariant
                self.wf(),
                q <= N,
                forall|p: int| 0 <= p < q ==> !#[trigger] self.holds(p, id),
            decreases N - q,
        {
            if self.timers[q].contains(id) {
                proof {
                    let k = choose|k: int| 0 <= k < self.timers@[q as int].ids().len() && self.timers@[q as int].ids()[k] == id;
                    assert(self.entry_ok(q as int, k, self.ticks));
                }
                return true;
            }
            q = q + 1;
        }
        proof {
            if self.pending@.contains_key(id) {
                let p = choose|p: int| 0 <= p < N && self.holds(p, id);
                assert(!self.holds(p, id));
            }
        }
        false
    }

    /// Puts the sleeper `subs` to sleep for `delay` ticks.
    pub fn subscribe(&mut self, delay: usize, subs: Ref<TWaitBlk>)
        requires
            old(self).wf(),
            old(self).is_init(),
            0 < delay,
            old(self).ticks() + delay <= usize::MAX,
            !old(self).pending().contains_key(subs.id),
            subs.id < usize::MAX,
        ensures
            final(self).wf(),
            final(self).is_init(),
            final(self).ticks() == old(self).ticks(),
            final(self).pending() == old(self).pending().insert(subs.id, (old(self).ticks() + delay) as usize),
            ({
                let q = clip(level(old(self).ticks(), (old(self).ticks() + delay) as usize), N);
                &&& final(self).queue(q) == old(self).queue(q).push(subs.id)
                &&& final(self).queue_len(q) == old(self).queue_len(q) + 1
                &&& forall|p: int| 0 <= p < N && p != q ==> #[trigger] final(self).queue(p) == old(self).queue(p)
                    && final(self).queue_len(p) == old(self).queue_len(p)
            }),
    {
        let lock = CriticalSection::new();
        let ticks = self.ticks;
        let timeout = ticks + delay;
        let q = Self::diff_msb(ticks, timeout);
        let len = self.len[q];
        let mut subs = subs;
        subs.obj.timeout = timeout;
        let ghost id = subs.id;
        let ghost g = *self;
        proof {
            assert(!self.holds(q as int, id)) by {
                if self.holds(q as int, id) {
                    let k = choose|k: int| 0 <= k < self.timers@[q as int].ids().len() && self.timers@[q as int].ids()[k] == id;
                    assert(self.entry_ok(q as int, k, self.ticks));
                }
            }
            self.timers@[q as int].lemma_room(id);
        }
        self.timers[q].enqueue(subs);
        self.len.set(q, len + 1);
        self.pending = Ghost(self.pending@.insert(id, timeout));
        proof {
            assert forall|p: int| 0 <= p < N && p != q implies self.timers@[p] == g.timers@[p] by {}
            assert forall|p: int| 0 <= p < N implies (#[trigger] self.timers@[p]).wf() by {
                if p != q as int {
                    assert(self.timers@[p] == g.timers@[p]);
                }
            }
            assert forall|p: int, i: usize| 0 <= p < N implies #[trigger] self.holds(p, i) == (g.holds(p, i) || (p == q && i == id)) by {
                if p == q as int {
                    let s = g.timers@[p].ids();
                    assert(self.timers@[p].ids() == s.push(id));
                    if s.contains(i) {
                        let k = choose|k: int| 0 <= k < s.len() && s[k] == i;
                        assert(s.push(id)[k] == i);
                    }
                    if i == id {
                        assert(s.push(id)[s.len() as int] == id);
                    }
                    if s.push(id).contains(i) && i != id {
                        let k = choose|k: int| 0 <= k < s.len() + 1 && s.push(id)[k] == i;
                        assert(k < s.len());
                        assert(s[k] == i);
                    }
                }
            }
            assert forall|q1: int, q2: int, i: usize|
                0 <= q1 < N && 0 <= q2 < N && #[trigger] self.holds(q1, i) && #[trigger] self.holds(q2, i) implies q1 == q2 by {
                assert(self.holds(q1, i) == (g.holds(q1, i) || (q1 == q && i == id)));
                assert(self.holds(q2, i) == (g.holds(q2, i) || (q2 == q && i == id)));
                if i == id {
                    if g.holds(q1, i) {
                        let k = choose|k: int| 0 <= k < g.timers@[q1].ids().len() && g.timers@[q1].ids()[k] == i;
                        assert(g.entry_ok(q1, k, g.ticks));
                    }
                    if g.holds(q2, i) {
                        let k = choose|k: int| 0 <= k < g.timers@[q2].ids().len() && g.timers@[q2].ids()[k] == i;
                        assert(g.entry_ok(q2, k, g.ticks));
                    }
                }
            }
            assert forall|i: usize| #[trigger] self.pending@.contains_key(i) implies exists|p: int| 0 <= p < N && self.holds(p, i) by {
                if i == id {
                    assert(self.holds(q as int, i) == (g.holds(q as int, i) || i == id));
                } else {
                    let p = choose|p: int| 0 <= p < N && g.holds(p, i);
                    assert(self.holds(p, i) == (g.holds(p, i) || (p == q && i == id)));
                }
            }
            assert forall|p: int| 0 <= p < N implies self.len@[p] == (#[trigger] self.timers@[p]).ids().len() by {
                if p != q as int {
                    assert(self.timers@[p] == g.timers@[p]);
                }
            }
            assert forall|p: int, k: int|
                0 <= p < N && 0 <= k < self.timers@[p].ids().len() implies #[trigger] self.entry_ok(p, k, self.ticks) by {
                if p != q as int {
                    assert(self.timers@[p] == g.timers@[p]);
                    assert(g.entry_ok(p, k, g.ticks));
                    let i = g.timers@[p].ids()[k];
                    assert(i != id) by {
                        assert(g.holds(p, i)) by {
                            assert(g.timers@[p].ids()[k] == i);
                        }
                    }
                } else {
                    let s = g.timers@[p].ids();
                    assert(self.timers@[p]@ == g.timers@[p]@.push((id, subs.obj)));
                    assert(self.timers@[p].ids() == s.push(id));
                    if k < s.len() {
                        assert(g.entry_ok(p, k, g.ticks));
                        let i = s[k];
                        assert(i != id) by {
                            assert(g.holds(p, i)) by {
                                assert(s[k] == i);
                            }
                        }
                        assert(self.timers@[p]@[k] == g.timers@[p]@[k]);
                    } else {
                        assert(self.timers@[p]@[k] == (id, subs.obj));
                    }
                }
            }
            assert(self.is_init()) by {
                assert forall|p: int| 0 <= p < N implies #[trigger] self.timers@[p].is_init() by {
                    if p != q as int {
                        assert(self.timers@[p] == g.timers@[p]);
                    }
                }
            }
        }
        lock.exit();
    }
}

/// The sleepers of `pending` due at tick `t`.
pub open spec fn due(pending: Map<usize, usize>, t: usize) -> Set<usize> {
    Set::new(|id: usize| pending.contains_key(id) && pending[id] == t)
}

/// Of the sleepers `s` (due as `pending` says) of the queue a tick to `n`
/// empties, those not due at `n` that move to queue `p`, in order.
pub open spec fn moved(s: Seq<usize>, pending: Map<usize, usize>, n: usize, p: int, nq: usize) -> Seq<usize>
    decreases s.len(),
{
    if s.len() == 0 {
        Seq::empty()
    } else {
        let rest = moved(s.drop_last(), pending, n, p, nq);
        let t = pending[s.last()];
        if t != n && clip(level(t, n), nq) == p {
            rest.push(s.last())
        } else {
            rest
        }
    }
}

/// Of the sleepers `s`, those due at `n`, in order.
pub open spec fn due_in(s: Seq<usize>, pending: Map<usize, usize>, n: usize) -> Seq<usize>
    decreases s.len(),
{
    if s.len() == 0 {
        Seq::empty()
    } else {
        let rest = due_in(s.drop_last(), pending, n);
        if pending[s.last()] == n {
            rest.push(s.last())
        } else {
            rest
        }
    }
}

proof fn lemma_walk_step(s: Seq<usize>, pending: Map<usize, usize>, n: usize, nq: usize, i: int)
    requires
        0 <= i < s.len(),
    ensures
        forall|p: int| #[trigger] moved(s.subrange(0, i + 1), pending, n, p, nq) == if pending[s[i]] != n && clip(level(pending[s[i]], n), nq) == p {
            moved(s.subrange(0, i), pending, n, p, nq).push(s[i])
        } else {
            moved(s.subrange(0, i), pending, n, p, nq)
        },
        due_in(s.subrange(0, i + 1), pending, n) == if pending[s[i]] == n {
            due_in(s.subrange(0, i), pending, n).push(s[i])
        } else {
            due_in(s.subrange(0, i), pending, n)
        },
{
    assert(s.subrange(0, i + 1).drop_last() =~= s.subrange(0, i));
    assert(s.subrange(0, i + 1).last() == s[i]);
}

impl<const N: usize> Timer<N> {
    /// Half-way through a tick from `o` to `o + 1`: the first `rem` sleepers
    /// of queue `qp` are still placed for `o`, everybody else for the new
    /// reading.
    spec fn mid_tick(&self, qp: int, rem: int, o: usize) -> bool {
        &&& self.shape()
        &&& 0 <= qp < N
        &&& forall|q: int| 0 <= q < N && q != qp ==> self.len@[q] == (#[trigger] self.timers@[q]).ids().len()
        &&& 0 <= rem <= self.timers@[qp].ids().len()
        &&& self.len@[qp] == self.timers@[qp].ids().len() - rem
        &&& forall|q: int, k: int|
            0 <= q < N && 0 <= k < self.timers@[q].ids().len() && (q != qp || k >= rem) ==> #[trigger] self.entry_ok(
                q,
                k,
                self.ticks,
            )
        &&& forall|k: int| 0 <= k < rem ==> #[trigger] self.entry_ok(qp, k, o)
    }

    /// Takes the next sleeper out of queue `qp` during a tick: it is handed
    /// back when due now, and otherwise moved to the queue it now belongs to.
    fn step(&mut self, qp: usize, Ghost(o): Ghost<usize>, Ghost(rem): Ghost<int>) -> (r: Option<Ref<TWaitBlk>>)
        requires
            old(self).mid_tick(qp as int, rem, o),
            forall|q: int| 0 <= q < N ==> #[trigger] old(self).timers@[q].is_init(),
            0 < rem,
            o < usize::MAX,
            old(self).ticks == o + 1,
            qp == clip(level(o, old(self).ticks), N),
        ensures
            final(self).mid_tick(qp as int, rem - 1, o),
            forall|q: int| 0 <= q < N ==> #[trigger] final(self).timers@[q].is_init(),
            final(self).ticks == old(self).ticks,
            forall|k: int| 1 <= k < rem ==> final(self).timers@[qp as int].ids()[k - 1] == old(self).timers@[qp as int].ids()[k],
            ({
                let id = old(self).timers@[qp as int].ids()[0];
                forall|p: int| 0 <= p < N ==> #[trigger] final(self).timers@[p].ids() == (if p == qp {
                    old(self).timers@[qp as int].ids().drop_first()
                } else {
                    old(self).timers@[p].ids()
                }) + (if r is None && p == clip(level(old(self).pending@[id], old(self).ticks), N) {
                    seq![id]
                } else {
                    Seq::<usize>::empty()
                })
            }),
            ({
                let id = old(self).timers@[qp as int].ids()[0];
                &&& old(self).pending@.contains_key(id)
                &&& match r {
                    Some(w) => {
                        &&& w.id == id
                        &&& w.obj.timeout == old(self).ticks
                        &&& old(self).pending@[id] == old(self).ticks
                        &&& final(self).pending@ == old(self).pending@.remove(id)
                    },
                    None => {
                        &&& old(self).pending@[id] != old(self).ticks
                        &&& final(self).pending@ == old(self).pending@
                    },
                }
            }),
    {
        let ghost g = *self;
        let ghost s = self.timers@[qp as int].ids();
        let ghost id = s[0];
        proof {
            assert(g.entry_ok(qp as int, 0, o));
            g.timers@[qp as int].lemma_ids_distinct();
        }
        let r = self.timers[qp].dequeue();
        let ghost g1 = *self;
        let blk = r.unwrap();
        let tout = blk.obj.timeout;
        proof {
            assert(blk.id == id);
            assert(tout == g.pending@[id]);
            assert forall|p: int| 0 <= p < N && p != qp implies self.timers@[p] == g.timers@[p] by {}
            assert forall|i: usize| #[trigger] g1.holds(qp as int, i) == (g.holds(qp as int, i) && i != id) by {
                let s1 = self.timers@[qp as int].ids();
                assert(s1 == s.drop_first());
                if s1.contains(i) {
                    let k = choose|k: int| 0 <= k < s1.len() && s1[k] == i;
                    assert(s[k + 1] == i);
                    assert(s[0] != s[k + 1]);
                }
                if s.contains(i) && i != id {
                    let k = choose|k: int| 0 <= k < s.len() && s[k] == i;
                    assert(k != 0);
                    assert(s1[k - 1] == i);
                }
            }
        }
        let r = if tout == self.ticks {
            self.pending = Ghost(self.pending@.remove(id));
            proof {
                let n = self.ticks;
                assert forall|q1: int, q2: int, i: usize|
                    0 <= q1 < N && 0 <= q2 < N && #[trigger] self.holds(q1, i) && #[trigger] self.holds(q2, i) implies q1 == q2 by {
                    if q1 != qp {
                        assert(self.timers@[q1] == g.timers@[q1]);
                    }
                    if q2 != qp {
                        assert(self.timers@[q2] == g.timers@[q2]);
                    }
                    assert(g.holds(q1, i));
                    assert(g.holds(q2, i));
                }
                assert forall|i: usize| #[trigger] self.pending@.contains_key(i) implies exists|p: int| 0 <= p < N && self.holds(p, i) by {
                    let p = choose|p: int| 0 <= p < N && g.holds(p, i);
                    if p != qp {
                        assert(self.timers@[p] == g.timers@[p]);
                    } else {
                        assert(g1.holds(qp as int, i) == (g.holds(qp as int, i) && i != id));
                    }
                    assert(self.holds(p, i));
                }
                assert forall|q: int| 0 <= q < N implies (#[trigger] self.timers@[q]).wf() by {
                    if q != qp {
                        assert(self.timers@[q] == g.timers@[q]);
                    }
                }
                assert forall|q: int| 0 <= q < N && q != qp implies self.len@[q] == (#[trigger] self.timers@[q]).ids().len() by {
                    assert(self.timers@[q] == g.timers@[q]);
                }
                assert forall|q: int, k: int|
                    0 <= q < N && 0 <= k < self.timers@[q].ids().len() && (q != qp || k >= rem - 1) implies #[trigger] self.entry_ok(q, k, n) by {
                    if q != qp {
                        assert(self.timers@[q] == g.timers@[q]);
                        assert(g.entry_ok(q, k, n));
                        let i = g.timers@[q].ids()[k];
                        assert(g.holds(q, i));
                        assert(i != id) by {
                            if i == id {
                                assert(g.holds(qp as int, id)) by {
                                    assert(s[0] == id);
                                }
                            }
                        }
                    } else {
                        assert(g.entry_ok(q, k + 1, n));
                        assert(self.timers@[q].ids()[k] == s[k + 1]);
                        assert(self.timers@[q]@[k] == g.timers@[q]@[k + 1]);
                        assert(s[k + 1] != s[0]);
                    }
                }
                assert forall|k: int| 0 <= k < rem - 1 implies #[trigger] self.entry_ok(qp as int, k, o) by {
                    assert(g.entry_ok(qp as int, k + 1, o));
                    assert(self.timers@[qp as int].ids()[k] == s[k + 1]);
                    assert(self.timers@[qp as int]@[k] == g.timers@[qp as int]@[k + 1]);
                    assert(s[k + 1] != s[0]);
                }
                assert forall|q: int| 0 <= q < N implies #[trigger] self.timers@[q].is_init() by {
                    if q != qp {
                        assert(self.timers@[q] == g.timers@[q]);
                    }
                }
            }
            Some(blk)
        } else {
            let ghost n = self.ticks;
            proof {
                lemma_tick_level(o, tout);
                lemma_level(tout, n);
                assert(!g1.holds(qp as int, id));
            }
            let qnext = Self::diff_msb(tout, self.ticks);
            let ghost g2 = *self;
            proof {
                assert(placed(n, tout, qnext as int, N));
                assert forall|p: int| 0 <= p < N implies !#[trigger] self.holds(p, id) by {
                    if p != qp {
                        assert(self.timers@[p] == g.timers@[p]);
                        if g.holds(p, id) {
                            assert(g.holds(qp as int, id)) by {
                                assert(s[0] == id);
                            }
                        }
                    }
                }
                assert(!self.timers@[qnext as int].ids().contains(id)) by {
                    assert(!self.holds(qnext as int, id));
                }
                self.timers@[qnext as int].lemma_room(id);
            }
            let l = self.len[qnext];
            self.timers[qnext].enqueue(blk);
            self.len.set(qnext, l + 1);
            proof {
                assert forall|p: int| 0 <= p < N && p != qnext implies self.timers@[p] == g2.timers@[p] by {}
                assert forall|p: int, i: usize| 0 <= p < N implies #[trigger] self.holds(p, i) == (g2.holds(p, i) || (p == qnext && i == id)) by {
                    if p == qnext as int {
                        let s2 = g2.timers@[p].ids();
                        assert(self.timers@[p].ids() == s2.push(id));
                        if s2.contains(i) {
                            let k = choose|k: int| 0 <= k < s2.len() && s2[k] == i;
                            assert(s2.push(id)[k] == i);
                        }
                        if i == id {
                            assert(s2.push(id)[s2.len() as int] == id);
                        }
                        if s2.push(id).contains(i) && i != id {
                            let k = choose|k: int| 0 <= k < s2.len() + 1 && s2.push(id)[k] == i;
                            assert(k < s2.len());
                            assert(s2[k] == i);
                        }
                    }
                }
                assert forall|p: int, i: usize| 0 <= p < N implies #[trigger] g2.holds(p, i) == (g.holds(p, i) && !(p == qp && i == id)) by {
                    if p != qp {
                        assert(g2.timers@[p] == g.timers@[p]);
                    }
                }
                assert forall|q1: int, q2: int, i: usize|
                    0 <= q1 < N && 0 <= q2 < N && #[trigger] self.holds(q1, i) && #[trigger] self.holds(q2, i) implies q1 == q2 by {
                    assert(self.holds(q1, i) == (g2.holds(q1, i) || (q1 == qnext && i == id)));
                    assert(self.holds(q2, i) == (g2.holds(q2, i) || (q2 == qnext && i == id)));
                    assert(g2.holds(q1, i) == (g.holds(q1, i) && !(q1 == qp && i == id)));
                    assert(g2.holds(q2, i) == (g.holds(q2, i) && !(q2 == qp && i == id)));
                    if i == id {
                        assert(!g2.holds(q1, id));
                        assert(!g2.holds(q2, id));
                    }
                }
                assert forall|i: usize| #[trigger] self.pending@.contains_key(i) implies exists|p: int| 0 <= p < N && self.holds(p, i) by {
                    if i == id {
                        assert(self.holds(qnext as int, i) == (g2.holds(qnext as int, i) || i == id));
                    } else {
                        let p = choose|p: int| 0 <= p < N && g.holds(p, i);
                        assert(g2.holds(p, i) == (g.holds(p, i) && !(p == qp && i == id)));
                        assert(self.holds(p, i) == (g2.holds(p, i) || (p == qnext && i == id)));
                    }
                }
                assert forall|q: int| 0 <= q < N implies (#[trigger] self.timers@[q]).wf() by {
                    if q != qnext {
                        assert(self.timers@[q] == g2.timers@[q]);
                        if q != qp {
                            assert(g2.timers@[q] == g.timers@[q]);
                        }
                    }
                }
                assert forall|q: int| 0 <= q < N implies #[trigger] self.timers@[q].is_init() by {
                    if q != qnext {
                        assert(self.timers@[q] == g2.timers@[q]);
                        if q != qp {
                            assert(g2.timers@[q] == g.timers@[q]);
                        }
                    }
                }
                assert forall|q: int| 0 <= q < N && q != qp implies self.len@[q] == (#[trigger] self.timers@[q]).ids().len() by {
                    if q != qnext {
                        assert(self.timers@[q] == g2.timers@[q]);
                        assert(g2.timers@[q] == g.timers@[q]);
                    }
                }
                assert forall|q: int, k: int|
                    0 <= q < N && 0 <= k < self.timers@[q].ids().len() && (q != qp || k >= rem - 1) implies #[trigger] self.entry_ok(q, k, n) by {
                    let sq = g2.timers@[q].ids();
                    if q == qnext && k == sq.len() {
                        assert(self.timers@[q]@ == g2.timers@[q]@.push((id, blk.obj)));
                        assert(self.timers@[q]@[k] == (id, blk.obj));
                        assert(self.timers@[q].ids()[k] == id);
                    } else {
                        if q == qnext {
                            assert(self.timers@[q]@ == g2.timers@[q]@.push((id, blk.obj)));
                            assert(self.timers@[q]@[k] == g2.timers@[q]@[k]);
                        } else {
                            assert(self.timers@[q] == g2.timers@[q]);
                        }
                        let i = sq[k];
                        assert(i != id) by {
                            assert(g2.holds(q, i)) by {
                                assert(sq[k] == i);
                            }
                        }
                        if q != qp {
                            assert(g2.timers@[q] == g.timers@[q]);
                            assert(g.entry_ok(q, k, n));
                        } else {
                            assert(g.entry_ok(q, k + 1, n));
                            assert(sq[k] == s[k + 1]);
                            assert(g2.timers@[q]@[k] == g.timers@[q]@[k + 1]);
                        }
                    }
                }
                assert forall|k: int| 0 <= k < rem - 1 implies #[trigger] self.entry_ok(qp as int, k, o) by {
                    assert(g.entry_ok(qp as int, k + 1, o));
                    let sq = g2.timers@[qp as int].ids();
                    assert(sq[k] == s[k + 1]);
                    assert(g2.timers@[qp as int]@[k] == g.timers@[qp as int]@[k + 1]);
                    if qp == qnext {
                        assert(self.timers@[qp as int]@ == g2.timers@[qp as int]@.push((id, blk.obj)));
                        assert(self.timers@[qp as int]@[k] == g2.timers@[qp as int]@[k]);
                    } else {
                        assert(self.timers@[qp as int] == g2.timers@[qp as int]);
                    }
                    assert(s[k + 1] != s[0]);
                }
                assert forall|k: int| 1 <= k < rem implies self.timers@[qp as int].ids()[k - 1] == s[k] by {
                    assert(g2.timers@[qp as int].ids()[k - 1] == s[k]);
                    if qp == qnext {
                        assert(self.timers@[qp as int].ids() == g2.timers@[qp as int].ids().push(id));
                    }
                }
            }
            None
        };
        r
    }
}

/// The identities of the sleepers in `ws`.
pub open spec fn ids_of(ws: Seq<Ref<TWaitBlk>>) -> Set<usize> {
    Set::new(|id: usize| exists|m: int| 0 <= m < ws.len() && ws[m].id == id)
}

/// The sleepers left after the clock reaches `t`.
pub open spec fn after_tick(pending: Map<usize, usize>, t: usize) -> Map<usize, usize> {
    pending.remove_keys(due(pending, t))
}

/// The sleepers left after `j` ticks from clock reading `c`.
pub open spec fn after_ticks(pending: Map<usize, usize>, c: int, j: nat) -> Map<usize, usize>
    decreases j,
{
    if j == 0 {
        pending
    } else {
        after_tick(after_ticks(pending, c, (j - 1) as nat), (c + j) as usize)
    }
}

/// A sleeper due at tick `c + d` sleeps through the first `d - 1` ticks
/// after `c`, is among those woken by the `d`-th, and sleeps no more after
/// it (so no later tick wakes it again).
pub proof fn law_wakes_on_time(pending: Map<usize, usize>, c: usize, d: nat, id: usize, j: nat)
    requires
        pending.contains_key(id),
        pending[id] == c + d,
        0 < j <= d,
        c + d <= usize::MAX,
    ensures
        after_ticks(pending, c as int, (j - 1) as nat).contains_key(id),
        after_ticks(pending, c as int, (j - 1) as nat)[id] == c + d,
        j < d ==> !due(after_ticks(pending, c as int, (j - 1) as nat), (c + j) as usize).contains(id),
        j == d ==> due(after_ticks(pending, c as int, (j - 1) as nat), (c + j) as usize).contains(id),
        j == d ==> !after_ticks(pending, c as int, j).contains_key(id),
    decreases j,
{
    if j > 1 {
        law_wakes_on_time(pending, c, d, id, (j - 1) as nat);
    }
    if j == d {
        let before = after_ticks(pending, c as int, (j - 1) as nat);
        assert(after_ticks(pending, c as int, j) == after_tick(before, (c + j) as usize));
        assert(due(before, (c + j) as usize).contains(id));
    }
}

impl<const N: usize> Timer<N> {
    /// Advances the clock by one tick and hands back the sleepers now due,
    /// to be woken; the others keep sleeping.
    pub fn tick(&mut self) -> (woken: Vec<Ref<TWaitBlk>>)
        requires
            old(self).wf(),
            old(self).is_init(),
            old(self).ticks() < usize::MAX,
        ensures
            final(self).wf(),
            final(self).is_init(),
            final(self).ticks() == old(self).ticks() + 1,
            final(self).pending() == old(self).pending().remove_keys(due(old(self).pending(), final(self).ticks())),
            ids_of(woken@) == due(old(self).pending(), final(self).ticks()),
            forall|m: int| 0 <= m < woken@.len() ==> (#[trigger] woken@[m]).obj.timeout == final(self).ticks(),
            forall|i: int, j: int| 0 <= i < woken@.len() && 0 <= j < woken@.len() && i != j ==> woken@[i].id != woken@[j].id,
            ({
                let n = final(self).ticks();
                let qp = clip(level(old(self).ticks(), n), N);
                let s = old(self).queue(qp);
                &&& woken@.len() == due_in(s, old(self).pending(), n).len()
                &&& forall|m: int| 0 <= m < woken@.len() ==> (#[trigger] woken@[m]).id == due_in(s, old(self).pending(), n)[m]
                &&& forall|p: int| 0 <= p < N ==> #[trigger] final(self).queue(p) == (if p == qp {
                    Seq::<usize>::empty()
                } else {
                    old(self).queue(p)
                }) + moved(s, old(self).pending(), n, p, N)
            }),
    {
        let lock = CriticalSection::new();
        let old_ticks = self.ticks;
        let new_ticks = old_ticks + 1;
        let q = Self::diff_msb(old_ticks, new_ticks);
        let len = self.len[q];
        self.len.set(q, 0);
        self.ticks = new_ticks;
        let ghost o = old_ticks;
        let ghost n = new_ticks;
        let ghost p0 = old(self).pending@;
        let ghost dues = due(p0, n);
        let ghost s0 = self.timers@[q as int].ids();
        let mut woken: Vec<Ref<TWaitBlk>> = Vec::new();
        proof {
            let g = *old(self);
            assert forall|p: int| 0 <= p < N implies self.timers@[p] == g.timers@[p] by {}
            assert forall|p: int, k: int|
                0 <= p < N && 0 <= k < self.timers@[p].ids().len() && (p != q || k >= len) implies #[trigger] self.entry_ok(p, k, n) by {
                assert(g.entry_ok(p, k, o));
                let id = self.timers@[p].ids()[k];
                lemma_still_placed(o, self.pending@[id], p, q as int, N);
            }
            assert forall|k: int| 0 <= k < len implies #[trigger] self.entry_ok(q as int, k, o) by {
                assert(g.entry_ok(q as int, k, o));
            }
            assert forall|id: usize| dues.contains(id) implies exists|k: int| 0 <= k < len && self.timers@[q as int].ids()[k] == id by {
                let p = choose|p: int| 0 <= p < N && g.holds(p, id);
                let k = choose|k: int| 0 <= k < g.timers@[p].ids().len() && g.timers@[p].ids()[k] == id;
                assert(g.entry_ok(p, k, o));
                assert(p == q);
            }
            assert(ids_of(woken@) =~= Set::<usize>::empty());
            assert forall|p: int| 0 <= p < N && p != q implies self.len@[p] == (#[trigger] self.timers@[p]).ids().len() by {
                assert(self.len@[p] == g.len@[p]);
            }
            assert(self.len@[q as int] == 0);
            assert(len == self.timers@[q as int].ids().len());
            assert forall|p1: int, id: usize| #[trigger] self.holds(p1, id) == g.holds(p1, id) by {}
            assert forall|q1: int, q2: int, id: usize|
                0 <= q1 < N && 0 <= q2 < N && #[trigger] self.holds(q1, id) && #[trigger] self.holds(q2, id) implies q1 == q2 by {
                assert(g.holds(q1, id) && g.holds(q2, id));
            }
            assert forall|id: usize| #[trigger] self.pending@.contains_key(id) implies exists|p: int| 0 <= p < N && self.holds(p, id) by {
                let p = choose|p: int| 0 <= p < N && g.holds(p, id);
                assert(self.holds(p, id));
            }
            assert forall|p: int| 0 <= p < N implies (#[trigger] self.timers@[p]).wf() by {
                assert(g.timers@[p].wf());
            }
            assert(self.shape());
            assert(self.mid_tick(q as int, len as int, o));
            assert(p0.remove_keys(Set::<usize>::empty()) =~= p0);
            assert(s0.subrange(0, 0) =~= Seq::<usize>::empty());
            assert forall|p: int| 0 <= p < N implies #[trigger] self.timers@[p].ids() == (if p == q {
                s0.subrange(0, len as int)
            } else {
                old(self).timers@[p].ids()
            }) + moved(s0.subrange(0, 0), p0, n, p, N) by {
                assert(s0.subrange(0, len as int) =~= s0);
                assert(self.timers@[p].ids() + Seq::<usize>::empty() =~= self.timers@[p].ids());
            }
        }
        let mut i: usize = 0;
        while i < len
            invariant
                i <= len,
                self.mid_tick(q as int, len - i, o),
                forall|p: int| 0 <= p < N ==> #[trigger] self.timers@[p].is_init(),
                self.ticks == n,
                n == o + 1,
                o < usize::MAX,
                q == clip(level(o, n), N),
                lock.saved_mask() == 0,
                dues == due(p0, n),
                forall|m: int| 0 <= m < woken@.len() ==> (#[trigger] woken@[m]).obj.timeout == n && dues.contains(woken@[m].id),
                forall|a: int, b: int| 0 <= a < woken@.len() && 0 <= b < woken@.len() && a != b ==> woken@[a].id != woken@[b].id,
                self.pending@ == p0.remove_keys(ids_of(woken@)),
                forall|id: usize| dues.contains(id) ==> ids_of(woken@).contains(id) || exists|k: int| 0 <= k < len - i && self.timers@[q as int].ids()[k] == id,
                s0 == old(self).timers@[q as int].ids(),
                len == s0.len(),
                forall|p: int| 0 <= p < N ==> #[trigger] self.timers@[p].ids() == (if p == q {
                    s0.subrange(i as int, len as int)
                } else {
                    old(self).timers@[p].ids()
                }) + moved(s0.subrange(0, i as int), p0, n, p, N),
                woken@.len() == due_in(s0.subrange(0, i as int), p0, n).len(),
                forall|m: int| 0 <= m < woken@.len() ==> (#[trigger] woken@[m]).id == due_in(s0.subrange(0, i as int), p0, n)[m],
            decreases len - i,
        {
            let ghost before = *self;
            let ghost w0 = woken@;
            let ghost head = self.timers@[q as int].ids()[0];
            let r = self.step(q, Ghost(o), Ghost((len - i) as int));
            match r {
                Some(w) => {
                    woken.push(w);
                },
                None => {},
            }
            proof {
                let w1 = woken@;
                assert(before.pending@.contains_key(head));
                lemma_walk_step(s0, p0, n, N, i as int);
                assert(head == s0[i as int]) by {
                    let m0 = moved(s0.subrange(0, i as int), p0, n, q as int, N);
                    assert(before.timers@[q as int].ids() == s0.subrange(i as int, len as int) + m0);
                }
                assert(before.pending@[head] == p0[head]);
                assert forall|p: int| 0 <= p < N implies #[trigger] self.timers@[p].ids() == (if p == q {
                    s0.subrange(i + 1, len as int)
                } else {
                    old(self).timers@[p].ids()
                }) + moved(s0.subrange(0, i + 1), p0, n, p, N) by {
                    let m0 = moved(s0.subrange(0, i as int), p0, n, p, N);
                    let base = if p == q { s0.subrange(i as int, len as int) } else { old(self).timers@[p].ids() };
                    assert(before.timers@[p].ids() == base + m0);
                    let extra = if r is None && p == clip(level(before.pending@[head], n), N) { seq![head] } else { Seq::<usize>::empty() };
                    assert(self.timers@[p].ids() == (if p == q { before.timers@[p].ids().drop_first() } else { before.timers@[p].ids() }) + extra);
                    if p == q {
                        assert((base + m0).drop_first() =~= s0.subrange(i + 1, len as int) + m0);
                    }
                    if r is None && p == clip(level(before.pending@[head], n), N) {
                        assert(moved(s0.subrange(0, i + 1), p0, n, p, N) == m0.push(head));
                    } else {
                        assert(moved(s0.subrange(0, i + 1), p0, n, p, N) == m0);
                    }
                    let b2 = if p == q { s0.subrange(i + 1, len as int) } else { old(self).timers@[p].ids() };
                    assert((b2 + m0) + extra =~= b2 + moved(s0.subrange(0, i + 1), p0, n, p, N));
                }
                assert forall|m: int| 0 <= m < w1.len() implies (#[trigger] w1[m]).id == due_in(s0.subrange(0, i + 1), p0, n)[m] by {
                    if m < w0.len() {
                        assert(w1[m] == w0[m]);
                    }
                }
                assert(!ids_of(w0).contains(head));
                if r is Some {
                    assert(ids_of(w1) =~= ids_of(w0).insert(head)) by {
                        assert forall|id: usize| ids_of(w1).contains(id) implies ids_of(w0).insert(head).contains(id) by {
                            let m = choose|m: int| 0 <= m < w1.len() && w1[m].id == id;
                            if m < w0.len() {
                                assert(w0[m] == w1[m]);
                            }
                        }
                        assert forall|id: usize| ids_of(w0).insert(head).contains(id) implies ids_of(w1).contains(id) by {
                            if id == head {
                                assert(w1[w0.len() as int].id == head);
                            } else {
                                let m = choose|m: int| 0 <= m < w0.len() && w0[m].id == id;
                                assert(w1[m] == w0[m]);
                            }
                        }
                    }
                    assert(self.pending@ =~= p0.remove_keys(ids_of(w1)));
                    assert forall|a: int, b: int| 0 <= a < w1.len() && 0 <= b < w1.len() && a != b implies w1[a].id != w1[b].id by {
                        if a == w0.len() && b < w0.len() {
                            assert(w1[b] == w0[b]);
                            assert(ids_of(w0).contains(w0[b].id));
                        } else if b == w0.len() && a < w0.len() {
                            assert(w1[a] == w0[a]);
                            assert(ids_of(w0).contains(w0[a].id));
                        } else if a < w0.len() && b < w0.len() {
                            assert(w1[a] == w0[a]);
                            assert(w1[b] == w0[b]);
                        }
                    }
                    assert forall|m: int| 0 <= m < w1.len() implies (#[trigger] w1[m]).obj.timeout == n && dues.contains(w1[m].id) by {
                        if m < w0.len() {
                            assert(w1[m] == w0[m]);
                        }
                    }
                } else {
                    assert(w1 == w0);
                }
                assert forall|id: usize| dues.contains(id) implies ids_of(w1).contains(id) || exists|k: int| 0 <= k < len - (i + 1) && self.timers@[q as int].ids()[k] == id by {
                    if !ids_of(w1).contains(id) {
                        assert(!ids_of(w0).contains(id)) by {
                            if ids_of(w0).contains(id) {
                                let m = choose|m: int| 0 <= m < w0.len() && w0[m].id == id;
                                assert(w1[m] == w0[m]);
                            }
                        }
                        let k = choose|k: int| 0 <= k < len - i && before.timers@[q as int].ids()[k] == id;
                        if k == 0 {
                            assert(id == head);
                            if r is Some {
                                assert(ids_of(w1).contains(head));
                            } else {
                                assert(before.pending@[head] == p0[head]);
                            }
                        } else {
                            assert(self.timers@[q as int].ids()[k - 1] == id);
                        }
                    }
                }
            }
            lock.window();
            i = i + 1;
        }
        proof {
            assert(ids_of(woken@) =~= dues) by {
                assert forall|id: usize| dues.contains(id) implies ids_of(woken@).contains(id) by {}
            }
            assert forall|p: int| 0 <= p < N implies self.len@[p] == (#[trigger] self.timers@[p]).ids().len() by {}
            assert(s0.subrange(0, len as int) =~= s0);
            assert forall|p: int| 0 <= p < N implies #[trigger] self.queue(p) == (if p == q {
                Seq::<usize>::empty()
            } else {
                old(self).queue(p)
            }) + moved(s0, p0, n, p, N) by {
                assert(s0.subrange(len as int, len as int) =~= Seq::<usize>::empty());
            }
            assert forall|p: int, k: int|
                0 <= p < N && 0 <= k < self.timers@[p].ids().len() implies #[trigger] self.entry_ok(p, k, self.ticks) by {}
        }
        lock.exit();
        woken
    }
}

/// A sleep that has not started, or that is under way: the sleeper's block
/// until the timer has it, and the delay until it has been asked for.
pub struct TimeoutFuture {
    pub wb: Option<Ref<TWaitBlk>>,
    pub delay: Option<usize>,
}

impl<const N: usize> Timer<N> {
    /// A sleep of `t` ticks for the sleeper `id`; nothing happens until it
    /// is first polled.
    pub fn sleep_for(&self, id: usize, t: u32) -> (f: TimeoutFuture)
        ensures
            f.wb == Some(Ref { id, obj: TWaitBlk { timeout: 0 } }),
            f.delay == Some(t as usize),
    {
        TimeoutFuture { wb: Some(Ref::new(id, TWaitBlk { timeout: 0 })), delay: Some(t as usize) }
    }
}

/// A sleep of `t` ticks (as [`Timer::sleep_for`] makes it) puts its sleeper
/// to sleep at the first poll exactly when `t` is not zero: every non-zero
/// delay, one tick included, makes that poll pending with the sleeper due
/// at the clock reading plus `t`; only a zero delay is over at once.
pub proof fn law_sleep_starts(f: TimeoutFuture, t: u32)
    requires
        f.delay == Some(t as usize),
    ensures
        f.starts() <==> t != 0,
        t == 1 ==> f.starts(),
        t == 0 ==> !f.starts(),
{
}

/// Whether a sleep puts its sleeper to sleep at the next poll depends only
/// on its delay: it does for every delay of at least one tick, and not for
/// a zero delay or a sleep already started.
pub proof fn law_starts(f: TimeoutFuture)
    ensures
        f.delay matches Some(d) && d >= 1 ==> f.starts(),
        f.delay == Some(0usize) ==> !f.starts(),
        f.delay is None ==> !f.starts(),
{
}

impl TimeoutFuture {
    /// Whether the next poll puts the sleeper to sleep.
    pub open spec fn starts(&self) -> bool {
        self.delay is Some && self.delay->0 != 0
    }

    /// One poll of the sleep.  The first poll of a sleep of a non-zero
    /// delay puts the sleeper to sleep in `container` and is pending; every
    /// other poll finds the sleep over.
    pub fn poll<const N: usize>(&mut self, container: &mut Timer<N>) -> (ready: bool)
        requires
            old(container).wf(),
            old(container).is_init(),
            old(self).starts() ==> {
                &&& old(self).wb is Some
                &&& !old(container).pending().contains_key(old(self).wb->0.id)
                &&& old(self).wb->0.id < usize::MAX
                &&& old(container).ticks() + old(self).delay->0 <= usize::MAX
            },
        ensures
            final(container).wf(),
            final(container).is_init(),
            final(container).ticks() == old(container).ticks(),
            final(self).delay is None,
            old(self).starts() ==> {
                &&& !ready
                &&& final(self).wb is None
                &&& final(container).pending() == old(container).pending().insert(
                    old(self).wb->0.id,
                    (old(container).ticks() + old(self).delay->0) as usize,
                )
            },
            !old(self).starts() ==> {
                &&& ready
                &&& final(self).wb == old(self).wb
                &&& final(container).pending() == old(container).pending()
            },
    {
        if let Some(delay) = self.delay.take() {
            if delay != 0 {
                let wb = self.wb.take().unwrap();
                container.subscribe(delay, wb);
                return false;
            }
        }
        true
    }
}

} // verus!
