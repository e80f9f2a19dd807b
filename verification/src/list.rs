//! A circular doubly-linked queue with a sentinel root node.
//!
//! Every object that can be queued owns one link cell, addressed by the
//! object's identity (`usize`).  The root cell belongs to the list itself.  An
//! empty, initialised list has its root pointing to itself in both
//! directions; a list that was never initialised has no root links at all.
//! Objects travel into the list together with their exclusive handle
//! ([`Ref`]) and come back out of it the same way.
use vstd::prelude::*;

verus! {

/// The address of a link cell: the list's own root, or the cell embedded in
/// the object with the given identity.
#[derive(PartialEq, Eq, Structural, Clone, Copy, Debug)]
pub enum Ptr {
    Root,
    Item(usize),
}

/// Exclusive handle to an object together with the object's identity.
pub struct Ref<T> {
    pub id: usize,
    pub obj: T,
}

impl<T> Ref<T> {
    /// Wraps an object and its identity.
    pub fn new(id: usize, obj: T) -> (r: Self)
        ensures
            r.id == id,
            r.obj == obj,
    {
        Ref { id, obj }
    }

    /// Gives the object back, ending the handle.
    pub fn release(self) -> (obj: T)
        ensures
            obj == self.obj,
    {
        self.obj
    }
}

/// Position `k` of the ring `Root, s[0], .., s[n-1]`: the root stands at
/// `-1` and at `n`.
pub open spec fn ptr_at(s: Seq<usize>, k: int) -> Ptr {
    if 0 <= k < s.len() {
        Ptr::Item(s[k])
    } else {
        Ptr::Root
    }
}

/// Where `p` stands in the ring of `s` (`-1` for the root).
pub open spec fn pos_of(s: Seq<usize>, p: Ptr) -> int {
    match p {
        Ptr::Root => -1,
        Ptr::Item(i) => s.index_of(i),
    }
}

/// Link of the cell at `p`, given the root's links and the cells' links.
pub open spec fn link_of(root: (Ptr, Ptr), links: Seq<Option<(Ptr, Ptr)>>, p: Ptr) -> Option<(Ptr, Ptr)> {
    match p {
        Ptr::Root => Some(root),
        Ptr::Item(i) => if i < links.len() {
            links[i as int]
        } else {
            None
        },
    }
}

/// The links describe exactly the ring `Root, s[0], .., s[n-1]`.
pub open spec fn ring(root: (Ptr, Ptr), links: Seq<Option<(Ptr, Ptr)>>, s: Seq<usize>) -> bool {
    &&& s.no_duplicates()
    &&& forall|k: int|
        0 <= k < s.len() ==> #[trigger] s[k] < links.len() && links[s[k] as int] == Some(
            (ptr_at(s, k - 1), ptr_at(s, k + 1)),
        )
    &&& forall|j: usize| j < links.len() && !s.contains(j) ==> #[trigger] links[j as int] is None
    &&& root == (ptr_at(s, s.len() - 1), ptr_at(s, 0))
}

pub open spec fn link_prev(l: Option<(Ptr, Ptr)>) -> Ptr {
    match l {
        Some((p, _)) => p,
        None => Ptr::Root,
    }
}

pub open spec fn link_next(l: Option<(Ptr, Ptr)>) -> Ptr {
    match l {
        Some((_, n)) => n,
        None => Ptr::Root,
    }
}

/// The links after `x` is put between `at` and `at_next`.
pub open spec fn linked_in(
    root: (Ptr, Ptr),
    links: Seq<Option<(Ptr, Ptr)>>,
    at: Ptr,
    at_next: Ptr,
    x: usize,
    q: Ptr,
) -> Option<(Ptr, Ptr)> {
    let old_link = link_of(root, links, q);
    if q == Ptr::Item(x) {
        Some((at, at_next))
    } else if q == at && q == at_next {
        Some((Ptr::Item(x), Ptr::Item(x)))
    } else if q == at {
        Some((link_prev(old_link), Ptr::Item(x)))
    } else if q == at_next {
        Some((Ptr::Item(x), link_next(old_link)))
    } else {
        old_link
    }
}

/// The links after the cell at position `k` is taken out between `prev` and `next`.
pub open spec fn unlinked_from(
    root: (Ptr, Ptr),
    links: Seq<Option<(Ptr, Ptr)>>,
    prev: Ptr,
    next: Ptr,
    x: usize,
    q: Ptr,
) -> Option<(Ptr, Ptr)> {
    let old_link = link_of(root, links, q);
    if q == Ptr::Item(x) {
        None
    } else if q == prev && q == next {
        Some((prev, next))
    } else if q == prev {
        Some((link_prev(old_link), next))
    } else if q == next {
        Some((prev, link_next(old_link)))
    } else {
        old_link
    }
}

proof fn lemma_ring_link(root: (Ptr, Ptr), links: Seq<Option<(Ptr, Ptr)>>, s: Seq<usize>, k: int)
    requires
        ring(root, links, s),
        -1 <= k <= s.len(),
    ensures
        link_of(root, links, ptr_at(s, k)) == Some((ptr_at(s, if k == -1 { s.len() - 1 } else { k - 1 }), ptr_at(s, if k == s.len() { 0 } else { k + 1 }))),
{
    if 0 <= k < s.len() {
        assert(s[k] < links.len());
    }
}

proof fn lemma_insert_no_dup(s: Seq<usize>, pos: int, x: usize)
    requires
        s.no_duplicates(),
        -1 <= pos < s.len(),
        !s.contains(x),
    ensures
        s.insert(pos + 1, x).no_duplicates(),
        forall|j: usize| s.insert(pos + 1, x).contains(j) <==> (s.contains(j) || j == x),
{
    let s2 = s.insert(pos + 1, x);
    s.insert_ensures(pos + 1, x);
    assert forall|i: int, j: int| 0 <= i < s2.len() && 0 <= j < s2.len() && i != j implies s2[i] != s2[j] by {
        let i0 = if i < pos + 1 { i } else { i - 1 };
        let j0 = if j < pos + 1 { j } else { j - 1 };
        if i != pos + 1 {
            assert(s2[i] == s[i0]);
        }
        if j != pos + 1 {
            assert(s2[j] == s[j0]);
        }
    }
    assert forall|j: usize| s2.contains(j) <==> (s.contains(j) || j == x) by {
        if s2.contains(j) {
            let k = choose|k: int| 0 <= k < s2.len() && s2[k] == j;
            if k < pos + 1 {
                assert(s2[k] == s[k]);
            } else if k > pos + 1 {
                assert(s2[k] == s[k - 1]);
            }
        }
        if s.contains(j) {
            let k = choose|k: int| 0 <= k < s.len() && s[k] == j;
            if k < pos + 1 {
                assert(s2[k] == s[k]);
            } else {
                assert(s2[k + 1] == s[k]);
            }
        }
        if j == x {
            assert(s2[pos + 1] == x);
        }
    }
}

proof fn lemma_insert_links(
    root: (Ptr, Ptr),
    links: Seq<Option<(Ptr, Ptr)>>,
    s: Seq<usize>,
    pos: int,
    x: usize,
    root2: (Ptr, Ptr),
    links2: Seq<Option<(Ptr, Ptr)>>,
    k: int,
)
    requires
        ring(root, links, s),
        -1 <= pos < s.len(),
        !s.contains(x),
        x < links.len(),
        links2.len() == links.len(),
        forall|q: Ptr|
            link_of(root2, links2, q) == linked_in(root, links, ptr_at(s, pos), ptr_at(s, pos + 1), x, q),
        0 <= k < s.len() + 1,
    ensures
        s.insert(pos + 1, x)[k] < links2.len(),
        links2[s.insert(pos + 1, x)[k] as int] == Some(
            (ptr_at(s.insert(pos + 1, x), k - 1), ptr_at(s.insert(pos + 1, x), k + 1)),
        ),
{
    let at = ptr_at(s, pos);
    let at_next = ptr_at(s, pos + 1);
    let s2 = s.insert(pos + 1, x);
    s.insert_ensures(pos + 1, x);
    lemma_ring_link(root, links, s, pos);
    lemma_ring_link(root, links, s, pos + 1);
    let q = Ptr::Item(s2[k]);
    assert(link_of(root2, links2, q) == linked_in(root, links, at, at_next, x, q));
    if k < pos + 1 {
        assert(s2[k] == s[k]);
        assert(s[k] < links.len());
        if k >= 1 {
            assert(s2[k - 1] == s[k - 1]);
        }
        if k == pos {
            assert(q == at);
            assert(q != at_next);
        } else {
            assert(q != at);
            assert(q != at_next);
            assert(s2[k + 1] == s[k + 1]);
        }
    } else if k == pos + 1 {
        assert(s2[k] == x);
        if k >= 1 {
            assert(s2[k - 1] == s[k - 1]);
        }
        if k + 1 < s2.len() {
            assert(s2[k + 1] == s[k]);
        }
    } else {
        assert(s2[k] == s[k - 1]);
        assert(s[k - 1] < links.len());
        if k + 1 < s2.len() {
            assert(s2[k + 1] == s[k]);
        }
        if k == pos + 2 {
            assert(q == at_next);
            assert(q != at);
        } else {
            assert(q != at);
            assert(q != at_next);
            assert(s2[k - 1] == s[k - 2]);
        }
    }
}

/// Putting a new cell between two neighbours of the ring yields the ring
/// with the new identity inserted there.
proof fn lemma_ring_insert(
    root: (Ptr, Ptr),
    links: Seq<Option<(Ptr, Ptr)>>,
    s: Seq<usize>,
    pos: int,
    x: usize,
    root2: (Ptr, Ptr),
    links2: Seq<Option<(Ptr, Ptr)>>,
)
    requires
        ring(root, links, s),
        -1 <= pos < s.len(),
        !s.contains(x),
        x < links.len(),
        links2.len() == links.len(),
        forall|q: Ptr|
            link_of(root2, links2, q) == linked_in(root, links, ptr_at(s, pos), ptr_at(s, pos + 1), x, q),
    ensures
        ring(root2, links2, s.insert(pos + 1, x)),
{
    let at = ptr_at(s, pos);
    let at_next = ptr_at(s, pos + 1);
    let s2 = s.insert(pos + 1, x);
    s.insert_ensures(pos + 1, x);
    lemma_insert_no_dup(s, pos, x);
    lemma_ring_link(root, links, s, pos);
    lemma_ring_link(root, links, s, pos + 1);
    assert forall|k: int| 0 <= k < s2.len() implies #[trigger] s2[k] < links2.len() && links2[s2[k] as int] == Some(
        (ptr_at(s2, k - 1), ptr_at(s2, k + 1)),
    ) by {
        lemma_insert_links(root, links, s, pos, x, root2, links2, k);
    }
    assert forall|j: usize| j < links2.len() && !s2.contains(j) implies #[trigger] links2[j as int] is None by {
        let q = Ptr::Item(j);
        assert(link_of(root2, links2, q) == linked_in(root, links, at, at_next, x, q));
        if at == q {
            assert(s[pos] == j);
        }
        if at_next == q {
            assert(s[pos + 1] == j);
        }
    }
    assert(link_of(root2, links2, Ptr::Root) == linked_in(root, links, at, at_next, x, Ptr::Root));
    if s.len() > 0 {
        assert(s2[0] == if pos == -1 { x } else { s[0] });
        assert(s2[s2.len() - 1] == if pos + 1 == s.len() { x } else { s[s.len() - 1] });
    }
}

/// Taking the cell at position `k` out of the ring yields the ring without it.
proof fn lemma_ring_remove(
    root: (Ptr, Ptr),
    links: Seq<Option<(Ptr, Ptr)>>,
    s: Seq<usize>,
    k: int,
    root2: (Ptr, Ptr),
    links2: Seq<Option<(Ptr, Ptr)>>,
)
    requires
        ring(root, links, s),
        0 <= k < s.len(),
        links2.len() == links.len(),
        forall|q: Ptr|
            link_of(root2, links2, q) == unlinked_from(root, links, ptr_at(s, k - 1), ptr_at(s, k + 1), s[k], q),
    ensures
        ring(root2, links2, s.remove(k)),
{
    let prev = ptr_at(s, k - 1);
    let next = ptr_at(s, k + 1);
    let x = s[k];
    let s2 = s.remove(k);
    s.remove_ensures(k);
    lemma_ring_link(root, links, s, k - 1);
    lemma_ring_link(root, links, s, k + 1);
    assert forall|i: int, j: int| 0 <= i < s2.len() && 0 <= j < s2.len() && i != j implies s2[i] != s2[j] by {
        let i0 = if i < k { i } else { i + 1 };
        let j0 = if j < k { j } else { j + 1 };
        assert(s2[i] == s[i0]);
        assert(s2[j] == s[j0]);
    }
    assert forall|m: int| 0 <= m < s2.len() implies #[trigger] s2[m] < links2.len() && links2[s2[m] as int] == Some(
        (ptr_at(s2, m - 1), ptr_at(s2, m + 1)),
    ) by {
        let m0 = if m < k { m } else { m + 1 };
        assert(s2[m] == s[m0]);
        assert(s[m0] < links.len());
        let q = Ptr::Item(s2[m]);
        assert(link_of(root2, links2, q) == unlinked_from(root, links, prev, next, x, q));
        assert(q != Ptr::Item(x));
        if m >= 1 {
            assert(s2[m - 1] == if m - 1 < k { s[m - 1] } else { s[m] });
        }
        if m + 1 < s2.len() {
            assert(s2[m + 1] == if m + 1 < k { s[m + 1] } else { s[m + 2] });
        }
        if m0 == k - 1 {
            assert(q == prev);
            assert(q != next);
        } else if m0 == k + 1 {
            assert(q == next);
            assert(q != prev);
        } else {
            assert(q != prev);
            assert(q != next);
        }
    }
    assert forall|j: usize| j < links2.len() && !s2.contains(j) implies #[trigger] links2[j as int] is None by {
        let q = Ptr::Item(j);
        assert(link_of(root2, links2, q) == unlinked_from(root, links, prev, next, x, q));
        if j != x {
            assert(!s.contains(j)) by {
                if s.contains(j) {
                    let m0 = choose|m0: int| 0 <= m0 < s.len() && s[m0] == j;
                    if m0 < k {
                        assert(s2[m0] == s[m0]);
                    } else {
                        assert(m0 != k);
                        assert(s2[m0 - 1] == s[m0]);
                    }
                }
            }
            if prev == q {
                assert(s[k - 1] == j);
            }
            if next == q {
                assert(s[k + 1] == j);
            }
        }
    }
    assert(link_of(root2, links2, Ptr::Root) == unlinked_from(root, links, prev, next, x, Ptr::Root));
    if s2.len() > 0 {
        assert(s2[0] == if k == 0 { s[1] } else { s[0] });
        assert(s2[s2.len() - 1] == if k == s.len() - 1 { s[s.len() - 2] } else { s[s.len() - 1] });
    }
}

/// Queues are first in, first out: taking the head off commutes with
/// appending at the tail whenever the queue is not empty, and on an empty
/// queue gives back what was appended.
pub proof fn law_fifo<A>(s: Seq<A>, x: A)
    ensures
        s.push(x)[0] == if s.len() == 0 {
            x
        } else {
            s[0]
        },
        s.len() > 0 ==> s.push(x).drop_first() == s.drop_first().push(x),
        s.len() == 0 ==> s.push(x).drop_first() == s,
{
    if s.len() > 0 {
        assert(s.push(x).drop_first() =~= s.drop_first().push(x));
    } else {
        assert(s.push(x).drop_first() =~= s);
    }
}

/// Taking out the cell that was just put after position `pos - 1` finds
/// it at `pos` and gives back the queue as it was.
pub proof fn law_remove_undoes_insert(s: Seq<usize>, pos: int, x: usize)
    requires
        s.no_duplicates(),
        !s.contains(x),
        0 <= pos <= s.len(),
    ensures
        s.insert(pos, x).contains(x),
        s.insert(pos, x).index_of(x) == pos,
        s.insert(pos, x).remove(pos) == s,
{
    let s2 = s.insert(pos, x);
    s.insert_ensures(pos, x);
    assert(s2[pos] == x);
    let j = s2.index_of(x);
    if j != pos {
        if j < pos {
            assert(s2[j] == s[j]);
        } else {
            assert(s2[j] == s[j - 1]);
        }
    }
    assert(s2.remove(pos) =~= s);
}

pub struct List<T> {
    /// `(prev, next)` of the root, `None` until [`List::init`].
    root: Option<(Ptr, Ptr)>,
    /// `(prev, next)` of the cell of each object, `None` when not linked.
    links: Vec<Option<(Ptr, Ptr)>>,
    /// The object held by each linked cell.
    payloads: Vec<Option<T>>,
    /// The identities in queue order, head first.
    order: Ghost<Seq<usize>>,
}

impl<T> View for List<T> {
    type V = Seq<(usize, T)>;

    /// The queued objects with their identities, head first.
    open spec fn view(&self) -> Seq<(usize, T)> {
        Seq::new(self.ids().len(), |k: int| (self.ids()[k], self.payload(self.ids()[k])))
    }
}

impl<T> List<T> {
    /// The identities of the queued objects, head first.
    pub closed spec fn ids(&self) -> Seq<usize> {
        self.order@
    }

    /// The object queued under `id`.
    pub closed spec fn payload(&self, id: usize) -> T {
        self.payloads@[id as int]->0
    }

    /// Whether [`List::init`] has been run.
    pub closed spec fn is_init(&self) -> bool {
        self.root is Some
    }

    spec fn link(&self, p: Ptr) -> Option<(Ptr, Ptr)> {
        match p {
            Ptr::Root => self.root,
            Ptr::Item(i) => if i < self.links@.len() {
                self.links@[i as int]
            } else {
                None
            },
        }
    }

    /// The links form the ring `Root, ids[0], .., ids[n-1]`, and only the
    /// cells of queued objects are linked or hold an object.
    pub closed spec fn wf(&self) -> bool {
        let s = self.order@;
        &&& self.links@.len() == self.payloads@.len()
        &&& s.no_duplicates()
        &&& forall|k: int| 0 <= k < s.len() ==> self.payloads@[#[trigger] s[k] as int] is Some && s[k] < usize::MAX
        &&& forall|j: usize| j < self.payloads@.len() && !s.contains(j) ==> #[trigger] self.payloads@[j as int] is None
        &&& match self.root {
            None => s.len() == 0 && forall|j: int| 0 <= j < self.links@.len() ==> #[trigger] self.links@[j] is None,
            Some(r) => ring(r, self.links@, s),
        }
    }

    /// Queued identities are pairwise distinct, and below `usize::MAX`.
    pub proof fn lemma_ids_distinct(&self)
        requires
            self.wf(),
        ensures
            self.ids().no_duplicates(),
            forall|k: int| 0 <= k < self.ids().len() ==> #[trigger] self.ids()[k] < usize::MAX,
    {
    }

    /// A list with room for one more identity below `usize::MAX` has fewer
    /// than `usize::MAX` entries.
    pub proof fn lemma_room(&self, id: usize)
        requires
            self.wf(),
            !self.ids().contains(id),
            id < usize::MAX,
        ensures
            self.ids().len() < usize::MAX,
    {
        let s = self.order@;
        let s2 = s.push(id);
        assert forall|i: int, j: int| 0 <= i < s2.len() && 0 <= j < s2.len() && i != j implies s2[i] != s2[j] by {
            if i < s.len() && j < s.len() {
            } else if i < s.len() {
                assert(s.contains(s[i]));
            } else {
                assert(s.contains(s[j]));
            }
        }
        lemma_below(usize::MAX as nat);
        assert forall|k: int| 0 <= k < s2.len() implies below(usize::MAX as nat).contains(#[trigger] s2[k]) by {
            if k < s.len() {
                assert(s2[k] == s[k]);
            }
        }
        lemma_distinct_in_set(s2, below(usize::MAX as nat));
    }

    /// A list that has not been initialised yet.
    pub fn new() -> (l: Self)
        ensures
            l.wf(),
            !l.is_init(),
            l@ == Seq::<(usize, T)>::empty(),
            l.ids() == Seq::<usize>::empty(),
    {
        List { root: None, links: Vec::new(), payloads: Vec::new(), order: Ghost(Seq::empty()) }
    }

    /// Points the root at itself in both directions: the list is now empty
    /// and ready for use.
    pub fn init(&mut self)
        ensures
            final(self).wf(),
            final(self).is_init(),
            final(self)@ == Seq::<(usize, T)>::empty(),
            final(self).ids() == Seq::<usize>::empty(),
    {
        self.root = Some((Ptr::Root, Ptr::Root));
        self.links = Vec::new();
        self.payloads = Vec::new();
        self.order = Ghost(Seq::empty());
    }

    fn get_link(&self, p: Ptr) -> (r: Option<(Ptr, Ptr)>)
        ensures
            r == self.link(p),
    {
        match p {
            Ptr::Root => self.root,
            Ptr::Item(i) => if i < self.links.len() {
                self.links[i]
            } else {
                None
            },
        }
    }

    /// Replaces the `next` link of the cell at `p`, if that cell is linked.
    fn set_next(&mut self, p: Ptr, new_next: Ptr)
        ensures
            final(self).order == old(self).order,
            final(self).payloads == old(self).payloads,
            final(self).links@.len() == old(self).links@.len(),
            final(self).root is Some == old(self).root is Some,
            final(self).link(p) == match old(self).link(p) {
                Some((prev, _)) => Some((prev, new_next)),
                None => None,
            },
            forall|q: Ptr| q != p ==> final(self).link(q) == old(self).link(q),
    {
        match p {
            Ptr::Root => {
                if let Some((prev, _)) = self.root {
                    self.root = Some((prev, new_next));
                }
            },
            Ptr::Item(i) => {
                if i < self.links.len() {
                    if let Some((prev, _)) = self.links[i] {
                        self.links.set(i, Some((prev, new_next)));
                    }
                }
            },
        }
    }

    /// Replaces the `prev` link of the cell at `p`, if that cell is linked.
    fn set_prev(&mut self, p: Ptr, new_prev: Ptr)
        ensures
            final(self).order == old(self).order,
            final(self).payloads == old(self).payloads,
            final(self).links@.len() == old(self).links@.len(),
            final(self).root is Some == old(self).root is Some,
            final(self).link(p) == match old(self).link(p) {
                Some((_, next)) => Some((new_prev, next)),
                None => None,
            },
            forall|q: Ptr| q != p ==> final(self).link(q) == old(self).link(q),
    {
        match p {
            Ptr::Root => {
                if let Some((_, next)) = self.root {
                    self.root = Some((new_prev, next));
                }
            },
            Ptr::Item(i) => {
                if i < self.links.len() {
                    if let Some((_, next)) = self.links[i] {
                        self.links.set(i, Some((new_prev, next)));
                    }
                }
            },
        }
    }
}

impl<T> List<T> {
    /// Makes room for the cell of `id`, leaving every existing cell as it was.
    fn grow(&mut self, id: usize)
        requires
            old(self).wf(),
            old(self).is_init(),
            id < usize::MAX,
        ensures
            final(self).wf(),
            final(self).is_init(),
            id < final(self).links@.len(),
            final(self).order == old(self).order,
            final(self).root == old(self).root,
            forall|j: int| 0 <= j < old(self).links@.len() ==> final(self).links@[j] == old(self).links@[j],
            forall|j: int|
                0 <= j < old(self).payloads@.len() ==> final(self).payloads@[j] == old(self).payloads@[j],
            forall|j: int| old(self).links@.len() <= j < final(self).links@.len() ==> final(self).links@[j] is None,
    {
        let ghost s = self.order@;
        let ghost old_links = self.links@;
        let ghost old_payloads = self.payloads@;
        while self.links.len() <= id
            invariant
                self.wf(),
                self.root is Some,
                self.order@ == s,
                self.root == old(self).root,
                id < usize::MAX,
                self.links@.len() >= old_links.len(),
                forall|j: int| 0 <= j < old_links.len() ==> self.links@[j] == old_links[j],
                forall|j: int| 0 <= j < old_payloads.len() ==> self.payloads@[j] == old_payloads[j],
                forall|j: int| old_links.len() <= j < self.links@.len() ==> self.links@[j] is None,
                old_links.len() == old_payloads.len(),
            decreases id + 1 - self.links@.len(),
        {
            let ghost before_links = self.links@;
            let ghost before_payloads = self.payloads@;
            self.links.push(None);
            self.payloads.push(None);
            proof {
                let r = self.root->0;
                assert forall|k: int| 0 <= k < s.len() implies #[trigger] s[k] < self.links@.len() && self.links@[s[k] as int] == Some(
                    (ptr_at(s, k - 1), ptr_at(s, k + 1)),
                ) by {
                    assert(s[k] < before_links.len());
                    assert(before_links[s[k] as int] == self.links@[s[k] as int]);
                }
                assert forall|k: int| 0 <= k < s.len() implies self.payloads@[#[trigger] s[k] as int] is Some by {
                    assert(s[k] < before_links.len());
                    assert(before_payloads[s[k] as int] == self.payloads@[s[k] as int]);
                }
                assert forall|j: usize| j < self.links@.len() && !s.contains(j) implies #[trigger] self.links@[j as int] is None by {
                    if j < before_links.len() {
                        assert(before_links[j as int] == self.links@[j as int]);
                    }
                }
                assert forall|j: usize| j < self.payloads@.len() && !s.contains(j) implies #[trigger] self.payloads@[j as int] is None by {
                    if j < before_payloads.len() {
                        assert(before_payloads[j as int] == self.payloads@[j as int]);
                    }
                }
                assert(ring(r, self.links@, s));
            }
        }
    }

    /// Links `r` right after the cell at `at`, which stands at position `pos`
    /// of the ring.
    fn link_after(&mut self, at: Ptr, r: Ref<T>, Ghost(pos): Ghost<int>)
        requires
            old(self).wf(),
            old(self).is_init(),
            -1 <= pos < old(self).ids().len(),
            at == ptr_at(old(self).ids(), pos),
            !old(self).ids().contains(r.id),
            r.id < usize::MAX,
        ensures
            final(self).wf(),
            final(self).is_init(),
            final(self).ids() == old(self).ids().insert(pos + 1, r.id),
            final(self).payload(r.id) == r.obj,
            forall|id: usize| old(self).ids().contains(id) ==> final(self).payload(id) == old(self).payload(id),
    {
        let ghost s = self.order@;
        let ghost s2 = s.insert(pos + 1, r.id);
        let Ref { id, obj } = r;
        self.grow(id);
        let ghost g = *self;
        proof {
            lemma_ring_link(g.root->0, g.links@, s, pos);
        }
        let (_, at_next) = self.get_link(at).unwrap();
        self.links.set(id, Some((at, at_next)));
        self.payloads.set(id, Some(obj));
        let ghost g1 = *self;
        self.set_prev(at_next, Ptr::Item(id));
        self.set_next(at, Ptr::Item(id));
        self.order = Ghost(s2);
        proof {
            s.insert_ensures(pos + 1, id);
            lemma_ring_link(g.root->0, g.links@, s, pos + 1);
            assert(at != Ptr::Item(id));
            assert(at_next != Ptr::Item(id));
            assert forall|q: Ptr| link_of(self.root->0, self.links@, q) == linked_in(g.root->0, g.links@, at, at_next, id, q) by {
                assert(self.link(q) == link_of(self.root->0, self.links@, q));
                assert(g.link(q) == link_of(g.root->0, g.links@, q));
                assert(g1.link(q) == if q == Ptr::Item(id) { Some((at, at_next)) } else { g.link(q) });
            }
            lemma_ring_insert(g.root->0, g.links@, s, pos, id, self.root->0, self.links@);
            assert forall|k: int| 0 <= k < s2.len() implies self.payloads@[#[trigger] s2[k] as int] is Some by {
                if k < pos + 1 {
                    assert(s2[k] == s[k]);
                } else if k > pos + 1 {
                    assert(s2[k] == s[k - 1]);
                }
            }
            assert forall|j: usize| j < self.payloads@.len() && !s2.contains(j) implies #[trigger] self.payloads@[j as int] is None by {
                assert(!s.contains(j)) by {
                    if s.contains(j) {
                        let k = choose|k: int| 0 <= k < s.len() && s[k] == j;
                        if k < pos + 1 {
                            assert(s2[k] == s[k]);
                        } else {
                            assert(s2[k + 1] == s[k]);
                        }
                    }
                }
                assert(j != id) by {
                    assert(s2[pos + 1] == id);
                }
            }
            assert forall|x: usize| s.contains(x) implies self.payload(x) == old(self).payload(x) by {
                assert(x != id);
            }
        }
    }
}

/// The elements `s[k]` whose mark `marks[k]` equals `b`, in order.
pub open spec fn pick<A>(s: Seq<A>, marks: Seq<bool>, b: bool) -> Seq<A>
    decreases s.len(),
{
    if s.len() == 0 {
        Seq::empty()
    } else {
        let rest = pick(s.drop_last(), marks.drop_last(), b);
        if marks.last() == b {
            rest.push(s.last())
        } else {
            rest
        }
    }
}

proof fn lemma_pick_step<A>(s: Seq<A>, marks: Seq<bool>, k: int, d: bool, b: bool)
    requires
        0 <= k < s.len(),
        marks.len() == k,
    ensures
        pick(s.subrange(0, k + 1), marks.push(d), b) == if d == b {
            pick(s.subrange(0, k), marks, b).push(s[k])
        } else {
            pick(s.subrange(0, k), marks, b)
        },
{
    assert(s.subrange(0, k + 1).drop_last() =~= s.subrange(0, k));
    assert(marks.push(d).drop_last() =~= marks);
}

proof fn lemma_walk_drop(kept: Seq<usize>, s: Seq<usize>, k: int)
    requires
        0 <= k < s.len(),
    ensures
        (kept + s.subrange(k, s.len() as int)).remove(kept.len() as int) == kept + s.subrange(k + 1, s.len() as int),
        ptr_at(kept + s.subrange(k + 1, s.len() as int), kept.len() as int) == ptr_at(
            kept + s.subrange(k, s.len() as int),
            (kept.len() + 1) as int,
        ),
{
    let cur = kept + s.subrange(k, s.len() as int);
    cur.remove_ensures(kept.len() as int);
    assert(cur.remove(kept.len() as int) =~= kept + s.subrange(k + 1, s.len() as int));
}

proof fn lemma_walk_keep(kept: Seq<usize>, s: Seq<usize>, k: int)
    requires
        0 <= k < s.len(),
    ensures
        kept.push(s[k]) + s.subrange(k + 1, s.len() as int) == kept + s.subrange(k, s.len() as int),
{
    assert(kept.push(s[k]) + s.subrange(k + 1, s.len() as int) =~= kept + s.subrange(k, s.len() as int));
}

proof fn lemma_distinct_in_set(s: Seq<usize>, bound: Set<usize>)
    requires
        s.no_duplicates(),
        bound.finite(),
        forall|k: int| 0 <= k < s.len() ==> bound.contains(#[trigger] s[k]),
    ensures
        s.len() <= bound.len(),
    decreases s.len(),
{
    if s.len() > 0 {
        let x = s.last();
        let s2 = s.drop_last();
        assert forall|k: int| 0 <= k < s2.len() implies bound.remove(x).contains(#[trigger] s2[k]) by {
            assert(s2[k] == s[k]);
            assert(s[k] != s[s.len() - 1]);
        }
        lemma_distinct_in_set(s2, bound.remove(x));
        assert(bound.contains(s[s.len() - 1]));
    }
}

spec fn below(m: nat) -> Set<usize> {
    Set::new(|x: usize| x < m)
}

proof fn lemma_below(m: nat)
    requires
        m <= usize::MAX,
    ensures
        below(m).finite(),
        below(m).len() == m,
    decreases m,
{
    if m == 0 {
        assert(below(m) =~= Set::<usize>::empty());
    } else {
        lemma_below((m - 1) as nat);
        assert(below(m) =~= below((m - 1) as nat).insert((m - 1) as usize));
    }
}

impl<T> List<T> {
    /// Takes the cell of `id` out of the ring, together with the object it
    /// held; `None` when that cell is not linked.
    pub fn unlink(&mut self, id: usize) -> (r: Option<Ref<T>>)
        requires
            old(self).wf(),
        ensures
            final(self).wf(),
            final(self).is_init() == old(self).is_init(),
            old(self).ids().contains(id) ==> {
                let k = old(self).ids().index_of(id);
                &&& r == Some(Ref { id, obj: old(self).payload(id) })
                &&& final(self).ids() == old(self).ids().remove(k)
                &&& final(self)@ == old(self)@.remove(k)
            },
            !old(self).ids().contains(id) ==> r is None && final(self)@ == old(self)@ && final(self).ids()
                == old(self).ids(),
            forall|x: usize| final(self).ids().contains(x) ==> final(self).payload(x) == old(self).payload(x),
    {
        if id >= self.links.len() {
            proof {
                if self.order@.contains(id) {
                    let k = choose|k: int| 0 <= k < self.order@.len() && self.order@[k] == id;
                    assert(self.payloads@[self.order@[k] as int] is Some);
                }
            }
            return None;
        }
        match self.links[id] {
            None => {
                proof {
                    if self.order@.contains(id) {
                        let k = choose|k: int| 0 <= k < self.order@.len() && self.order@[k] == id;
                        assert(self.order@[k] < self.links@.len());
                    }
                }
                None
            },
            Some((prev, next)) => {
                let ghost s = self.order@;
                let ghost g = *self;
                proof {
                    if self.root is None {
                        assert(self.links@[id as int] is None);
                    }
                    assert(s.contains(id));
                }
                let ghost k = s.index_of(id);
                proof {
                    assert(s[k] < self.links@.len());
                    assert(prev == ptr_at(s, k - 1) && next == ptr_at(s, k + 1));
                    lemma_ring_link(g.root->0, g.links@, s, k - 1);
                    lemma_ring_link(g.root->0, g.links@, s, k + 1);
                    assert(prev != Ptr::Item(id)) by {
                        if k >= 1 {
                            assert(s[k - 1] != s[k]);
                        }
                    }
                    assert(next != Ptr::Item(id)) by {
                        if k + 1 < s.len() {
                            assert(s[k + 1] != s[k]);
                        }
                    }
                }
                self.links.set(id, None);
                let mut taken: Option<T> = None;
                self.payloads.set_and_swap(id, &mut taken);
                let ghost g1 = *self;
                self.set_next(prev, next);
                self.set_prev(next, prev);
                let ghost s2 = s.remove(k);
                self.order = Ghost(s2);
                proof {
                    s.remove_ensures(k);
                    assert forall|q: Ptr| link_of(self.root->0, self.links@, q) == unlinked_from(g.root->0, g.links@, prev, next, id, q) by {
                        assert(self.link(q) == link_of(self.root->0, self.links@, q));
                        assert(g.link(q) == link_of(g.root->0, g.links@, q));
                        assert(g1.link(q) == if q == Ptr::Item(id) { None } else { g.link(q) });
                    }
                    lemma_ring_remove(g.root->0, g.links@, s, k, self.root->0, self.links@);
                    assert forall|j: usize| s2.contains(j) <==> (s.contains(j) && j != id) by {
                        if s2.contains(j) {
                            let m = choose|m: int| 0 <= m < s2.len() && s2[m] == j;
                            if m < k {
                                assert(s2[m] == s[m]);
                            } else {
                                assert(s2[m] == s[m + 1]);
                            }
                        }
                        if s.contains(j) && j != id {
                            let m = choose|m: int| 0 <= m < s.len() && s[m] == j;
                            if m < k {
                                assert(s2[m] == s[m]);
                            } else {
                                assert(m != k);
                                assert(s2[m - 1] == s[m]);
                            }
                        }
                    }
                    assert forall|m: int| 0 <= m < s2.len() implies self.payloads@[#[trigger] s2[m] as int] is Some by {
                        let m0 = if m < k { m } else { m + 1 };
                        assert(s2[m] == s[m0]);
                        assert(s[m0] != id);
                    }
                    assert(self@ =~= old(self)@.remove(k)) by {
                        assert forall|m: int| 0 <= m < s2.len() implies self@[m] == old(self)@.remove(k)[m] by {
                            let m0 = if m < k { m } else { m + 1 };
                            assert(s2[m] == s[m0]);
                            assert(s[m0] != id);
                        }
                    }
                }
                Some(Ref { id, obj: taken.unwrap() })
            },
        }
    }

    /// The identity of the head object, if any.
    pub fn peek_head_node(&self) -> (r: Option<usize>)
        requires
            self.wf(),
        ensures
            r == if self.ids().len() == 0 {
                None::<usize>
            } else {
                Some(self.ids()[0])
            },
    {
        match self.root {
            None => None,
            Some((_, next)) => match next {
                Ptr::Root => None,
                Ptr::Item(i) => Some(i),
            },
        }
    }

    /// Whether the object `id` is queued.
    pub fn contains(&self, id: usize) -> (r: bool)
        requires
            self.wf(),
        ensures
            r == self.ids().contains(id),
    {
        proof {
            if self.order@.contains(id) {
                let k = choose|k: int| 0 <= k < self.order@.len() && self.order@[k] == id;
                assert(self.order@[k] < self.links@.len());
            }
        }
        if id < self.links.len() {
            match self.links[id] {
                Some(_) => true,
                None => false,
            }
        } else {
            false
        }
    }

    /// Whether no object is queued.
    pub fn is_empty(&self) -> (r: bool)
        requires
            self.wf(),
        ensures
            r == (self.ids().len() == 0),
            r == (self@.len() == 0),
    {
        self.peek_head_node().is_none()
    }

    /// Links `r` right after the cell at `at` (the root or a queued object),
    /// so that it follows `at` in the queue.
    pub fn insert_head(&mut self, at: Ptr, r: Ref<T>)
        requires
            old(self).wf(),
            old(self).is_init(),
            at == Ptr::Root || (at matches Ptr::Item(i) && old(self).ids().contains(i)),
            !old(self).ids().contains(r.id),
            r.id < usize::MAX,
        ensures
            final(self).wf(),
            final(self).is_init(),
            final(self).ids() == old(self).ids().insert(pos_of(old(self).ids(), at) + 1, r.id),
            final(self)@ == old(self)@.insert(pos_of(old(self).ids(), at) + 1, (r.id, r.obj)),
    {
        let ghost s = self.ids();
        let ghost pos = pos_of(s, at);
        proof {
            if at != Ptr::Root {
                assert(s[pos] == at->0);
            }
        }
        let ghost id = r.id;
        let ghost obj = r.obj;
        self.link_after(at, r, Ghost(pos));
        proof {
            s.insert_ensures(pos + 1, id);
            assert forall|m: int| 0 <= m < s.len() + 1 implies self@[m] == old(self)@.insert(pos + 1, (id, obj))[m] by {
                if m < pos + 1 {
                    assert(self.ids()[m] == s[m]);
                    assert(s.contains(s[m]));
                } else if m > pos + 1 {
                    assert(self.ids()[m] == s[m - 1]);
                    assert(s.contains(s[m - 1]));
                }
            }
            assert(self@ =~= old(self)@.insert(pos + 1, (id, obj)));
        }
    }

    /// Appends `r` at the tail of the queue.
    pub fn enqueue(&mut self, r: Ref<T>)
        requires
            old(self).wf(),
            old(self).is_init(),
            !old(self).ids().contains(r.id),
            r.id < usize::MAX,
        ensures
            final(self).wf(),
            final(self).is_init(),
            final(self).ids() == old(self).ids().push(r.id),
            final(self)@ == old(self)@.push((r.id, r.obj)),
    {
        let ghost s = self.ids();
        let tail = match self.root {
            Some((prev, _)) => prev,
            None => Ptr::Root,
        };
        proof {
            if s.len() > 0 {
                assert(s.contains(s[s.len() - 1]));
                assert(s.index_of(s[s.len() - 1]) == s.len() - 1) by {
                    let j = s.index_of(s[s.len() - 1]);
                    assert(s[j] == s[s.len() - 1]);
                }
            }
        }
        self.insert_head(tail, r);
        proof {
            assert(s.insert(s.len() as int, r.id) =~= s.push(r.id));
            assert(old(self)@.insert(s.len() as int, (r.id, r.obj)) =~= old(self)@.push((r.id, r.obj)));
        }
    }

    /// Appends `r` at the tail of the queue.
    pub fn append(&mut self, r: Ref<T>)
        requires
            old(self).wf(),
            old(self).is_init(),
            !old(self).ids().contains(r.id),
            r.id < usize::MAX,
        ensures
            final(self).wf(),
            final(self).is_init(),
            final(self).ids() == old(self).ids().push(r.id),
            final(self)@ == old(self)@.push((r.id, r.obj)),
    {
        self.enqueue(r)
    }

    /// Takes the head object out of the queue.
    pub fn dequeue(&mut self) -> (r: Option<Ref<T>>)
        requires
            old(self).wf(),
        ensures
            final(self).wf(),
            final(self).is_init() == old(self).is_init(),
            old(self)@.len() == 0 ==> r is None && final(self)@ == old(self)@ && final(self).ids() == old(
                self,
            ).ids(),
            old(self)@.len() > 0 ==> {
                &&& r == Some(Ref { id: old(self)@[0].0, obj: old(self)@[0].1 })
                &&& final(self)@ == old(self)@.drop_first()
                &&& final(self).ids() == old(self).ids().drop_first()
            },
    {
        match self.peek_head_node() {
            None => None,
            Some(i) => {
                let ghost s = self.ids();
                proof {
                    assert(s.contains(s[0]));
                    assert(s.index_of(i) == 0) by {
                        let j = s.index_of(i);
                        assert(s[j] == s[0]);
                    }
                }
                let r = self.unlink(i);
                proof {
                    assert(s.remove(0) =~= s.drop_first());
                    assert(old(self)@.remove(0) =~= old(self)@.drop_first());
                }
                r
            },
        }
    }

    /// Takes the cell `id` out of whatever place it holds in the queue.
    pub fn remove(&mut self, id: usize) -> (r: Option<Ref<T>>)
        requires
            old(self).wf(),
        ensures
            final(self).wf(),
            final(self).is_init() == old(self).is_init(),
            old(self).ids().contains(id) ==> {
                let k = old(self).ids().index_of(id);
                &&& r == Some(Ref { id, obj: old(self).payload(id) })
                &&& final(self).ids() == old(self).ids().remove(k)
                &&& final(self)@ == old(self)@.remove(k)
            },
            !old(self).ids().contains(id) ==> r is None && final(self)@ == old(self)@ && final(self).ids()
                == old(self).ids(),
    {
        self.unlink(id)
    }

    /// The object at the head of the queue.
    pub fn head(&self) -> (r: Option<&T>)
        requires
            self.wf(),
        ensures
            r == if self@.len() == 0 {
                None::<&T>
            } else {
                Some(&self@[0].1)
            },
    {
        match self.peek_head_node() {
            None => None,
            Some(i) => {
                proof {
                    assert(self.payloads@[self.ids()[0] as int] is Some);
                }
                match &self.payloads[i] {
                    Some(p) => Some(p),
                    None => None,
                }
            },
        }
    }

    /// The object at the tail of the queue.
    pub fn tail(&self) -> (r: Option<&T>)
        requires
            self.wf(),
        ensures
            r == if self@.len() == 0 {
                None::<&T>
            } else {
                Some(&self@[self@.len() - 1].1)
            },
    {
        match self.root {
            None => None,
            Some((prev, _)) => match prev {
                Ptr::Root => None,
                Ptr::Item(i) => {
                    proof {
                        let s = self.ids();
                        assert(s[s.len() - 1] < self.links@.len());
                        assert(self.payloads@[s[s.len() - 1] as int] is Some);
                    }
                    match &self.payloads[i] {
                        Some(p) => Some(p),
                        None => None,
                    }
                },
            },
        }
    }
}

impl<T> List<T> {
    /// Walks the queue from head to tail and takes out every object for which
    /// `f` answers `true`; the others keep their order.  The objects taken
    /// out are handed back in queue order.
    #[verifier::rlimit(60)]
    pub fn filter<F: Fn(&T) -> bool>(&mut self, f: F) -> (removed: Vec<Ref<T>>)
        requires
            old(self).wf(),
            forall|x: &T| call_requires(f, (x,)),
        ensures
            final(self).wf(),
            final(self).is_init() == old(self).is_init(),
            exists|del: Seq<bool>|
                {
                    &&& del.len() == old(self).ids().len()
                    &&& forall|j: int|
                        0 <= j < del.len() ==> call_ensures(f, (&old(self).payload(old(self).ids()[j]),), #[trigger] del[j])
                    &&& final(self).ids() == pick(old(self).ids(), del, false)
                    &&& removed@.len() == pick(old(self).ids(), del, true).len()
                    &&& forall|m: int|
                        0 <= m < removed@.len() ==> (#[trigger] removed@[m]).id == pick(old(self).ids(), del, true)[m]
                }
            ,
            forall|x: usize| final(self).ids().contains(x) ==> final(self).payload(x) == old(self).payload(x),
            forall|m: int| 0 <= m < removed@.len() ==> (#[trigger] removed@[m]).obj == old(self).payload(removed@[m].id),
    {
        let ghost s = self.ids();
        let ghost mut del: Seq<bool> = Seq::empty();
        let ghost mut k: int = 0;
        let mut removed: Vec<Ref<T>> = Vec::new();
        let mut item = match self.root {
            Some((_, next)) => next,
            None => Ptr::Root,
        };
        proof {
            assert(s.subrange(0, 0) =~= Seq::<usize>::empty());
            assert(s.subrange(0, s.len() as int) =~= s);
            if self.root is Some {
                lemma_ring_link(self.root->0, self.links@, s, -1);
            }
        }
        while item != Ptr::Root
            invariant
                self.wf(),
                self.is_init() == old(self).is_init(),
                s == old(self).ids(),
                0 <= k <= s.len(),
                del.len() == k,
                self.ids() == pick(s.subrange(0, k), del, false) + s.subrange(k, s.len() as int),
                item == ptr_at(self.ids(), pick(s.subrange(0, k), del, false).len() as int),
                self.ids().len() > 0 ==> self.is_init(),
                forall|j: int| 0 <= j < k ==> call_ensures(f, (&old(self).payload(s[j]),), #[trigger] del[j]),
                forall|x: usize| self.ids().contains(x) ==> self.payload(x) == old(self).payload(x),
                removed@.len() == pick(s.subrange(0, k), del, true).len(),
                forall|m: int| 0 <= m < removed@.len() ==> (#[trigger] removed@[m]).id == pick(s.subrange(0, k), del, true)[m],
                forall|m: int| 0 <= m < removed@.len() ==> (#[trigger] removed@[m]).obj == old(self).payload(removed@[m].id),
                forall|x: &T| call_requires(f, (x,)),
            decreases s.len() - k,
        {
            let ghost cur = self.ids();
            let ghost kept = pick(s.subrange(0, k), del, false);
            let ghost p = kept.len() as int;
            let i = match item {
                Ptr::Item(i) => i,
                Ptr::Root => 0,
            };
            proof {
                assert(p < cur.len());
                assert(cur[p] == s[k]);
                assert(i == s[k]);
                assert(cur.contains(i));
                assert(cur[p] < self.links@.len());
                assert(self.payloads@[cur[p] as int] is Some);
                lemma_ring_link(self.root->0, self.links@, cur, p);
            }
            let d = match &self.payloads[i] {
                Some(obj) => f(obj),
                None => false,
            };
            let next = match self.get_link(item) {
                Some((_, n)) => n,
                None => Ptr::Root,
            };
            proof {
                lemma_pick_step(s, del, k, d, false);
                lemma_pick_step(s, del, k, d, true);
                assert(cur.index_of(i) == p) by {
                    let j = cur.index_of(i);
                    assert(cur[j] == cur[p]);
                }
            }
            if d {
                let r = self.unlink(i);
                match r {
                    Some(r) => {
                        removed.push(r);
                    },
                    None => {},
                }
                proof {
                    lemma_walk_drop(kept, s, k);
                }
            } else {
                proof {
                    lemma_walk_keep(kept, s, k);
                }
            }
            item = next;
            proof {
                del = del.push(d);
                k = k + 1;
            }
        }
        proof {
            let kept = pick(s.subrange(0, k), del, false);
            assert(k == s.len());
            assert(s.subrange(0, k) =~= s);
            assert(self.ids() =~= pick(s, del, false));
        }
        removed
    }

    /// Walks the queue from head to tail and puts `r` next to the first
    /// object for which `f` answers `Some(before)`: in front of it when
    /// `before`, behind it otherwise.  When `f` answers `None` for every
    /// object, `r` is handed back and the queue stays as it was.
    pub fn insert<F: Fn(&T) -> Option<bool>>(&mut self, r: Ref<T>, f: F) -> (rest: Option<Ref<T>>)
        requires
            old(self).wf(),
            old(self).is_init(),
            !old(self).ids().contains(r.id),
            r.id < usize::MAX,
            forall|x: &T| call_requires(f, (x,)),
        ensures
            final(self).wf(),
            final(self).is_init(),
            rest is None ==> exists|k: int, before: bool|
                {
                    &&& 0 <= k < old(self).ids().len()
                    &&& forall|j: int|
                        0 <= j < k ==> call_ensures(f, (&old(self).payload(#[trigger] old(self).ids()[j]),), None::<bool>)
                    &&& call_ensures(f, (&old(self).payload(old(self).ids()[k]),), Some(before))
                    &&& final(self)@ == old(self)@.insert(if before { k } else { k + 1 }, (r.id, r.obj))
                },
            rest is Some ==> {
                &&& rest == Some(r)
                &&& final(self)@ == old(self)@
                &&& forall|j: int|
                    0 <= j < old(self).ids().len() ==> call_ensures(f, (&old(self).payload(#[trigger] old(self).ids()[j]),), None::<bool>)
            },
    {
        let ghost s = self.ids();
        let ghost mut k: int = 0;
        let mut item = match self.root {
            Some((_, next)) => next,
            None => Ptr::Root,
        };
        proof {
            lemma_ring_link(self.root->0, self.links@, s, -1);
        }
        while item != Ptr::Root
            invariant
                self.wf(),
                self.is_init(),
                self.ids() == s,
                self.payloads == old(self).payloads,
                self.links == old(self).links,
                self.root == old(self).root,
                self.order == old(self).order,
                s == old(self).ids(),
                !s.contains(r.id),
                r.id < usize::MAX,
                0 <= k <= s.len(),
                item == ptr_at(s, k),
                forall|j: int| 0 <= j < k ==> call_ensures(f, (&old(self).payload(#[trigger] s[j]),), None::<bool>),
                forall|x: &T| call_requires(f, (x,)),
            decreases s.len() - k,
        {
            let i = match item {
                Ptr::Item(i) => i,
                Ptr::Root => 0,
            };
            proof {
                assert(s[k] < self.links@.len());
                assert(self.payloads@[s[k] as int] is Some);
                lemma_ring_link(self.root->0, self.links@, s, k);
            }
            let answer = match &self.payloads[i] {
                Some(obj) => f(obj),
                None => None,
            };
            let (prev, next) = match self.get_link(item) {
                Some(l) => l,
                None => (Ptr::Root, Ptr::Root),
            };
            match answer {
                Some(before) => {
                    let target = if before { prev } else { item };
                    let ghost tpos = if before { k - 1 } else { k };
                    proof {
                        assert(target == ptr_at(s, tpos));
                        if tpos >= 0 {
                            assert(s.contains(s[tpos]));
                            assert(s.index_of(s[tpos]) == tpos) by {
                                let j = s.index_of(s[tpos]);
                                assert(s[j] == s[tpos]);
                            }
                        }
                        assert(pos_of(s, target) == tpos);
                    }
                    let ghost rid = r.id;
                    let ghost robj = r.obj;
                    self.insert_head(target, r);
                    proof {
                        assert(tpos + 1 == if before { k } else { k + 1 });
                        assert(call_ensures(f, (&old(self).payload(old(self).ids()[k]),), Some(before)));
                        assert(self@ == old(self)@.insert(if before { k } else { k + 1 }, (rid, robj)));
                    }
                    return None;
                },
                None => {},
            }
            item = next;
            proof {
                k = k + 1;
            }
        }
        Some(r)
    }
}

} // verus!
