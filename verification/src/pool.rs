//! An allocate-only pool over a preallocated array of `N` blocks: it hands
//! the blocks out one by one, in array order, each exactly once.
use vstd::prelude::*;

use crate::list::Ref;

verus! {

pub struct Pool<T, const N: usize> {
    used: usize,
    slice: Option<Vec<T>>,
}

impl<T, const N: usize> Pool<T, N> {
    /// How many blocks were handed out.
    pub closed spec fn used(&self) -> usize {
        self.used
    }

    /// The blocks not handed out yet, in the order they will be.
    pub closed spec fn remaining(&self) -> Seq<T> {
        match self.slice {
            Some(v) => v@,
            None => Seq::empty(),
        }
    }

    /// Whether the pool has been given its array.
    pub closed spec fn is_init(&self) -> bool {
        self.slice is Some
    }

    /// At most `N` blocks were handed out, and the blocks left cover the
    /// ones still to hand out.
    pub closed spec fn wf(&self) -> bool {
        &&& self.used <= N
        &&& self.slice matches Some(v) ==> v@.len() >= N - self.used
    }

    /// Once the pool has its array, the blocks handed out and those left
    /// always cover the `N` blocks, and never more than `N` are handed out.
    pub proof fn lemma_accounting(&self)
        requires
            self.wf(),
            self.is_init(),
        ensures
            self.used() <= N,
            self.used() + self.remaining().len() >= N,
    {
    }

    /// A pool that has not been given its array yet.
    pub fn new() -> (p: Self)
        ensures
            p.wf(),
            !p.is_init(),
            p.used() == 0,
    {
        Pool { used: 0, slice: None }
    }

    /// Gives the pool the array it hands out; the count of blocks handed
    /// out so far is kept.
    pub fn init(&mut self, arr: Vec<T>)
        requires
            old(self).wf(),
            arr@.len() == N,
        ensures
            final(self).wf(),
            final(self).is_init(),
            final(self).used() == old(self).used(),
            final(self).remaining() == arr@,
    {
        self.slice = Some(arr);
    }

    /// Hands out the next block with its index in the array; `None` once
    /// all `N` blocks have been handed out.
    pub fn allocate(&mut self) -> (r: Option<Ref<T>>)
        requires
            old(self).wf(),
            old(self).used() < N ==> old(self).is_init(),
        ensures
            final(self).wf(),
            final(self).is_init() == old(self).is_init(),
            old(self).used() < N ==> {
                &&& r == Some(Ref { id: old(self).used(), obj: old(self).remaining()[0] })
                &&& final(self).used() == old(self).used() + 1
                &&& final(self).remaining() == old(self).remaining().drop_first()
            },
            old(self).used() == N ==> r is None && final(self).used() == N && final(self).remaining()
                == old(self).remaining(),
    {
        if self.used < N {
            let mut rest = self.slice.take().unwrap();
            let item = rest.remove(0);
            let id = self.used;
            self.used = id + 1;
            self.slice = Some(rest);
            proof {
                assert(self.remaining() =~= old(self).remaining().drop_first());
            }
            Some(Ref::new(id, item))
        } else {
            None
        }
    }
}

} // verus!
