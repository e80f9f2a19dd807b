//! An executor that runs actors from one run queue per hardware priority.
//!
//! An actor that becomes ready is put at the tail of the run queue of its
//! priority and its interrupt vector is requested; the handler of that
//! vector then takes actors from the run queue one by one and polls them.
use vstd::prelude::*;

use crate::interrupt::{interrupt_prio, interrupt_request, CriticalSection};
use crate::list::{List, Ref};

verus! {

/// Number of available hardware priorities.
pub const NPRIO: u8 = 16;

/// What the executor keeps of an actor: its priority, its interrupt vector,
/// and whether an executor currently runs it (and is where it is resumed).
pub struct Actor {
    pub prio: u8,
    pub vect: u16,
    pub context: bool,
}

impl Actor {
    /// An actor not bound to any executor.
    pub fn new() -> (a: Self)
        ensures
            a.prio == 0,
            a.vect == 0,
            !a.context,
    {
        Actor { prio: 0, vect: 0, context: false }
    }

    /// Makes a woken actor ready again: it leaves its executor's hands and
    /// joins the run queue of its priority.
    pub fn resume(actor: Ref<Actor>, executor: &mut Executor)
        requires
            actor.obj.context,
            old(executor).wf(),
            old(executor).is_init(),
            actor.obj.prio < NPRIO,
            !old(executor).runq_ids(actor.obj.prio as int).contains(actor.id),
            actor.id < usize::MAX,
        ensures
            final(executor).wf(),
            final(executor).is_init(),
            final(executor).runq(actor.obj.prio as int) == old(executor).runq(actor.obj.prio as int).push(
                (actor.id, Actor { prio: actor.obj.prio, vect: actor.obj.vect, context: false }),
            ),
            final(executor).runq_ids(actor.obj.prio as int) == old(executor).runq_ids(actor.obj.prio as int).push(
                actor.id,
            ),
            forall|p: int| 0 <= p < NPRIO && p != actor.obj.prio ==> final(executor).runq(p) == old(executor).runq(p)
                && final(executor).runq_ids(p) == old(executor).runq_ids(p),
    {
        let mut actor = actor;
        actor.obj.context = false;
        let prio = actor.obj.prio;
        let vect = actor.obj.vect;
        executor.activate(prio, vect, actor);
    }
}

pub struct Executor {
    runq: Vec<List<Actor>>,
}

impl Executor {
    /// The actors ready at priority `p`, in the order they became ready.
    pub closed spec fn runq(&self, p: int) -> Seq<(usize, Actor)> {
        self.runq@[p]@
    }

    /// Their identities.
    pub closed spec fn runq_ids(&self, p: int) -> Seq<usize> {
        self.runq@[p].ids()
    }

    /// Whether [`Executor::init`] has been run.
    pub closed spec fn is_init(&self) -> bool {
        forall|p: int| 0 <= p < NPRIO ==> #[trigger] self.runq@[p].is_init()
    }

    pub closed spec fn wf(&self) -> bool {
        &&& self.runq@.len() == NPRIO
        &&& forall|p: int| 0 <= p < NPRIO ==> (#[trigger] self.runq@[p]).wf()
    }

    /// An executor whose run queues still have to be initialised.
    pub fn new() -> (e: Self)
        ensures
            e.wf(),
            !e.is_init(),
            forall|p: int| 0 <= p < NPRIO ==> (#[trigger] e.runq(p)).len() == 0,
    {
        let mut runq: Vec<List<Actor>> = Vec::new();
        let mut i: u8 = 0;
        while i < NPRIO
            invariant
                i <= NPRIO,
                runq@.len() == i,
                forall|p: int| 0 <= p < i ==> (#[trigger] runq@[p]).wf() && !runq@[p].is_init() && runq@[p]@.len() == 0,
            decreases NPRIO - i,
        {
            runq.push(List::new());
            i = i + 1;
        }
        let e = Executor { runq };
        proof {
            assert(!e.runq@[0].is_init());
        }
        e
    }

    /// Makes every run queue ready for use, with no actor ready.
    pub fn init(&mut self)
        requires
            old(self).wf(),
        ensures
            final(self).wf(),
            final(self).is_init(),
            forall|p: int| 0 <= p < NPRIO ==> (#[trigger] final(self).runq(p)).len() == 0,
            forall|p: int| 0 <= p < NPRIO ==> (#[trigger] final(self).runq_ids(p)).len() == 0,
    {
        let mut i: usize = 0;
        while i < NPRIO as usize
            invariant
                0 <= i <= NPRIO,
                self.runq@.len() == NPRIO,
                forall|p: int| 0 <= p < i ==> (#[trigger] self.runq@[p]).wf() && self.runq@[p].is_init() && self.runq@[p]@.len() == 0 && self.runq@[p].ids().len() == 0,
                forall|p: int| i <= p < NPRIO ==> (#[trigger] self.runq@[p]).wf(),
            decreases NPRIO - i,
        {
            self.runq[i].init();
            i = i + 1;
        }
    }

    /// Whether the actor `id` waits in the run queue of `prio`.
    pub fn is_ready(&self, prio: u8, id: usize) -> (r: bool)
        requires
            self.wf(),
            prio < NPRIO,
        ensures
            r == self.runq_ids(prio as int).contains(id),
    {
        self.runq[prio as usize].contains(id)
    }

    /// Takes the actor that has been ready longest out of run queue `vect`.
    pub fn extract(&mut self, vect: u16) -> (r: Option<Ref<Actor>>)
        requires
            old(self).wf(),
            vect < NPRIO,
        ensures
            final(self).wf(),
            final(self).is_init() == old(self).is_init(),
            old(self).runq(vect as int).len() == 0 ==> r is None && final(self).runq(vect as int) == old(self).runq(vect as int),
            old(self).runq(vect as int).len() > 0 ==> {
                &&& r == Some(Ref { id: old(self).runq(vect as int)[0].0, obj: old(self).runq(vect as int)[0].1 })
                &&& final(self).runq(vect as int) == old(self).runq(vect as int).drop_first()
                &&& final(self).runq_ids(vect as int) == old(self).runq_ids(vect as int).drop_first()
            },
            forall|p: int| 0 <= p < NPRIO && p != vect ==> final(self).runq(p) == old(self).runq(p)
                && final(self).runq_ids(p) == old(self).runq_ids(p),
    {
        let lock = CriticalSection::new();
        let ghost g = *self;
        let r = self.runq[vect as usize].dequeue();
        proof {
            assert forall|p: int| 0 <= p < NPRIO && p != vect implies self.runq@[p] == g.runq@[p] by {}
            assert forall|p: int| 0 <= p < NPRIO implies (#[trigger] self.runq@[p]).wf() by {
                if p != vect {
                    assert(self.runq@[p] == g.runq@[p]);
                }
            }
            assert(self.is_init() == g.is_init()) by {
                if g.is_init() {
                    assert forall|p: int| 0 <= p < NPRIO implies #[trigger] self.runq@[p].is_init() by {
                        if p != vect {
                            assert(self.runq@[p] == g.runq@[p]);
                        }
                    }
                } else {
                    let p = choose|p: int| 0 <= p < NPRIO && !g.runq@[p].is_init();
                    if p != vect {
                        assert(self.runq@[p] == g.runq@[p]);
                    }
                    assert(!self.runq@[p].is_init());
                }
            }
        }
        lock.exit();
        r
    }

    /// The next actor to run for interrupt `vect`, now run by this executor;
    /// the handler of `vect` polls it and asks again until `None`.
    pub fn schedule(&mut self, vect: u16) -> (r: Option<Ref<Actor>>)
        requires
            old(self).wf(),
            vect < NPRIO,
        ensures
            final(self).wf(),
            final(self).is_init() == old(self).is_init(),
            old(self).runq(vect as int).len() == 0 ==> r is None && final(self).runq(vect as int) == old(self).runq(vect as int),
            old(self).runq(vect as int).len() > 0 ==> {
                let (id, a) = old(self).runq(vect as int)[0];
                &&& r == Some(Ref { id, obj: Actor { prio: a.prio, vect: a.vect, context: true } })
                &&& final(self).runq(vect as int) == old(self).runq(vect as int).drop_first()
                &&& final(self).runq_ids(vect as int) == old(self).runq_ids(vect as int).drop_first()
            },
            forall|p: int| 0 <= p < NPRIO && p != vect ==> final(self).runq(p) == old(self).runq(p)
                && final(self).runq_ids(p) == old(self).runq_ids(p),
    {
        match self.extract(vect) {
            Some(wrapper) => {
                let mut actor = wrapper;
                actor.obj.context = true;
                Some(actor)
            },
            None => None,
        }
    }

    /// Puts `wrapper` at the tail of the run queue of `prio` and requests
    /// the interrupt `vect` that runs it.
    pub fn activate(&mut self, prio: u8, vect: u16, wrapper: Ref<Actor>)
        requires
            old(self).wf(),
            old(self).is_init(),
            prio < NPRIO,
            !old(self).runq_ids(prio as int).contains(wrapper.id),
            wrapper.id < usize::MAX,
        ensures
            final(self).wf(),
            final(self).is_init(),
            final(self).runq(prio as int) == old(self).runq(prio as int).push((wrapper.id, wrapper.obj)),
            final(self).runq_ids(prio as int) == old(self).runq_ids(prio as int).push(wrapper.id),
            forall|p: int| 0 <= p < NPRIO && p != prio ==> final(self).runq(p) == old(self).runq(p)
                && final(self).runq_ids(p) == old(self).runq_ids(p),
    {
        let lock = CriticalSection::new();
        let ghost g = *self;
        self.runq[prio as usize].enqueue(wrapper);
        proof {
            assert forall|p: int| 0 <= p < NPRIO && p != prio implies self.runq@[p] == g.runq@[p] by {}
            assert forall|p: int| 0 <= p < NPRIO implies (#[trigger] self.runq@[p]).wf() by {
                if p != prio {
                    assert(self.runq@[p] == g.runq@[p]);
                }
            }
            assert forall|p: int| 0 <= p < NPRIO implies #[trigger] self.runq@[p].is_init() by {
                if p != prio {
                    assert(self.runq@[p] == g.runq@[p]);
                }
            }
        }
        interrupt_request(vect);
        lock.exit();
    }

    /// Binds `actor` to this executor, which from now on is where it is
    /// resumed; the caller then polls the actor's future for the first time.
    pub fn spawn(&self, actor: &mut Actor)
        ensures
            final(actor).context,
            final(actor).prio == old(actor).prio,
            final(actor).vect == old(actor).vect,
    {
        actor.context = true;
    }

    /// The actors for a list of interrupt vectors, in the same order: each
    /// gets its vector, the vector's priority, and this executor.
    pub fn prepare(&self, vects: &Vec<u16>) -> (actors: Vec<Actor>)
        ensures
            actors@.len() == vects@.len(),
            forall|k: int|
                0 <= k < vects@.len() ==> (#[trigger] actors@[k]).vect == vects@[k] && actors@[k].prio == 0
                    && actors@[k].context,
    {
        let mut actors: Vec<Actor> = Vec::new();
        let mut k: usize = 0;
        while k < vects.len()
            invariant
                k <= vects@.len(),
                actors@.len() == k,
                forall|j: int|
                    0 <= j < k ==> (#[trigger] actors@[j]).vect == vects@[j] && actors@[j].prio == 0 && actors@[j].context,
            decreases vects@.len() - k,
        {
            let mut actor = Actor::new();
            actor.vect = vects[k];
            actor.prio = interrupt_prio(vects[k]);
            self.spawn(&mut actor);
            actors.push(actor);
            k = k + 1;
        }
        actors
    }
}

} // verus!
