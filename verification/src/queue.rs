//! Message queues whose messages come from a fixed pool.
//!
//! A [`Queue`] holds either messages waiting for a receiver or receivers
//! waiting for a message, never both.  A receiver waits by lending the queue
//! its wait block; a sender that finds a waiting receiver puts the message
//! into the receiver's wait block and hands the block back, so that the
//! receiver can be woken.  A [`Pool`] hands out the messages of a fixed
//! array one by one and takes them back when their [`Envelope`] is done.
use vstd::prelude::*;

use crate::interrupt::CriticalSection;
use crate::list::{List, Ref};

verus! {

/// A message: its payload and whether a pool handed it out (and so takes it
/// back).
pub struct Message<T> {
    pub parent: bool,
    pub payload: T,
}

impl<T> Message<T> {
    /// A message carrying `data`, not yet owned by any pool.
    pub fn new(data: T) -> (m: Self)
        ensures
            !m.parent,
            m.payload == data,
    {
        Message { parent: false, payload: data }
    }
}

/// A message with its identity.
pub type MsgRef<T> = Ref<Message<T>>;

/// Exclusive access to one message while it is being used.
pub struct Envelope<T> {
    content: MsgRef<T>,
}

impl<T> Envelope<T> {
    /// The message in the envelope.
    pub closed spec fn msg(&self) -> MsgRef<T> {
        self.content
    }

    /// Puts a message into an envelope.
    pub fn new(msg: MsgRef<T>) -> (e: Self)
        ensures
            e.msg() == msg,
    {
        Envelope { content: msg }
    }

    /// Takes the message out of the envelope.
    pub fn into(self) -> (msg: MsgRef<T>)
        ensures
            msg == self.msg(),
    {
        self.content
    }

    /// The identity of the message.
    pub fn id(&self) -> (id: usize)
        ensures
            id == self.msg().id,
    {
        self.content.id
    }

    /// Whether a pool handed the message out, and so takes it back.
    pub fn parent(&self) -> (p: bool)
        ensures
            p == self.msg().obj.parent,
    {
        self.content.obj.parent
    }

    /// The payload of the message.
    pub fn get(&self) -> (p: &T)
        ensures
            *p == self.msg().obj.payload,
    {
        &self.content.obj.payload
    }

    /// Replaces the payload of the message.
    pub fn set(&mut self, data: T)
        ensures
            final(self).msg().id == old(self).msg().id,
            final(self).msg().obj.parent == old(self).msg().obj.parent,
            final(self).msg().obj.payload == data,
    {
        self.content.obj.payload = data;
    }
}

/// What a receiver lends a queue while it waits: the slot the message is
/// delivered into.
pub struct QWaitBlk<T> {
    pub msg: Option<MsgRef<T>>,
}

/// A wait block with its identity.
pub type WbRef<T> = Ref<QWaitBlk<T>>;

/// The block `wb` after `msg` was delivered into it.
pub open spec fn delivered<T>(wb: (usize, QWaitBlk<T>), msg: MsgRef<T>) -> WbRef<T> {
    Ref { id: wb.0, obj: QWaitBlk { msg: Some(msg) } }
}

pub struct Queue<T> {
    msgs: List<Message<T>>,
    subscribers: List<QWaitBlk<T>>,
}

impl<T> Queue<T> {
    /// Messages waiting for a receiver, oldest first.
    pub closed spec fn messages(&self) -> Seq<(usize, Message<T>)> {
        self.msgs@
    }

    /// Receivers waiting for a message, longest waiting first.
    pub closed spec fn waiters(&self) -> Seq<(usize, QWaitBlk<T>)> {
        self.subscribers@
    }

    /// Identities of the waiting messages.
    pub closed spec fn message_ids(&self) -> Seq<usize> {
        self.msgs.ids()
    }

    /// Identities of the waiting receivers' blocks.
    pub closed spec fn waiter_ids(&self) -> Seq<usize> {
        self.subscribers.ids()
    }

    /// Whether [`Queue::init`] has been run.
    pub closed spec fn is_init(&self) -> bool {
        self.msgs.is_init() && self.subscribers.is_init()
    }

    /// Both lists are well formed, and messages and receivers never wait at
    /// the same time.
    pub closed spec fn wf(&self) -> bool {
        &&& self.msgs.wf()
        &&& self.subscribers.wf()
        &&& self.msgs.is_init() == self.subscribers.is_init()
        &&& self.msgs@.len() == 0 || self.subscribers@.len() == 0
    }

    /// The identities of the waiting messages and receivers are those their
    /// views carry, pairwise distinct and below `usize::MAX`.
    pub proof fn lemma_ids(&self)
        requires
            self.wf(),
        ensures
            self.message_ids().len() == self.messages().len(),
            self.waiter_ids().len() == self.waiters().len(),
            forall|k: int| 0 <= k < self.messages().len() ==> #[trigger] self.messages()[k].0 == self.message_ids()[k],
            forall|k: int| 0 <= k < self.waiters().len() ==> #[trigger] self.waiters()[k].0 == self.waiter_ids()[k],
            self.message_ids().no_duplicates(),
            self.waiter_ids().no_duplicates(),
            forall|k: int| 0 <= k < self.message_ids().len() ==> #[trigger] self.message_ids()[k] < usize::MAX,
            forall|k: int| 0 <= k < self.waiter_ids().len() ==> #[trigger] self.waiter_ids()[k] < usize::MAX,
    {
        self.msgs.lemma_ids_distinct();
        self.subscribers.lemma_ids_distinct();
    }

    /// Messages and receivers never wait at the same time.
    pub proof fn lemma_exclusive(&self)
        requires
            self.wf(),
        ensures
            self.messages().len() == 0 || self.waiters().len() == 0,
    {
    }

    /// A queue that still has to be initialised.
    pub fn new() -> (q: Self)
        ensures
            q.wf(),
            !q.is_init(),
            q.messages().len() == 0,
            q.waiters().len() == 0,
    {
        Queue { msgs: List::new(), subscribers: List::new() }
    }

    /// Makes the queue ready for use, with nothing waiting.
    pub fn init(&mut self)
        ensures
            final(self).wf(),
            final(self).is_init(),
            final(self).messages().len() == 0,
            final(self).waiters().len() == 0,
            final(self).message_ids().len() == 0,
            final(self).waiter_ids().len() == 0,
    {
        self.msgs.init();
        self.subscribers.init();
    }

    /// Whether the message `id` is among the waiting messages.
    pub fn has_message(&self, id: usize) -> (r: bool)
        requires
            self.wf(),
        ensures
            r == self.message_ids().contains(id),
    {
        self.msgs.contains(id)
    }

    /// Whether the receiver's block `id` is among the waiting ones.
    pub fn has_waiter(&self, id: usize) -> (r: bool)
        requires
            self.wf(),
        ensures
            r == self.waiter_ids().contains(id),
    {
        self.subscribers.contains(id)
    }

    /// A receiver asks for a message.  When one is waiting, it comes back in
    /// an envelope together with the receiver's block; otherwise the block
    /// joins the waiting receivers and `None` is returned.
    pub fn get(&mut self, wb: WbRef<T>) -> (r: Option<(Envelope<T>, WbRef<T>)>)
        requires
            old(self).wf(),
            old(self).is_init(),
            !old(self).waiter_ids().contains(wb.id),
            wb.id < usize::MAX,
        ensures
            final(self).wf(),
            final(self).is_init(),
            old(self).messages().len() == 0 ==> {
                &&& r is None
                &&& final(self).messages() == old(self).messages()
                &&& final(self).waiters() == old(self).waiters().push((wb.id, wb.obj))
                &&& final(self).message_ids() == old(self).message_ids()
                &&& final(self).waiter_ids() == old(self).waiter_ids().push(wb.id)
            },
            old(self).messages().len() > 0 ==> {
                &&& r matches Some((e, b)) && b == wb && e.msg() == (Ref {
                    id: old(self).messages()[0].0,
                    obj: old(self).messages()[0].1,
                })
                &&& final(self).messages() == old(self).messages().drop_first()
                &&& final(self).waiters() == old(self).waiters()
                &&& final(self).message_ids() == old(self).message_ids().drop_first()
                &&& final(self).waiter_ids() == old(self).waiter_ids()
            },
    {
        let lock = CriticalSection::new();
        let r = if self.msgs.is_empty() {
            self.subscribers.enqueue(wb);
            None
        } else {
            match self.msgs.dequeue() {
                Some(msg) => Some((Envelope::new(msg), wb)),
                None => None,
            }
        };
        lock.exit();
        r
    }

    /// Delivers a message: to the longest waiting receiver, whose block
    /// comes back with the message in it so that the receiver can be woken,
    /// or, when no receiver waits, to the tail of the waiting messages.
    pub fn put_internal(&mut self, msg: MsgRef<T>) -> (woken: Option<WbRef<T>>)
        requires
            old(self).wf(),
            old(self).is_init(),
            !old(self).message_ids().contains(msg.id),
            msg.id < usize::MAX,
        ensures
            final(self).wf(),
            final(self).is_init(),
            old(self).waiters().len() == 0 ==> {
                &&& woken is None
                &&& final(self).messages() == old(self).messages().push((msg.id, msg.obj))
                &&& final(self).waiters() == old(self).waiters()
                &&& final(self).message_ids() == old(self).message_ids().push(msg.id)
                &&& final(self).waiter_ids() == old(self).waiter_ids()
            },
            old(self).waiters().len() > 0 ==> {
                &&& woken == Some(delivered(old(self).waiters()[0], msg))
                &&& final(self).messages() == old(self).messages()
                &&& final(self).waiters() == old(self).waiters().drop_first()
                &&& final(self).message_ids() == old(self).message_ids()
                &&& final(self).waiter_ids() == old(self).waiter_ids().drop_first()
            },
    {
        let lock = CriticalSection::new();
        let r = if self.subscribers.is_empty() {
            self.msgs.enqueue(msg);
            None
        } else {
            match self.subscribers.dequeue() {
                Some(subscriber) => {
                    let mut subscriber = subscriber;
                    subscriber.obj.msg = Some(msg);
                    Some(subscriber)
                },
                None => None,
            }
        };
        lock.exit();
        r
    }

    /// Sends the message in `msg` (see [`Queue::put_internal`]).
    pub fn put(&mut self, msg: Envelope<T>) -> (woken: Option<WbRef<T>>)
        requires
            old(self).wf(),
            old(self).is_init(),
            !old(self).message_ids().contains(msg.msg().id),
            msg.msg().id < usize::MAX,
        ensures
            final(self).wf(),
            final(self).is_init(),
            old(self).waiters().len() == 0 ==> {
                &&& woken is None
                &&& final(self).messages() == old(self).messages().push((msg.msg().id, msg.msg().obj))
                &&& final(self).waiters() == old(self).waiters()
                &&& final(self).message_ids() == old(self).message_ids().push(msg.msg().id)
                &&& final(self).waiter_ids() == old(self).waiter_ids()
            },
            old(self).waiters().len() > 0 ==> {
                &&& woken == Some(delivered(old(self).waiters()[0], msg.msg()))
                &&& final(self).messages() == old(self).messages()
                &&& final(self).waiters() == old(self).waiters().drop_first()
                &&& final(self).message_ids() == old(self).message_ids()
                &&& final(self).waiter_ids() == old(self).waiter_ids().drop_first()
            },
    {
        self.put_internal(msg.into())
    }
}

/// The part of a receiver's wait that is not plumbing: the block it lends
/// the queue, and where the block ends up once a message arrived at once.
pub struct QueueFuture<T> {
    pub wb: Option<WbRef<T>>,
    pub done: Option<WbRef<T>>,
}

impl<T> QueueFuture<T> {
    /// A wait that has not asked its queue yet.
    pub fn new(wb: WbRef<T>) -> (f: Self)
        ensures
            f.wb == Some(wb),
            f.done is None,
    {
        QueueFuture { wb: Some(wb), done: None }
    }

    /// One poll of the wait.  The first poll asks `source` for a message:
    /// when one is there it is put into the block, which is kept in `done`,
    /// and the wait is over; otherwise the block waits in the queue and the
    /// wait is pending.  Any later poll finds the wait over (the block is
    /// then with whoever delivered the message to it).
    pub fn poll(&mut self, source: &mut Queue<T>) -> (ready: bool)
        requires
            old(source).wf(),
            old(source).is_init(),
            old(self).wb matches Some(b) ==> !old(source).waiter_ids().contains(b.id) && b.id < usize::MAX,
        ensures
            final(source).wf(),
            final(source).is_init(),
            final(self).wb is None,
            old(self).wb is None ==> ready && final(self).done == old(self).done && *final(source) == *old(
                source,
            ),
            old(self).wb matches Some(b) ==> {
                &&& old(source).messages().len() == 0 ==> {
                    &&& !ready
                    &&& final(self).done == old(self).done
                    &&& final(source).messages() == old(source).messages()
                    &&& final(source).waiters() == old(source).waiters().push((b.id, b.obj))
                    &&& final(source).message_ids() == old(source).message_ids()
                    &&& final(source).waiter_ids() == old(source).waiter_ids().push(b.id)
                }
                &&& old(source).messages().len() > 0 ==> {
                    &&& ready
                    &&& final(self).done == Some(
                        delivered(
                            (b.id, b.obj),
                            Ref { id: old(source).messages()[0].0, obj: old(source).messages()[0].1 },
                        ),
                    )
                    &&& final(source).messages() == old(source).messages().drop_first()
                    &&& final(source).waiters() == old(source).waiters()
                    &&& final(source).message_ids() == old(source).message_ids().drop_first()
                    &&& final(source).waiter_ids() == old(source).waiter_ids()
                }
            },
    {
        match self.wb.take() {
            Some(wb) => match source.get(wb) {
                Some((msg, oldwb)) => {
                    let mut block = oldwb;
                    block.obj.msg = Some(msg.into());
                    self.done = Some(block);
                    true
                },
                None => false,
            },
            None => true,
        }
    }
}

pub struct Pool<T> {
    pool: Queue<T>,
    slice: Option<Vec<Message<T>>>,
    next_id: usize,
}

impl<T> Pool<T> {
    /// The messages never handed out yet, in the order they will be.
    pub closed spec fn fresh(&self) -> Seq<Message<T>> {
        match self.slice {
            Some(v) => v@,
            None => Seq::empty(),
        }
    }

    /// The identity the next fresh message gets: its index in the array
    /// the pool was given.
    pub closed spec fn next_id(&self) -> usize {
        self.next_id
    }

    /// Messages handed back to the pool, oldest first.
    pub closed spec fn free(&self) -> Seq<(usize, Message<T>)> {
        self.pool.messages()
    }

    /// Identities of the messages handed back.
    pub closed spec fn free_ids(&self) -> Seq<usize> {
        self.pool.message_ids()
    }

    /// Receivers waiting for a message to come back.
    pub closed spec fn waiters(&self) -> Seq<(usize, QWaitBlk<T>)> {
        self.pool.waiters()
    }

    /// Identities of the waiting receivers' blocks.
    pub closed spec fn waiter_ids(&self) -> Seq<usize> {
        self.pool.waiter_ids()
    }

    /// Whether [`Pool::init`] has been run.
    pub closed spec fn is_init(&self) -> bool {
        self.pool.is_init()
    }

    /// Whether the pool still holds its array, or the part of it not yet
    /// handed out.  It lets go of the array with the last fresh message.
    pub closed spec fn has_slice(&self) -> bool {
        self.slice is Some
    }

    pub closed spec fn wf(&self) -> bool {
        &&& self.pool.wf()
        &&& forall|k: int| 0 <= k < self.pool.messages().len() ==> (#[trigger] self.pool.messages()[k]).1.parent
        &&& self.slice matches Some(v) ==> self.next_id + v@.len() <= usize::MAX
    }

    /// The messages handed back all belong to the pool, their identities are
    /// those the free list carries, and a pool that let go of its array has
    /// no fresh message left.
    pub proof fn lemma_free(&self)
        requires
            self.wf(),
        ensures
            forall|k: int| 0 <= k < self.free().len() ==> (#[trigger] self.free()[k]).1.parent,
            self.free_ids().len() == self.free().len(),
            forall|k: int| 0 <= k < self.free().len() ==> #[trigger] self.free()[k].0 == self.free_ids()[k],
            self.free_ids().no_duplicates(),
            self.waiter_ids().len() == self.waiters().len(),
            forall|k: int| 0 <= k < self.waiters().len() ==> #[trigger] self.waiters()[k].0 == self.waiter_ids()[k],
            self.waiter_ids().no_duplicates(),
            !self.has_slice() ==> self.fresh().len() == 0,
    {
        self.pool.lemma_ids();
    }

    /// An empty pool, still to be given its messages.
    pub fn new() -> (p: Self)
        ensures
            p.wf(),
            !p.is_init(),
            !p.has_slice(),
            p.fresh().len() == 0,
            p.free().len() == 0,
            p.waiters().len() == 0,
    {
        Pool { pool: Queue::new(), slice: None, next_id: 0 }
    }

    /// Gives the pool the messages it hands out.  Each gets its index in
    /// `arr` as identity.
    pub fn init(&mut self, arr: Vec<Message<T>>)
        requires
            arr@.len() < usize::MAX,
        ensures
            final(self).wf(),
            final(self).is_init(),
            final(self).has_slice(),
            final(self).fresh() == arr@,
            final(self).next_id() == 0,
            final(self).free().len() == 0,
            final(self).free_ids().len() == 0,
            final(self).waiters().len() == 0,
            final(self).waiter_ids().len() == 0,
    {
        self.pool.init();
        self.slice = Some(arr);
        self.next_id = 0;
    }

    /// Hands out a message: the next fresh one while there are any, then
    /// the one handed back longest ago; `None` when there is neither.
    pub fn allocate(&mut self) -> (r: Option<Envelope<T>>)
        requires
            old(self).wf(),
            old(self).is_init(),
            old(self).has_slice() ==> old(self).fresh().len() > 0,
        ensures
            final(self).wf(),
            final(self).is_init(),
            final(self).has_slice() == (old(self).has_slice() && old(self).fresh().len() > 1),
            final(self).waiters() == old(self).waiters(),
            final(self).waiter_ids() == old(self).waiter_ids(),
            r matches Some(e) ==> e.msg().obj.parent,
            old(self).fresh().len() > 0 ==> {
                &&& r matches Some(e) && e.msg() == (Ref {
                    id: old(self).next_id(),
                    obj: Message { parent: true, payload: old(self).fresh()[0].payload },
                })
                &&& final(self).fresh() == old(self).fresh().drop_first()
                &&& final(self).next_id() == old(self).next_id() + 1
                &&& final(self).free() == old(self).free()
                &&& final(self).free_ids() == old(self).free_ids()
            },
            old(self).fresh().len() == 0 ==> {
                &&& final(self).fresh().len() == 0
                &&& final(self).next_id() == old(self).next_id()
                &&& old(self).free().len() == 0 ==> r is None && final(self).free() == old(self).free()
                    && final(self).free_ids() == old(self).free_ids()
                &&& old(self).free().len() > 0 ==> {
                    &&& r matches Some(e) && e.msg() == (Ref { id: old(self).free()[0].0, obj: old(self).free()[0].1 })
                    &&& final(self).free() == old(self).free().drop_first()
                    &&& final(self).free_ids() == old(self).free_ids().drop_first()
                }
            },
    {
        let lock = CriticalSection::new();
        let r = match self.slice.take() {
            Some(slice) => {
                let mut rest = slice;
                let mut item = rest.remove(0);
                let id = self.next_id;
                self.next_id = id + 1;
                if rest.len() > 0 {
                    self.slice = Some(rest);
                }
                item.parent = true;
                proof {
                    assert(self.fresh() =~= old(self).fresh().drop_first());
                }
                Some(Envelope::new(Ref::new(id, item)))
            },
            None => {
                proof {
                    if self.pool.messages().len() > 0 {
                        assert(self.pool.messages()[0].1.parent);
                    }
                }
                let m = self.pool.msgs.dequeue();
                proof {
                    assert forall|k: int| 0 <= k < self.pool.messages().len() implies (#[trigger] self.pool.messages()[k]).1.parent by {
                        assert(self.pool.messages()[k] == old(self).pool.messages()[k + 1]);
                    }
                }
                match m {
                    Some(msg) => Some(Envelope::new(msg)),
                    None => None,
                }
            },
        };
        lock.exit();
        r
    }

    /// A receiver asks the pool for a message: one handed out at once comes
    /// back with the receiver's block; otherwise the block waits for a
    /// message to be handed back and `None` is returned.
    pub fn get(&mut self, wb: WbRef<T>) -> (r: Option<(Envelope<T>, WbRef<T>)>)
        requires
            old(self).wf(),
            old(self).is_init(),
            old(self).has_slice() ==> old(self).fresh().len() > 0,
            !old(self).waiter_ids().contains(wb.id),
            wb.id < usize::MAX,
        ensures
            final(self).wf(),
            final(self).is_init(),
            final(self).has_slice() == (old(self).has_slice() && old(self).fresh().len() > 1),
            old(self).fresh().len() > 0 ==> {
                &&& r matches Some((e, b)) && b == wb && e.msg() == (Ref {
                    id: old(self).next_id(),
                    obj: Message { parent: true, payload: old(self).fresh()[0].payload },
                })
                &&& final(self).fresh() == old(self).fresh().drop_first()
                &&& final(self).next_id() == old(self).next_id() + 1
                &&& final(self).free() == old(self).free()
                &&& final(self).waiters() == old(self).waiters()
            },
            old(self).fresh().len() == 0 && old(self).free().len() > 0 ==> {
                &&& r matches Some((e, b)) && b == wb && e.msg() == (Ref {
                    id: old(self).free()[0].0,
                    obj: old(self).free()[0].1,
                })
                &&& final(self).fresh().len() == 0
                &&& final(self).free() == old(self).free().drop_first()
                &&& final(self).waiters() == old(self).waiters()
            },
            old(self).fresh().len() == 0 && old(self).free().len() == 0 ==> {
                &&& r is None
                &&& final(self).fresh().len() == 0
                &&& final(self).free() == old(self).free()
                &&& final(self).waiters() == old(self).waiters().push((wb.id, wb.obj))
                &&& final(self).waiter_ids() == old(self).waiter_ids().push(wb.id)
            },
    {
        match self.allocate() {
            Some(msg) => Some((msg, wb)),
            None => self.pool.get(wb),
        }
    }

    /// Whether the message `id` is among those handed back.
    pub fn is_free(&self, id: usize) -> (r: bool)
        requires
            self.wf(),
        ensures
            r == self.free_ids().contains(id),
    {
        self.pool.has_message(id)
    }

    /// Whether the receiver's block `id` waits for a message to come back.
    pub fn is_waiting(&self, id: usize) -> (r: bool)
        requires
            self.wf(),
        ensures
            r == self.waiter_ids().contains(id),
    {
        self.pool.has_waiter(id)
    }

    /// Takes back a message the pool handed out: it goes to the receiver
    /// waiting longest, whose block comes back with it, or else joins the
    /// free messages.
    pub fn recycle(&mut self, msg: Envelope<T>) -> (woken: Option<WbRef<T>>)
        requires
            old(self).wf(),
            old(self).is_init(),
            msg.msg().obj.parent,
            !old(self).free_ids().contains(msg.msg().id),
            msg.msg().id < usize::MAX,
        ensures
            final(self).wf(),
            final(self).is_init(),
            final(self).fresh() == old(self).fresh(),
            final(self).has_slice() == old(self).has_slice(),
            final(self).next_id() == old(self).next_id(),
            old(self).waiters().len() == 0 ==> {
                &&& woken is None
                &&& final(self).free() == old(self).free().push((msg.msg().id, msg.msg().obj))
                &&& final(self).free_ids() == old(self).free_ids().push(msg.msg().id)
                &&& final(self).waiters() == old(self).waiters()
            },
            old(self).waiters().len() > 0 ==> {
                &&& woken == Some(delivered(old(self).waiters()[0], msg.msg()))
                &&& final(self).free() == old(self).free()
                &&& final(self).waiters() == old(self).waiters().drop_first()
                &&& final(self).waiter_ids() == old(self).waiter_ids().drop_first()
            },
    {
        self.pool.put_internal(msg.into())
    }
}

} // verus!
