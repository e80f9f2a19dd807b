use rtkit::list::Ref;
use rtkit::queue::{Envelope, Message, Pool, QWaitBlk, Queue, QueueFuture};

fn envelope(id: usize, data: u32) -> Envelope<u32> {
    Envelope::new(Ref::new(id, Message::new(data)))
}

fn block(id: usize) -> Ref<QWaitBlk<u32>> {
    Ref::new(id, QWaitBlk { msg: None })
}

#[test]
fn message_new_has_no_parent() {
    let m = Message::new(42u32);
    assert!(!m.parent);
    assert_eq!(m.payload, 42);
}

#[test]
fn envelope_access() {
    let mut e = envelope(3, 7);
    assert_eq!(e.id(), 3);
    assert_eq!(*e.get(), 7);
    e.set(9);
    assert_eq!(*e.get(), 9);
    let r = e.into();
    assert_eq!(r.id, 3);
    assert_eq!(r.obj.payload, 9);
}

#[test]
fn put_then_get_in_order() {
    let mut q: Queue<u32> = Queue::new();
    q.init();
    assert!(q.put(envelope(0, 10)).is_none());
    assert!(q.put(envelope(1, 11)).is_none());
    let (e, wb) = q.get(block(5)).unwrap();
    assert_eq!(wb.id, 5);
    assert_eq!((e.id(), *e.get()), (0, 10));
    let (e, _) = q.get(block(5)).unwrap();
    assert_eq!((e.id(), *e.get()), (1, 11));
}

#[test]
fn get_on_empty_waits_and_put_delivers() {
    let mut q: Queue<u32> = Queue::new();
    q.init();
    assert!(q.get(block(1)).is_none());
    assert!(q.get(block(2)).is_none());
    let woken = q.put(envelope(0, 5)).unwrap();
    assert_eq!(woken.id, 1);
    let msg = woken.obj.msg.unwrap();
    assert_eq!((msg.id, msg.obj.payload), (0, 5));
    let woken = q.put(envelope(4, 6)).unwrap();
    assert_eq!(woken.id, 2);
    // Nobody waits any more: the next message is queued.
    assert!(q.put(envelope(7, 8)).is_none());
}

#[test]
fn queue_future_ready_at_once() {
    let mut q: Queue<u32> = Queue::new();
    q.init();
    q.put(envelope(0, 3));
    let mut f = QueueFuture::new(block(9));
    assert!(f.poll(&mut q));
    let done = f.done.take().unwrap();
    assert_eq!(done.id, 9);
    assert_eq!(done.obj.msg.unwrap().obj.payload, 3);
    assert!(f.poll(&mut q));
}

#[test]
fn queue_future_pending_until_delivery() {
    let mut q: Queue<u32> = Queue::new();
    q.init();
    let mut f = QueueFuture::new(block(9));
    assert!(!f.poll(&mut q));
    let woken = q.put(envelope(2, 4)).unwrap();
    assert_eq!(woken.id, 9);
    assert!(f.poll(&mut q));
    assert!(f.done.is_none());
}

fn pool_of(n: usize) -> Pool<u32> {
    let mut p: Pool<u32> = Pool::new();
    let mut arr = Vec::new();
    for i in 0..n {
        arr.push(Message::new(100 + i as u32));
    }
    p.init(arr);
    p
}

#[test]
fn pool_hands_out_array_in_order_then_recycled() {
    let mut p = pool_of(2);
    let a = p.allocate().unwrap();
    let b = p.allocate().unwrap();
    assert_eq!((a.id(), *a.get()), (0, 100));
    assert_eq!((b.id(), *b.get()), (1, 101));
    assert!(p.allocate().is_none());
    assert!(p.recycle(b).is_none());
    let c = p.allocate().unwrap();
    assert_eq!(c.id(), 1);
    assert!(c.into().obj.parent);
}

#[test]
fn pool_get_waits_when_exhausted() {
    let mut p = pool_of(1);
    let (a, wb) = p.get(block(0)).unwrap();
    assert_eq!(a.id(), 0);
    assert!(p.get(wb).is_none());
    let woken = p.recycle(a).unwrap();
    assert_eq!(woken.id, 0);
    assert_eq!(woken.obj.msg.unwrap().id, 0);
}

#[test]
fn membership_queries() {
    let mut q: Queue<u32> = Queue::new();
    q.init();
    q.put(envelope(3, 1));
    assert!(q.has_message(3));
    assert!(!q.has_message(4));
    let mut p = pool_of(1);
    let a = p.allocate().unwrap();
    assert!(!p.is_free(0));
    p.recycle(a);
    assert!(p.is_free(0));
}

#[test]
fn recycled_message_from_free_list_comes_back() {
    let mut p = pool_of(1);
    let a = p.allocate().unwrap();
    assert!(p.recycle(a).is_none());
    let m = p.allocate().unwrap();
    assert_eq!(m.id(), 0);
    assert!(m.parent());
    assert!(p.recycle(m).is_none());
    let again = p.allocate().unwrap();
    assert_eq!((again.id(), *again.get()), (0, 100));
    assert!(!p.is_free(0));
}

#[test]
fn waiter_queries() {
    let mut q: Queue<u32> = Queue::new();
    q.init();
    assert!(q.get(block(6)).is_none());
    assert!(q.has_waiter(6));
    let mut p = pool_of(1);
    let (_a, wb) = p.get(block(2)).unwrap();
    assert!(p.get(wb).is_none());
    assert!(p.is_waiting(2));
}
