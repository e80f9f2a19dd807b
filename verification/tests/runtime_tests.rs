use rtkit::clock::{bit_clear, bit_set, ClockSetup, Reg, RegOp};
use rtkit::demo::{Adder, Proxy, ProxyStep};
use rtkit::executor::{Actor, Executor};
use rtkit::interrupt::{interrupt_mask, interrupt_prio, CriticalSection};
use rtkit::list::Ref;
use rtkit::pool::Pool as BlockPool;
use rtkit::queue::{Envelope, Message};

#[test]
fn executor_runs_actors_in_activation_order() {
    let mut e = Executor::new();
    e.init();
    e.activate(0, 0, Ref::new(1, Actor::new()));
    e.activate(0, 0, Ref::new(2, Actor::new()));
    e.activate(3, 3, Ref::new(3, Actor::new()));
    let a = e.schedule(0).unwrap();
    assert_eq!(a.id, 1);
    assert!(a.obj.context);
    assert_eq!(e.schedule(0).unwrap().id, 2);
    assert!(e.schedule(0).is_none());
    assert_eq!(e.extract(3).unwrap().id, 3);
    assert!(e.extract(3).is_none());
}

#[test]
fn resume_puts_actor_back() {
    let mut e = Executor::new();
    e.init();
    let mut actor = Actor::new();
    e.spawn(&mut actor);
    assert!(actor.context);
    Actor::resume(Ref::new(4, actor), &mut e);
    let a = e.schedule(0).unwrap();
    assert_eq!(a.id, 4);
}

#[test]
fn prepare_actors() {
    let e = Executor::new();
    let actors = e.prepare(&vec![0u16, 5]);
    assert_eq!(actors.len(), 2);
    assert_eq!(actors[1].vect, 5);
    assert_eq!(actors[1].prio, interrupt_prio(5));
    assert!(actors[0].context);
}

#[test]
fn interrupts_and_critical_sections() {
    assert_eq!(interrupt_mask(1), 0);
    let cs = CriticalSection::new();
    cs.window();
    cs.exit();
}

#[test]
fn bit_helpers() {
    assert_eq!(bit_set(0b0100, 0b0011), 0b0111);
    assert_eq!(bit_clear(0b0111, 0b0011), 0b0100);
}

#[test]
fn clock_bring_up_sequence() {
    let mut c = ClockSetup::new();
    let mut cr: u32 = 0x83;
    let mut cfgr: u32 = 0;
    let mut acr: u32 = 0;
    let mut writes = Vec::new();
    let mut polls = 0;
    while !c.is_done() {
        match c.op() {
            RegOp::Read(reg) => {
                // The hardware raises the ready bits after the enable bits.
                if cr & (1 << 16) != 0 && polls > 1 {
                    cr |= 1 << 17;
                }
                if cr & (1 << 24) != 0 {
                    cr |= 1 << 25;
                }
                if cfgr & 3 == 2 {
                    cfgr |= 8;
                }
                polls += 1;
                let v = match reg {
                    Reg::RccCr => cr,
                    Reg::RccCfgr => cfgr,
                    Reg::FlashAcr => acr,
                };
                c.advance(v);
            }
            RegOp::Write(reg, v) => {
                writes.push((reg, v));
                match reg {
                    Reg::RccCr => cr = v,
                    Reg::RccCfgr => cfgr = v,
                    Reg::FlashAcr => acr = v,
                }
                c.advance(0);
            }
            RegOp::Done => break,
        }
    }
    assert_eq!(c.op(), RegOp::Done);
    assert_eq!(acr, 0x12);
    assert_eq!(cfgr & 3, 2);
    assert_eq!(cr & 1, 0);
    assert_eq!(cr & (1 << 24), 1 << 24);
    assert_eq!(writes[0], (Reg::RccCr, 0x83 | (1 << 16)));
    assert_eq!(writes[1], (Reg::FlashAcr, 0x12));
    assert_eq!(writes[2], (Reg::RccCfgr, 1 | (7 << 18) | (1 << 16)));
    assert_eq!((cfgr >> 18) & 0xf, 7);
    assert_eq!(writes.len(), 6);
}

#[test]
fn clock_waits_for_hse() {
    let mut c = ClockSetup::new();
    c.advance(0);
    c.advance(0);
    for _ in 0..5 {
        assert_eq!(c.op(), RegOp::Read(Reg::RccCr));
        c.advance(0);
    }
    c.advance(1 << 17);
    assert_eq!(c.op(), RegOp::Write(Reg::FlashAcr, 0x12));
}

#[test]
fn proxy_cycles_and_fills() {
    let mut p = Proxy::new();
    assert_eq!(p.next(), ProxyStep::Sleep);
    assert_eq!(p.next(), ProxyStep::Alloc);
    assert_eq!(p.next(), ProxyStep::Send);
    assert_eq!(p.next(), ProxyStep::Sleep);
    let mut e = Envelope::new(Ref::new(0, Message::new(0u32)));
    Proxy::fill(&mut e);
    assert_eq!(*e.get(), 1);
}

#[test]
fn adder_sums() {
    let mut a = Adder::new();
    let e = Envelope::new(Ref::new(0, Message::new(3u32)));
    assert_eq!(a.add(&e), 3);
    assert_eq!(a.add(&e), 6);
}

#[test]
fn block_pool_hands_out_each_block_once() {
    let mut p: BlockPool<u32, 3> = BlockPool::new();
    p.init(vec![10, 11, 12]);
    let mut got = Vec::new();
    while let Some(b) = p.allocate() {
        got.push((b.id, b.obj));
    }
    assert_eq!(got, vec![(0, 10), (1, 11), (2, 12)]);
    assert!(p.allocate().is_none());
}

#[test]
fn block_pool_init_again_keeps_count() {
    let mut p: BlockPool<u32, 3> = BlockPool::new();
    p.init(vec![10, 11, 12]);
    assert_eq!(p.allocate().unwrap().id, 0);
    p.init(vec![20, 21, 22]);
    let b = p.allocate().unwrap();
    assert_eq!((b.id, b.obj), (1, 20));
    assert_eq!(p.allocate().unwrap().id, 2);
    assert!(p.allocate().is_none());
}

#[test]
fn executor_readiness_query() {
    let mut e = Executor::new();
    e.init();
    e.activate(2, 2, Ref::new(5, Actor::new()));
    assert!(e.is_ready(2, 5));
    assert!(!e.is_ready(0, 5));
    e.extract(2);
    assert!(!e.is_ready(2, 5));
}
