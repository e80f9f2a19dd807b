use rtkit::list::Ref;
use rtkit::timer::{TWaitBlk, Timer};

fn sleeper(id: usize) -> Ref<TWaitBlk> {
    Ref::new(id, TWaitBlk { timeout: 0 })
}

fn ready_timer() -> Timer<10> {
    let mut t: Timer<10> = Timer::new();
    t.init();
    t
}

#[test]
fn diff_msb_values() {
    assert_eq!(Timer::<10>::diff_msb(0, 1), 0);
    assert_eq!(Timer::<10>::diff_msb(1, 2), 1);
    assert_eq!(Timer::<10>::diff_msb(3, 4), 2);
    assert_eq!(Timer::<10>::diff_msb(0, 100), 6);
    assert_eq!(Timer::<10>::diff_msb(0, 1 << 20), 9);
    assert_eq!(Timer::<4>::diff_msb(8, 7), 3);
}

#[test]
fn sleeper_woken_exactly_on_its_tick() {
    let mut t = ready_timer();
    t.subscribe(5, sleeper(1));
    for _ in 0..4 {
        assert!(t.tick().is_empty());
    }
    let woken = t.tick();
    assert_eq!(woken.len(), 1);
    assert_eq!(woken[0].id, 1);
    assert_eq!(woken[0].obj.timeout, 5);
    for _ in 0..50 {
        assert!(t.tick().is_empty());
    }
}

#[test]
fn many_sleepers_wake_in_due_order() {
    let mut t = ready_timer();
    let delays = [100usize, 3, 64, 1, 3, 1000, 2048];
    for (i, d) in delays.iter().enumerate() {
        t.subscribe(*d, sleeper(i));
    }
    let mut wake_tick = vec![0usize; delays.len()];
    for now in 1..=2100usize {
        for w in t.tick() {
            assert_eq!(w.obj.timeout, now);
            wake_tick[w.id] = now;
        }
    }
    assert_eq!(wake_tick, delays.to_vec());
}

#[test]
fn sleep_for_and_poll() {
    let mut t = ready_timer();
    let mut f = t.sleep_for(3, 2);
    assert!(!f.poll(&mut t));
    assert!(f.delay.is_none());
    assert!(t.tick().is_empty());
    let woken = t.tick();
    assert_eq!(woken.len(), 1);
    assert_eq!(woken[0].id, 3);
    assert!(f.poll(&mut t));
}

#[test]
fn zero_delay_is_ready_at_once() {
    let mut t = ready_timer();
    let mut f = t.sleep_for(0, 0);
    assert!(f.poll(&mut t));
    assert!(f.wb.is_some());
}

#[test]
fn sleepers_after_long_running_clock() {
    let mut t = ready_timer();
    for _ in 0..1000 {
        t.tick();
    }
    t.subscribe(24, sleeper(0));
    t.subscribe(1, sleeper(1));
    let mut got = Vec::new();
    for now in 1001..=1030usize {
        for w in t.tick() {
            got.push((w.id, now));
        }
    }
    assert_eq!(got, vec![(1, 1001), (0, 1024)]);
}

#[test]
fn asleep_query() {
    let mut t = ready_timer();
    t.subscribe(2, sleeper(4));
    assert!(t.is_asleep(4));
    assert!(!t.is_asleep(5));
    t.tick();
    assert!(t.is_asleep(4));
    t.tick();
    assert!(!t.is_asleep(4));
}
