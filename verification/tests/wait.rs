//! Wait strategies.

use crossbar::platform::subscription::{RecvWait, WaitStep};
use crossbar::WaitStrategy;

#[test]
fn default_is_adaptive() {
    let ws = WaitStrategy::default();
    assert_eq!(
        ws,
        WaitStrategy::Adaptive {
            spin_iters: 100,
            yield_iters: 10,
        }
    );
}

#[test]
fn busy_spin_returns_immediately() {
    let ws = WaitStrategy::BusySpin;
    let start = std::time::Instant::now();
    for i in 0..1000 {
        ws.wait(i);
    }
    assert!(start.elapsed().as_millis() < 100, "BusySpin took too long");
}

#[test]
fn yield_spin_returns() {
    let ws = WaitStrategy::YieldSpin;
    let start = std::time::Instant::now();
    for i in 0..100 {
        ws.wait(i);
    }
    assert!(start.elapsed().as_millis() < 500, "YieldSpin took too long");
}

#[test]
fn backoff_spin_returns() {
    let ws = WaitStrategy::BackoffSpin;
    let start = std::time::Instant::now();
    for i in 0..20 {
        ws.wait(i);
    }
    assert!(
        start.elapsed().as_millis() < 500,
        "BackoffSpin took too long"
    );
}

#[test]
fn adaptive_phases() {
    let ws = WaitStrategy::Adaptive {
        spin_iters: 4,
        yield_iters: 4,
    };
    let start = std::time::Instant::now();
    for i in 0..20 {
        ws.wait(i);
    }
    assert!(start.elapsed().as_millis() < 500, "Adaptive took too long");
}

#[test]
fn adaptive_saturating_add_no_overflow() {
    let ws = WaitStrategy::Adaptive {
        spin_iters: u32::MAX,
        yield_iters: 1,
    };
    ws.wait(u32::MAX);
}

#[test]
fn clone_and_copy() {
    let ws = WaitStrategy::BusySpin;
    let ws2 = ws;
    #[allow(clippy::clone_on_copy)]
    let ws3 = ws.clone();
    assert_eq!(ws, ws2);
    assert_eq!(ws, ws3);
}

#[test]
fn debug_format() {
    let ws = WaitStrategy::BusySpin;
    let s = format!("{ws:?}");
    assert_eq!(s, "BusySpin");
}

#[test]
fn hints_grow_up_to_sixty_four() {
    let expected = [1, 2, 4, 8, 16, 32, 64, 64, 64];
    for (i, n) in expected.iter().enumerate() {
        assert_eq!(WaitStrategy::BackoffSpin.hints(i as u32), *n);
        assert_eq!(WaitStrategy::BackoffSpin.wait(i as u32), *n);
    }
    assert_eq!(WaitStrategy::BusySpin.wait(5), 0);
    assert_eq!(WaitStrategy::YieldSpin.wait(5), 1);
}

#[test]
fn adaptive_hints_come_between_spinning_and_sleeping() {
    let ws = WaitStrategy::Adaptive {
        spin_iters: 2,
        yield_iters: 3,
    };
    let hints: Vec<u32> = (0..7).map(|i| ws.hints(i)).collect();
    assert_eq!(hints, vec![0, 0, 1, 1, 1, 0, 0]);
}

#[test]
fn a_receiver_sleeps_after_spinning_and_yielding() {
    let ws = WaitStrategy::Adaptive {
        spin_iters: 1,
        yield_iters: 1,
    };
    let mut wait = RecvWait::new(ws, 90_000);
    assert_eq!(wait.poll_ms, 30);
    assert_eq!(wait.step(), WaitStep::Spin(0));
    assert_eq!(wait.step(), WaitStep::Spin(1));
    assert_eq!(wait.step(), WaitStep::Sleep(30));
    assert_eq!(wait.step(), WaitStep::Sleep(30));
}

#[test]
fn a_spinning_receiver_checks_the_publisher_every_1024_turns() {
    let mut wait = RecvWait::new(WaitStrategy::YieldSpin, 0);
    assert_eq!(wait.poll_ms, 1);
    for i in 1..=2048u32 {
        let expected = if i % 1024 == 0 {
            WaitStep::SpinAndCheck(1)
        } else {
            WaitStep::Spin(1)
        };
        assert_eq!(wait.step(), expected);
    }
    assert_eq!(RecvWait::new(WaitStrategy::YieldSpin, u64::MAX).poll_ms, 50);
}
