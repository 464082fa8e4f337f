use fuzz_ci::debounce::{DebounceConfig, DebounceScheduler};

fn config() -> DebounceConfig {
    DebounceConfig { start_timeout: 5, update_timeout: 10, no_update_timeout: 100 }
}

#[test]
fn burst_in_first_window_fires_once_at_start_timeout() {
    let mut s = DebounceScheduler::new(config(), 0);
    assert_eq!(s.deadline, 100);
    s.on_update(1);
    assert_eq!(s.deadline, 6);
    s.on_update(2);
    s.on_update(3);
    // every update lay within the grace period; only now does the timer fire
    assert_eq!(s.deadline, 8);
    let fire = s.on_timer();
    assert_eq!(fire.time, 3);
    assert!(fire.had_update);
    // one firing only: the next wait is the heartbeat, with nothing pending
    assert_eq!(s.deadline, 108);
    assert!(!s.had_update);
}

#[test]
fn burst_after_first_fire_uses_update_timeout() {
    let mut s = DebounceScheduler::new(config(), 0);
    s.on_update(1);
    let _ = s.on_timer();
    let base = s.deadline;
    s.on_update(base - 1);
    assert_eq!(s.deadline, base - 1 + 10);
    s.on_update(base + 2);
    assert_eq!(s.deadline, base + 12);
    let fire = s.on_timer();
    assert_eq!(fire.time, base + 2);
    assert!(fire.had_update);
}

#[test]
fn heartbeat_fires_every_period_without_updates() {
    let mut s = DebounceScheduler::new(config(), 0);
    for k in 0..5u64 {
        assert_eq!(s.deadline, 100 + k * 100);
        let fire = s.on_timer();
        assert_eq!(fire.time, 0);
        assert!(!fire.had_update);
        assert!(!s.stopped);
    }
}

#[test]
fn stop_ends_the_loop() {
    let mut s = DebounceScheduler::new(config(), 0);
    s.on_stop();
    assert!(s.stopped);
}
