use picotest::codec::PicotestPanicInfo;
use picotest::supervision::{HookState, SupervisionRegistry};

fn snapshot(payload: &str) -> PicotestPanicInfo {
    PicotestPanicInfo {
        payload_str: payload.to_string(),
        location: None,
        backtrace: None,
    }
}

#[test]
fn hook_installs_exactly_once() {
    let mut hook = HookState::new();
    assert!(hook.install());
    assert!(!hook.install());
    assert!(!hook.install());
}

#[test]
fn unsupervised_fiber_forwards_to_default_and_records_nothing() {
    let mut registry = SupervisionRegistry::new();
    registry.begin_guard(7);
    let forward = registry.on_panic(9, snapshot("other fiber"));
    assert!(forward, "the default handler must be invoked");
    assert!(
        registry.take_raised(9).is_none(),
        "no entry may be recorded for an unsupervised fiber"
    );
}

#[test]
fn supervised_fiber_gets_its_panic_recorded() {
    let mut registry = SupervisionRegistry::new();
    registry.begin_guard(7);
    let forward = registry.on_panic(7, snapshot("boom"));
    assert!(!forward, "a supervised failure is not forwarded");
    let info = registry.take_raised(7).expect("the snapshot was recorded");
    assert_eq!(info.payload_str, "boom");
    assert!(registry.take_raised(7).is_none(), "the entry is consumed once");
}

#[test]
fn finish_supervision_unmarks_on_normal_return() {
    let mut registry = SupervisionRegistry::new();
    registry.begin_guard(3);
    assert!(registry.is_guarded(3));
    let r = registry.finish_supervision(3, false);
    assert!(r.is_ok());
    assert!(!registry.is_guarded(3));
}

#[test]
fn finish_supervision_unmarks_on_failure_and_returns_the_snapshot() {
    let mut registry = SupervisionRegistry::new();
    registry.begin_guard(3);
    let forward = registry.on_panic(3, snapshot("boom"));
    assert!(!forward);
    let err = registry.finish_supervision(3, true).expect_err("the call failed");
    assert_eq!(err.payload_str, "boom");
    assert!(!registry.is_guarded(3));
    assert!(registry.take_raised(3).is_none(), "the entry did not leak");
}

#[test]
fn supervision_leaves_no_leak_across_repeated_calls() {
    let mut registry = SupervisionRegistry::new();
    for _ in 0..3 {
        registry.begin_guard(11);
        let _ = registry.on_panic(11, snapshot("again"));
        let err = registry.finish_supervision(11, true).expect_err("the call failed");
        assert_eq!(err.payload_str, "again");
        assert!(!registry.is_guarded(11));
        assert!(registry.take_raised(11).is_none());
    }
}
