use picotest::codec::PicotestPanicInfo;
use picotest::runner::{
    is_server_executable, unit_result_from_outcome, PicounitResult, RunnerCache, TestResult,
    TestStatus,
};

#[test]
fn success_record_is_empty() {
    let r = PicounitResult::default();
    assert!(!r.fail);
    assert_eq!(r.data, "");
}

#[test]
fn failure_record_carries_the_encoded_outcome() {
    let info = PicotestPanicInfo {
        payload_str: "boom".to_string(),
        location: None,
        backtrace: None,
    };
    let r = PicounitResult::failure(info);
    assert!(r.fail);
    assert_eq!(r.data, "payload:Ym9vbQ;");
}

#[test]
fn gateway_result_follows_the_supervised_outcome() {
    let ok = unit_result_from_outcome(Ok(()));
    assert!(!ok.fail);
    assert_eq!(ok.data, "");
    let info = PicotestPanicInfo {
        payload_str: "boom".to_string(),
        location: None,
        backtrace: None,
    };
    let failed = unit_result_from_outcome(Err(info));
    assert!(failed.fail);
    assert_eq!(failed.data, "payload:Ym9vbQ;");
}

#[test]
fn second_lookup_for_the_same_package_reuses_the_cache() {
    let mut cache = RunnerCache::new();
    assert!(!cache.lookup_or_insert("my-plugin"), "the first call loads");
    assert!(
        cache.lookup_or_insert("my-plugin"),
        "the second call must reuse the cached handle"
    );
    assert!(cache.is_loaded("my-plugin"));
    assert!(!cache.lookup_or_insert("other-plugin"), "a new package loads anew");
    assert!(cache.is_loaded("my-plugin"));
    assert!(cache.is_loaded("other-plugin"));
}

#[test]
fn server_side_is_detected_by_the_executable_name() {
    assert!(is_server_executable("/usr/bin/picodata"));
    assert!(is_server_executable("picodata"));
    assert!(!is_server_executable("/usr/bin/mypicodata"));
    assert!(!is_server_executable("/usr/bin/picodatax"));
    assert!(!is_server_executable("cargo"));
}

#[test]
fn test_result_reports_its_status() {
    let r = TestResult { status: TestStatus::Success };
    assert_eq!(r.status, TestStatus::Success);
    assert_ne!(r.status, TestStatus::Failure);
}
