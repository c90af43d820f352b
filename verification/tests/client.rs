use picotest::client::{build_unit_test_script, scrape_unit_test_output, synthesize_panic_report};
use picotest::codec::PicotestPanicInfo;
use picotest::internal::{verify_unit_test_output, UnitTestError};

#[test]
fn scrape_reports_success_run() {
    let output = "\
- [*] Running unit-test 'my_test'\n\
- [*] Test 'my_test' has been finished\n\
- picotest_unit|my_test|fail=0\n\
- picotest_unit|my_test|data=\n\
- true";
    let (fail, data) = scrape_unit_test_output(output, "my_test");
    assert!(!fail);
    assert_eq!(data.as_deref(), Some(""));
    assert!(verify_unit_test_output(output).is_ok());
}

#[test]
fn scrape_reports_failed_run_with_encoded_outcome() {
    let output = "\
- [*] Running unit-test 'my_test'\n\
- picotest_unit|my_test|fail=1\n\
- picotest_unit|my_test|data=payload:Ym9vbQ;\n\
- true";
    let (fail, data) = scrape_unit_test_output(output, "my_test");
    assert!(fail);
    let data = data.expect("a data line was printed");
    assert_eq!(data, "payload:Ym9vbQ;");
    let (payload, location, backtrace) =
        PicotestPanicInfo::try_decode_with_base64(&data).expect("the outcome is well formed");
    let report = synthesize_panic_report(&payload, location, backtrace);
    assert!(report.contains("boom"));
    assert_eq!(report, "remote fiber panicked at <?>:\nboom");
}

#[test]
fn scrape_ignores_lines_of_other_tests() {
    let output = "\
- picotest_unit|other|fail=1\n\
- picotest_unit|my_test|fail=0\n\
true";
    let (fail, data) = scrape_unit_test_output(output, "my_test");
    assert!(!fail);
    assert_eq!(data, None);
}

#[test]
fn scrape_keeps_the_last_seen_value_of_each_key() {
    let output = "\
- picotest_unit|t|fail=1\n\
- picotest_unit|t|data=first\n\
- picotest_unit|t|fail=0\n\
- picotest_unit|t|data=second";
    let (fail, data) = scrape_unit_test_output(output, "t");
    assert!(!fail);
    assert_eq!(data.as_deref(), Some("second"));
}

#[test]
fn missing_library_is_detected_regardless_of_fail_flag() {
    let output = "\
- picotest_unit|t|fail=0\n\
error: cannot open shared object file: No such file or directory\n\
true";
    let err = verify_unit_test_output(output).expect_err("the library is missing");
    assert!(matches!(err, UnitTestError::SharedObjectOpenFailure));
    assert_eq!(err.message(), "failed to open plugin shared library");
}

#[test]
fn missing_symbol_is_detected() {
    let err = verify_unit_test_output("error: undefined symbol: test_impl_1_t\ntrue")
        .expect_err("the symbol is missing");
    assert!(matches!(err, UnitTestError::MissingSymbol));
    let err = verify_unit_test_output("error: missing declaration for symbol\ntrue")
        .expect_err("the declaration is missing");
    assert!(matches!(err, UnitTestError::MissingSymbol));
    assert_eq!(
        err.message(),
        "failed to call unit-test routine: missing symbol in plugin shared library"
    );
}

#[test]
fn missing_sentinel_means_unexpected_finish() {
    let err = verify_unit_test_output("- picotest_unit|t|fail=0")
        .expect_err("the sentinel is missing");
    assert!(matches!(err, UnitTestError::UnexpectedFinish));
    assert_eq!(err.message(), "test has finished unexpectedly");
}

#[test]
fn unit_test_script_holds_the_call_and_the_report_lines() {
    let script = build_unit_test_script(
        "my-plugin",
        "test_greets",
        "test_impl_3_test_greets",
        "/plug/target/debug/libmy_plugin.so",
    );
    assert!(script.contains("[*] Running unit-test 'test_greets'"));
    assert!(script.contains(
        "ffi.load(\"/plug/target/debug/libmy_plugin.so\")"
    ));
    assert!(script.contains(
        "picotest_execute_unit(\"my-plugin\",\"test_greets\",\"test_impl_3_test_greets\")"
    ));
    assert!(script.contains("(\"picotest_unit|test_greets|fail=%s\"):format(result.fail)"));
    assert!(script
        .contains("(\"picotest_unit|test_greets|data=%s\"):format(ffi.string(result.data,result.len))"));
    assert!(script.contains("picotest_free_unit_result(result)"));
    assert!(script.ends_with("true"));
}

#[test]
fn panic_report_appends_location_and_backtrace() {
    let report = synthesize_panic_report(
        "boom",
        Some("src/lib.rs:3:9".to_string()),
        Some("0: a\n1: b".to_string()),
    );
    assert_eq!(
        report,
        "remote fiber panicked at src/lib.rs:3:9:\nboom\nremote stack backtrace:\n0: a\n1: b"
    );
}
