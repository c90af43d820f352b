use base64::prelude::{Engine, BASE64_STANDARD_NO_PAD};
use picotest::codec::{strip_trailing_newline, PicotestPanicInfo, PicotestPanicLocation};

fn failure(payload: &str) -> PicotestPanicInfo {
    PicotestPanicInfo {
        payload_str: payload.to_string(),
        location: None,
        backtrace: None,
    }
}

#[test]
fn encode_payload_only_is_exactly_payload_field() {
    let info = failure("boom");
    assert_eq!(info.encode_with_base64(), "payload:Ym9vbQ;");
}

#[test]
fn encode_empty_payload() {
    let info = failure("");
    assert_eq!(info.encode_with_base64(), "payload:;");
}

#[test]
fn encode_with_location_and_backtrace_matches_grammar() {
    let info = PicotestPanicInfo {
        payload_str: "boom".to_string(),
        location: Some(PicotestPanicLocation {
            file: "src/lib.rs".to_string(),
            line: 12,
            col: 7,
        }),
        backtrace: Some("frame one\nframe two".to_string()),
    };
    let expected = format!(
        "payload:{};location:{};backtrace:{};",
        BASE64_STANDARD_NO_PAD.encode("boom"),
        BASE64_STANDARD_NO_PAD.encode("src/lib.rs:12:7"),
        BASE64_STANDARD_NO_PAD.encode("frame one\nframe two"),
    );
    assert_eq!(info.encode_with_base64(), expected);
}

#[test]
fn decode_recovers_payload_only_outcome() {
    let (payload, location, backtrace) = PicotestPanicInfo::decode_with_base64("payload:Ym9vbQ;");
    assert_eq!(payload, "boom");
    assert_eq!(location, None);
    assert_eq!(backtrace, None);
}

#[test]
fn decode_round_trips_full_outcome() {
    let info = PicotestPanicInfo {
        payload_str: "it broke: badly".to_string(),
        location: Some(PicotestPanicLocation {
            file: "plugin/src/worker.rs".to_string(),
            line: 4294967295,
            col: 0,
        }),
        backtrace: Some("0: a\n1: b\n2: c".to_string()),
    };
    let encoded = info.encode_with_base64();
    let (payload, location, backtrace) = PicotestPanicInfo::decode_with_base64(&encoded);
    assert_eq!(payload, "it broke: badly");
    assert_eq!(location.as_deref(), Some("plugin/src/worker.rs:4294967295:0"));
    assert_eq!(backtrace.as_deref(), Some("0: a\n1: b\n2: c"));
}

#[test]
fn decode_round_trips_location_only_outcome() {
    let info = PicotestPanicInfo {
        payload_str: "x".to_string(),
        location: Some(PicotestPanicLocation {
            file: "a.rs".to_string(),
            line: 1,
            col: 23,
        }),
        backtrace: None,
    };
    let (payload, location, backtrace) = PicotestPanicInfo::decode_with_base64(&info.encode_with_base64());
    assert_eq!(payload, "x");
    assert_eq!(location.as_deref(), Some("a.rs:1:23"));
    assert_eq!(backtrace, None);
}

#[test]
fn try_decode_accepts_well_formed_records() {
    let info = failure("boom");
    let encoded = info.encode_with_base64();
    let decoded = PicotestPanicInfo::try_decode_with_base64(&encoded).expect("record is well formed");
    assert_eq!(decoded.0, "boom");
    assert_eq!(decoded.1, None);
    assert_eq!(decoded.2, None);
}

#[test]
fn try_decode_rejects_malformed_records() {
    assert!(PicotestPanicInfo::try_decode_with_base64("").is_none());
    assert!(PicotestPanicInfo::try_decode_with_base64("garbage").is_none());
    assert!(PicotestPanicInfo::try_decode_with_base64("payload:Ym9vbQ").is_none());
    assert!(PicotestPanicInfo::try_decode_with_base64("payload:!!!;").is_none());
    assert!(PicotestPanicInfo::try_decode_with_base64("payload:Ym9vbQ;junk").is_none());
    assert!(PicotestPanicInfo::try_decode_with_base64("payload:Ym9vbQ;location:Ym9vbQ").is_none());
    assert!(PicotestPanicInfo::try_decode_with_base64("payload:Ym9vbQ==;").is_none());
}

#[test]
fn strip_trailing_newline_takes_one_newline() {
    assert_eq!(strip_trailing_newline("trace\n"), "trace");
    assert_eq!(strip_trailing_newline("trace\n\n"), "trace\n");
    assert_eq!(strip_trailing_newline("trace"), "trace");
    assert_eq!(strip_trailing_newline(""), "");
}
