//! Event messages.
use oxideav_mp4::emsg::{build_emsg_box, parse_emsg_box, EmsgBox, EmsgTime, EMSG_UNKNOWN_DURATION};

fn sample_v0() -> EmsgBox {
    EmsgBox {
        scheme_id_uri: "urn:scte:scte35:2013:bin".to_string(),
        value: "1001".to_string(),
        timescale: 90_000,
        presentation: EmsgTime::Delta(45_000),
        event_duration: 270_000,
        id: 7,
        message_data: vec![0xFC, 0x30, 0x11, 0x00],
    }
}

fn sample_v1() -> EmsgBox {
    EmsgBox {
        scheme_id_uri: "urn:example:events:2024".to_string(),
        value: String::new(),
        timescale: 1_000,
        presentation: EmsgTime::Absolute(0x0001_2345_6789_ABCD),
        event_duration: EMSG_UNKNOWN_DURATION,
        id: 0xDEAD_BEEF,
        message_data: b"payload".to_vec(),
    }
}

#[test]
fn v0_round_trip() {
    let e = sample_v0();
    let bytes = build_emsg_box(&e).unwrap();
    assert_eq!(&bytes[4..8], b"emsg");
    assert_eq!(bytes[8], 0, "version 0");
    let back = parse_emsg_box(&bytes[8..]).unwrap();
    assert_eq!(back, e);
    assert_eq!(back.version(), 0);
    assert_eq!(back.presentation_time_delta(), Some(45_000));
    assert_eq!(back.presentation_time(), None);
    assert!(!back.event_duration_unknown());
}

#[test]
fn v1_round_trip_with_empty_value_and_unknown_duration() {
    let e = sample_v1();
    let bytes = build_emsg_box(&e).unwrap();
    assert_eq!(bytes[8], 1, "version 1");
    let back = parse_emsg_box(&bytes[8..]).unwrap();
    assert_eq!(back, e);
    assert_eq!(back.version(), 1);
    assert_eq!(back.presentation_time(), Some(0x0001_2345_6789_ABCD));
    assert_eq!(back.presentation_time_delta(), None);
    assert!(back.event_duration_unknown());
}

#[test]
fn v0_field_order_is_strings_first() {
    let e = EmsgBox {
        scheme_id_uri: "a".to_string(),
        value: "b".to_string(),
        timescale: 1,
        presentation: EmsgTime::Delta(2),
        event_duration: 3,
        id: 4,
        message_data: vec![0xAA],
    };
    let bytes = build_emsg_box(&e).unwrap();
    let body = &bytes[8..];
    assert_eq!(&body[4..6], b"a\0");
    assert_eq!(&body[6..8], b"b\0");
    assert_eq!(&body[8..12], &1u32.to_be_bytes());
    assert_eq!(&body[12..16], &2u32.to_be_bytes());
    assert_eq!(&body[16..20], &3u32.to_be_bytes());
    assert_eq!(&body[20..24], &4u32.to_be_bytes());
    assert_eq!(&body[24..], &[0xAA]);
}

#[test]
fn v1_field_order_is_integers_first() {
    let e = EmsgBox {
        scheme_id_uri: "a".to_string(),
        value: "b".to_string(),
        timescale: 1,
        presentation: EmsgTime::Absolute(2),
        event_duration: 3,
        id: 4,
        message_data: vec![0xAA],
    };
    let bytes = build_emsg_box(&e).unwrap();
    let body = &bytes[8..];
    assert_eq!(&body[4..8], &1u32.to_be_bytes());
    assert_eq!(&body[8..16], &2u64.to_be_bytes());
    assert_eq!(&body[16..20], &3u32.to_be_bytes());
    assert_eq!(&body[20..24], &4u32.to_be_bytes());
    assert_eq!(&body[24..26], b"a\0");
    assert_eq!(&body[26..28], b"b\0");
    assert_eq!(&body[28..], &[0xAA]);
}

#[test]
fn empty_message_data_round_trips() {
    let mut e = sample_v0();
    e.message_data.clear();
    let bytes = build_emsg_box(&e).unwrap();
    let back = parse_emsg_box(&bytes[8..]).unwrap();
    assert!(back.message_data.is_empty());
    assert_eq!(back, e);
}

#[test]
fn undefined_version_is_rejected() {
    for v in [2u8, 3, 0xFF] {
        let body = [v, 0, 0, 0, 0, 0, 0, 0];
        let err = parse_emsg_box(&body).expect_err("undefined version must fail");
        assert!(err.message().contains("version"), "{}", err.message());
    }
}

#[test]
fn truncated_bodies_are_rejected_not_panic() {
    // Every prefix of a valid v0 and v1 body must either parse to
    // the same record (only possible at full length) or return a
    // clean error — never panic.
    for sample in [sample_v0(), sample_v1()] {
        let bytes = build_emsg_box(&sample).unwrap();
        let body = &bytes[8..];
        let msg_len = sample.message_data.len();
        for cut in 0..body.len() {
            match parse_emsg_box(&body[..cut]) {
                Ok(parsed) => {
                    // A cut inside message_data still parses (the
                    // blob just shortens) — everything earlier
                    // must have been intact.
                    assert!(cut >= body.len() - msg_len, "cut {cut} of {}", body.len());
                    assert!(parsed.message_data.len() < msg_len);
                }
                Err(e) => {
                    assert!(e.message().contains("MP4 emsg"), "{}", e.message());
                }
            }
        }
    }
}

#[test]
fn unterminated_string_is_rejected() {
    // v0 body whose scheme_id_uri never terminates.
    let mut body = vec![0u8, 0, 0, 0];
    body.extend_from_slice(b"urn:no-terminator-here");
    let err = parse_emsg_box(&body).expect_err("unterminated string must fail");
    assert!(err.message().contains("unterminated"), "{}", err.message());
}

#[test]
fn invalid_utf8_is_rejected() {
    let mut body = vec![0u8, 0, 0, 0];
    body.extend_from_slice(&[0xFF, 0xFE, 0x00]); // invalid UTF-8 + NUL
    body.extend_from_slice(b"\0"); // empty value
    body.extend_from_slice(&[0u8; 16]);
    let err = parse_emsg_box(&body).expect_err("invalid UTF-8 must fail");
    assert!(err.message().contains("UTF-8"), "{}", err.message());
}

#[test]
fn interior_nul_in_string_is_rejected_on_build() {
    let mut e = sample_v0();
    e.value = "a\0b".to_string();
    let err = build_emsg_box(&e).expect_err("interior NUL must fail");
    assert!(err.message().contains("NUL"), "{}", err.message());
}

#[test]
fn nonzero_flags_are_tolerated_on_parse() {
    // Flags are reserved-zero; a producer that sets them anyway
    // should not brick the reader (the fields carry no defined
    // semantics).
    let e = sample_v0();
    let mut bytes = build_emsg_box(&e).unwrap();
    bytes[9] = 0x12; // flags high byte inside the FullBox header
    let back = parse_emsg_box(&bytes[8..]).unwrap();
    assert_eq!(back, e);
}
