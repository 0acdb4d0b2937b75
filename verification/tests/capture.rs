use kiro_rs::capture::{CaptureSession, DEFAULT_MAX_BYTES, Frame, capture_limit, floor_char_boundary};

fn session(max_bytes: usize, body: &str) -> CaptureSession {
    CaptureSession::opened_at(
        "capture".to_string(),
        "now".to_string(),
        Some("/tmp/not-written".to_string()),
        max_bytes,
        body,
        "test-model",
        true,
    )
}

#[test]
fn truncation_preserves_utf8_boundaries() {
    let session = CaptureSession::with_config(
        Some("/tmp/not-written".to_string()),
        5,
        "韩文abc",
        "test-model",
        true,
    );

    assert_eq!(session.document().request_body, "韩");
    assert!(session.document().truncated);
}

#[test]
fn capture_is_disabled_without_directory() {
    let session = CaptureSession::with_config(None, 128, "{}", "test-model", true);
    assert!(!session.is_enabled());
}

#[test]
fn captures_hold_request_and_response() {
    let mut session = CaptureSession::with_config(
        Some("/tmp/not-written".to_string()),
        1024,
        "request",
        "test-model",
        true,
    );
    let capture_id = session.capture_id().to_string();
    session.set_credential_id(87);
    session.record_payload(
        Some("event".to_string()),
        Some("assistantResponseEvent".to_string()),
        "response",
    );
    let document = session.finish("complete", None).expect("a document");
    assert_eq!(document.capture_id, capture_id);
    assert_eq!(document.request_body, "request");
    assert_eq!(document.upstream_events[0].payload, "response");
    assert_eq!(document.upstream_events[0].event_type.as_deref(), Some("assistantResponseEvent"));
    assert_eq!(document.credential_id, Some(87));
    assert_eq!(document.outcome.as_deref(), Some("complete"));
    assert_eq!(document.captured_bytes, 15);
    for time in [Some(document.started_at.as_str()), document.finished_at.as_deref()] {
        let time = time.expect("a time");
        let parsed = chrono::DateTime::parse_from_rfc3339(time).expect("a time of RFC 3339");
        assert_eq!(parsed.offset().local_minus_utc(), 0);
        assert!(time.ends_with("+00:00"));
    }

    let file = document.file_today();
    assert_eq!(file.file_name, format!("{capture_id}.json"));
    assert_eq!((file.directory_mode, file.file_mode), (0o700, 0o600));
    let parts: Vec<&str> = file.directory.split('-').collect();
    assert_eq!(parts.len(), 3);
    assert!(parts.iter().all(|part| part.bytes().all(|byte| byte.is_ascii_digit())));
    assert_eq!((parts[0].len(), parts[1].len(), parts[2].len()), (4, 2, 2));
    assert_eq!(document.started_at[..2], file.directory[..2]);
}

#[test]
fn capture_names_are_random_uuids() {
    let open = || CaptureSession::new(None, None, "", "m", false);
    let (one, two) = (open(), open());
    assert_ne!(one.capture_id(), two.capture_id());
    for id in [one.capture_id(), two.capture_id()] {
        assert_eq!(id.len(), 36);
        for (i, c) in id.chars().enumerate() {
            match i {
                8 | 13 | 18 | 23 => assert_eq!(c, '-'),
                14 => assert_eq!(c, '4'),
                19 => assert!("89ab".contains(c)),
                _ => assert!(c.is_ascii_digit() || ('a'..='f').contains(&c)),
            }
        }
    }
    assert!(chrono::DateTime::parse_from_rfc3339(&one.document().started_at).is_ok());
}

#[test]
fn limits_are_read_from_settings() {
    assert_eq!(capture_limit(None), DEFAULT_MAX_BYTES);
    assert_eq!(DEFAULT_MAX_BYTES, 8 * 1024 * 1024);
    assert_eq!(capture_limit(Some("17")), 17);
    assert_eq!(capture_limit(Some("+17")), 17);
    assert_eq!(capture_limit(Some("0")), DEFAULT_MAX_BYTES);
    assert_eq!(capture_limit(Some(" 17")), DEFAULT_MAX_BYTES);
    assert_eq!(capture_limit(Some("-1")), DEFAULT_MAX_BYTES);
    assert_eq!(capture_limit(Some("99999999999999999999")), DEFAULT_MAX_BYTES);
}

#[test]
fn boundaries_are_rounded_down() {
    let text = "a韩é";
    let floors: Vec<usize> = (0..9).map(|n| floor_char_boundary(text, n)).collect();
    assert_eq!(floors, vec![0, 1, 1, 1, 4, 4, 6, 6, 6]);
}

#[test]
fn a_cut_request_uses_up_the_limit() {
    let mut session = session(5, "韩文abc");
    assert_eq!(session.document().captured_bytes, 5);
    session.record_payload(None, None, "more");
    assert!(session.document().upstream_events.is_empty());
}

#[test]
fn the_event_that_does_not_fit_is_cut_and_the_last() {
    let mut session = session(12, "body");
    let frame = |payload: &str| Frame {
        message_type: Some("event".to_string()),
        event_type: None,
        payload: payload.to_string(),
    };
    session.record_frame(&frame("one"));
    session.record_frame(&frame("韩文"));
    session.record_frame(&frame("three"));
    let document = session.document();
    let events: Vec<(usize, &str)> = document
        .upstream_events
        .iter()
        .map(|event| (event.sequence, event.payload.as_str()))
        .collect();
    assert_eq!(events, vec![(0, "one"), (1, "韩")]);
    assert_eq!(document.captured_bytes, 10);
    assert!(document.truncated);
    assert_eq!(document.upstream_events[0].message_type.as_deref(), Some("event"));
}

#[test]
fn an_event_that_fills_the_limit_is_not_cut() {
    let mut session = session(9, "body");
    session.record_payload(None, None, "12345");
    assert!(!session.document().truncated);
    assert_eq!(session.document().captured_bytes, 9);
    session.record_payload(None, None, "");
    assert!(!session.document().truncated);
    session.record_payload(None, None, "x");
    assert!(session.document().truncated);
    assert_eq!(session.document().upstream_events[2].payload, "");
}

#[test]
fn disabled_captures_record_and_hand_out_nothing() {
    let mut session = CaptureSession::with_config(None, 128, "body", "test-model", false);
    session.record_payload(None, None, "response");
    assert!(session.document().upstream_events.is_empty());
    assert!(session.finish("complete", Some("late".to_string())).is_none());
}

#[test]
fn captures_end_with_outcome_and_error() {
    let session = session(9, "body");
    let document = session
        .finish_at("then".to_string(), "failed", Some("reason".to_string()))
        .expect("a document");
    assert_eq!(document.started_at, "now");
    assert_eq!(document.finished_at.as_deref(), Some("then"));
    assert_eq!(document.outcome.as_deref(), Some("failed"));
    assert_eq!(document.error.as_deref(), Some("reason"));
    let file = document.file_on("2026-06-14".to_string());
    assert_eq!((file.directory.as_str(), file.file_name.as_str()), ("2026-06-14", "capture.json"));
}

#[test]
fn captures_of_whole_requests_count_what_they_hold() {
    let held = |session: &CaptureSession| {
        let document = session.document();
        let payloads: usize =
            document.upstream_events.iter().map(|event| event.payload.len()).sum();
        (document.captured_bytes, document.request_body.len() + payloads)
    };
    let mut whole = session(12, "body");
    for payload in ["abc", "韩文", "more"] {
        whole.record_payload(None, None, payload);
        let (captured, bytes) = held(&whole);
        assert_eq!(captured, bytes);
    }
    assert!(whole.document().truncated);
    assert_eq!(held(&whole), (10, 10));

    // A request that was cut uses up the limit, and may hold less.
    assert_eq!(held(&session(5, "韩文")), (5, 3));
}
