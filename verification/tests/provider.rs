use kiro_rs::json::JsonValue;
use kiro_rs::metering::MeteredCredits;
use kiro_rs::provider::{KiroProvider, model_of, session_of};

fn provider() -> KiroProvider {
    KiroProvider::with_proxy(
        Some("http://proxy".to_string()),
        vec!["ide".to_string(), "cli".to_string()],
        "cli".to_string(),
    )
}

#[test]
fn test_extract_session_id_from_request() {
    let body = r#"{"conversationState":{"conversationId":"conv-123"}}"#;

    assert_eq!(
        KiroProvider::extract_session_id_from_request(body),
        Some("conv-123".to_string())
    );
}

#[test]
fn test_extract_session_id_from_request_missing_or_invalid() {
    assert_eq!(
        KiroProvider::extract_session_id_from_request(r#"{"conversationState":{}}"#),
        None
    );
    assert_eq!(KiroProvider::extract_session_id_from_request("not-json"), None);
}

#[test]
fn test_is_invalid_model_id_detects_reason_and_message() {
    assert!(KiroProvider::is_invalid_model_id(
        r#"{"message":"Model access denied","reason":"INVALID_MODEL_ID"}"#
    ));
    assert!(KiroProvider::is_invalid_model_id(
        r#"{"error":{"message":"Invalid model: sonnet-4"}}"#
    ));
    assert!(KiroProvider::is_invalid_model_id(
        r#"{"message":"invalid MODEL for this credential"}"#
    ));
    assert!(!KiroProvider::is_invalid_model_id(
        r#"{"message":"Improperly formed request","reason":"BAD_REQUEST"}"#
    ));
}

#[test]
fn test_compute_max_retries_covers_every_available_credential() {
    assert_eq!(KiroProvider::compute_max_retries(1, 1), 3);
    assert!(KiroProvider::compute_max_retries(10, 10) >= 10);
    assert!(KiroProvider::compute_max_retries(50, 50) >= 50);
    assert!(KiroProvider::compute_max_retries(100, 100) >= 100);
    assert!(KiroProvider::compute_max_retries(20, 7) >= 7);
}

#[test]
fn test_classify_429_cooldown_and_capacity_exception() {
    assert_eq!(
        KiroProvider::classify_429_cooldown(r#"{"reason":"RATE_LIMIT_EXCEEDED"}"#, None),
        Some(60)
    );
    assert_eq!(
        KiroProvider::classify_429_cooldown(
            r#"{"message":"temporary limits due to suspicious activity","reason":null}"#,
            Some(90),
        ),
        Some(90)
    );
    assert_eq!(
        KiroProvider::classify_429_cooldown(
            r#"{"reason":"INSUFFICIENT_MODEL_CAPACITY"}"#,
            Some(90),
        ),
        None
    );
    assert_eq!(KiroProvider::classify_429_cooldown("rate limited", Some(999)), Some(300));
}

#[test]
fn metering_recorder_commits_latest_value_once() {
    let mut recorder = provider().metering_recorder(1);
    recorder.observe(Some(1.25f64.to_bits()));
    recorder.observe(Some(1.5f64.to_bits()));
    let mut metered_credits = 0.0;
    let mut metered_request_count = 0;
    for _ in 0..2 {
        if let Some(MeteredCredits { credential_id: 1, credits }) = recorder.commit() {
            metered_credits += f64::from_bits(credits);
            metered_request_count += 1;
        }
    }
    assert_eq!(metered_credits, 1.5);
    assert_eq!(metered_request_count, 1);
}

#[test]
fn recorders_take_finite_credits_alone() {
    for credits in [
        0.0,
        -0.0,
        1.0,
        f64::MAX,
        f64::MIN_POSITIVE,
        -1.0,
        -f64::MIN_POSITIVE,
        f64::INFINITY,
        f64::NEG_INFINITY,
        f64::NAN,
        -f64::NAN,
        5e-324,
    ] {
        let mut recorder = provider().metering_recorder(9);
        recorder.observe(Some(7.0f64.to_bits()));
        recorder.observe(Some(credits.to_bits()));
        recorder.observe(None);
        let expected = if credits.is_finite() && credits >= 0.0 { credits } else { 7.0 };
        let booked = recorder.commit().expect("credits");
        assert_eq!(booked.credential_id, 9);
        assert_eq!(booked.credits, expected.to_bits(), "{credits}");
    }
}

#[test]
fn recorders_book_nothing_without_credits_and_nothing_late() {
    let mut recorder = provider().metering_recorder(1);
    assert_eq!(recorder.commit(), None);
    recorder.observe(Some(2.0f64.to_bits()));
    assert_eq!(recorder.commit(), None);
}

#[test]
fn endpoints_are_found_by_name_or_default() {
    let provider = provider();
    assert_eq!(provider.endpoint_for(None), Ok(1));
    assert_eq!(provider.endpoint_for(Some("ide")), Ok(0));
    assert_eq!(provider.endpoint_for(Some("IDE")), Err("未知端点: IDE".to_string()));
}

#[test]
fn clients_are_kept_for_each_proxy() {
    let mut provider = provider();
    assert_eq!(provider.client_for(Some("http://proxy")), Some(0));
    assert_eq!(provider.client_for(None), None);
    assert_eq!(provider.keep_client(None), 1);
    assert_eq!(provider.keep_client(Some("socks5://other".to_string())), 2);
    assert_eq!(provider.client_for(None), Some(1));
    assert_eq!(provider.client_for(Some("http://proxy")), Some(0));
    assert_eq!(provider.client_for(Some("socks5://other")), Some(2));
}

#[test]
fn retry_budgets_are_exact() {
    assert_eq!(KiroProvider::compute_max_retries(0, 0), 1);
    assert_eq!(KiroProvider::compute_max_retries(2, 0), 6);
    assert_eq!(KiroProvider::compute_max_retries(10, 10), 30);
    assert_eq!(KiroProvider::compute_max_retries(50, 50), 64);
    assert_eq!(KiroProvider::compute_max_retries(100, 100), 100);
    assert_eq!(KiroProvider::compute_max_retries(usize::MAX, 1), 64);
    assert_eq!(KiroProvider::compute_max_retries(usize::MAX, usize::MAX), usize::MAX);
    assert_eq!(KiroProvider::compute_max_retries(0, 5), 5);
}

#[test]
fn requests_name_model_and_session() {
    let body = r#"{"conversationState":{"conversationId":"c",
        "currentMessage":{"userInputMessage":{"modelId":"m"}}}}"#;
    assert_eq!(KiroProvider::extract_model_from_request(body), Some("m".to_string()));
    assert_eq!(KiroProvider::extract_session_id_from_request(body), Some("c".to_string()));
    let parsed = JsonValue::parse(body).unwrap();
    assert_eq!(model_of(&parsed), Some("m".to_string()));
    assert_eq!(session_of(&parsed), Some("c".to_string()));
    for body in [
        "",
        "[]",
        r#"{"conversationState":{"currentMessage":{"userInputMessage":{"modelId":5}}}}"#,
        r#"{"conversationState":{"currentMessage":{"userInputMessage":{}}}}"#,
        r#"{"conversationState":{"currentMessage":null}}"#,
        r#"{"conversationState":[]}"#,
    ] {
        assert_eq!(KiroProvider::extract_model_from_request(body), None);
        assert_eq!(KiroProvider::extract_session_id_from_request(body), None);
    }
}

#[test]
fn retry_after_is_read_and_clamped() {
    assert_eq!(KiroProvider::parse_retry_after(None), None);
    assert_eq!(KiroProvider::parse_retry_after(Some("soon")), None);
    assert_eq!(KiroProvider::parse_retry_after(Some("-5")), None);
    assert_eq!(KiroProvider::parse_retry_after(Some(" 90\t")), Some(90));
    assert_eq!(KiroProvider::parse_retry_after(Some("5")), Some(60));
    assert_eq!(KiroProvider::parse_retry_after(Some("3600")), Some(300));
    assert_eq!(KiroProvider::clamp_rate_limit_cooldown(0), 60);
    assert_eq!(KiroProvider::clamp_rate_limit_cooldown(299), 299);
    assert_eq!(KiroProvider::clamp_rate_limit_cooldown(u64::MAX), 300);
}

#[test]
fn lack_of_capacity_is_found_in_text_and_reasons() {
    let lacks = KiroProvider::is_insufficient_model_capacity;
    assert!(lacks("insufficient_model_capacity"));
    assert!(lacks(r#"{"reason":"INSUFFICIENT_MODEL_CAPACITY"}"#));
    assert!(lacks(r#"{"error":{"reason":"x insufficient_MODEL_capacity"}}"#));
    // An escaped letter hides the words from the text, but not from a reason.
    assert!(lacks(r#"{"reason":"\u0049NSUFFICIENT_MODEL_CAPACITY"}"#));
    assert!(lacks(r#"{"error":{"reason":"\u0049nsufficient_model_capacity"}}"#));
    assert!(!lacks(r#"{"other":"\u0049NSUFFICIENT_MODEL_CAPACITY"}"#));
    assert!(!lacks(r#"{"error":"\u0049NSUFFICIENT_MODEL_CAPACITY"}"#));
    assert!(!lacks(r#"{"reason":["\u0049NSUFFICIENT_MODEL_CAPACITY"]}"#));
    assert!(!lacks("capacity"));
    let parsed = JsonValue::parse(r#"{"reason":"insufficient_model_capacity"}"#).unwrap();
    assert!(KiroProvider::lacks_model_capacity("", Some(&parsed)));
    assert!(!KiroProvider::lacks_model_capacity("", None));
    assert_eq!(KiroProvider::cooldown_for("", Some(&parsed), Some(90)), None);
    assert_eq!(KiroProvider::cooldown_for("", None, Some(1)), Some(60));
}

#[test]
fn waits_grow_and_jitter_within_a_quarter() {
    let waits: Vec<u64> = (0..6).map(KiroProvider::backoff_for).collect();
    assert_eq!(waits, vec![200, 400, 800, 1600, 2000, 2000]);
    assert_eq!(KiroProvider::backoff_for(usize::MAX), 2000);
    assert_eq!(KiroProvider::delay_with_jitter(1, 7), 407);
    assert_eq!(KiroProvider::delay_with_jitter(9, u64::MAX), u64::MAX);
    let mut seen = Vec::new();
    for attempt in 0..8 {
        for _ in 0..200 {
            let wait = KiroProvider::retry_delay(attempt);
            let least = KiroProvider::backoff_for(attempt);
            assert!((least..=least + least / 4).contains(&wait));
            seen.push(wait - least);
        }
    }
    assert!(seen.iter().any(|jitter| *jitter > 0));
}
