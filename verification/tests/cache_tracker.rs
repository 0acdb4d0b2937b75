use kiro_rs::blocks::{
    Message, MessagesRequest, RequestTool, SystemMessage, flatten_claude_cache_blocks,
    is_billing_header_block, is_billing_text, is_fully_measured, ttl_queries,
};
use kiro_rs::canonical::canonicalize_cache_value;
use kiro_rs::json::JsonValue;
use kiro_rs::profile::{
    PromptCacheBreakpoint, PromptCacheProfile, context_window_for_model, count_tokens,
    min_cacheable_tokens_for_lowered, min_cacheable_tokens_for_model,
};
use kiro_rs::tracker::{
    PromptCacheEntry, PromptCacheTracker, PromptCacheUsage, compute_ttl_breakdown,
    max_reportable_cache_tokens, prune_expired,
};
use kiro_rs::ttl::{
    DEFAULT_PROMPT_CACHE_TTL, ONE_HOUR, SECOND, TtlMeasure, extract_cache_ttl,
    extract_cache_ttl_from_control, has_measures, normalize_ttl, parse_ttl_value,
};
use kiro_rs::usage::{billed_input_tokens, build_usage_json};

fn json(text: &str) -> JsonValue {
    JsonValue::parse(text).expect("valid JSON")
}

fn number(value: &JsonValue, key: &str) -> i64 {
    match value.get(key) {
        Some(JsonValue::Number(text)) => text.parse().expect("an integer"),
        other => panic!("{key} is {other:?}"),
    }
}

fn long_system_text() -> String {
    "You are a helpful coding assistant with deep knowledge of Go, Rust, Python, and TypeScript. "
        .repeat(80)
}

fn ephemeral() -> Option<JsonValue> {
    Some(json(r#"{"type": "ephemeral"}"#))
}

fn system(text: &str, cache_control: Option<JsonValue>) -> SystemMessage {
    SystemMessage { text: text.to_string(), cache_control }
}

fn message(role: &str, text: &str) -> Message {
    Message { role: role.to_string(), content: JsonValue::Text(text.to_string()) }
}

fn request(model: &str, system: Vec<SystemMessage>, messages: Vec<Message>) -> MessagesRequest {
    MessagesRequest {
        model: model.to_string(),
        context_window: 200_000,
        tool_choice: None,
        tools: None,
        system: Some(system),
        messages,
        ttl_measures: Vec::new(),
    }
}

fn profile(tokens: i32, byte: u8, ttl: u128) -> PromptCacheProfile {
    PromptCacheProfile {
        breakpoints: vec![PromptCacheBreakpoint {
            fingerprint: [byte; 32],
            cumulative_tokens: tokens,
            ttl,
        }],
        total_input_tokens: tokens,
        model: "sonnet-4-6".to_string(),
        context_window: 200_000,
    }
}

#[test]
fn test_compute_and_update() {
    let mut tracker = PromptCacheTracker::new();
    let req = request(
        "sonnet-4-6",
        vec![system(&long_system_text(), ephemeral())],
        vec![message("user", "hello world")],
    );

    let mut profile = tracker.build_claude_profile(&req).expect("profile should be built");
    profile.raise_total_input_tokens(120);

    let first = tracker.compute(1, &profile);
    assert!(
        first.cache_creation_input_tokens > 0,
        "first request should create cache tokens: {first:?}"
    );
    assert_eq!(first.cache_read_input_tokens, 0);

    tracker.update(1, &profile);
    let second = tracker.compute(1, &profile);
    assert!(
        second.cache_read_input_tokens > 0,
        "repeated request should read cache tokens: {second:?}"
    );
    assert_eq!(second.cache_creation_input_tokens, 0);
}

#[test]
fn test_no_profile_without_cache_control() {
    let tracker = PromptCacheTracker::new();
    let mut req = request("sonnet-4-6", Vec::new(), vec![message("user", "hello")]);
    req.system = None;
    assert!(tracker.build_claude_profile(&req).is_none());
}

#[test]
fn test_usage_json_includes_cache_fields() {
    let usage = PromptCacheUsage {
        cache_creation_input_tokens: 30,
        cache_read_input_tokens: 20,
        cache_creation_5m_input_tokens: 10,
        cache_creation_1h_input_tokens: 20,
    };

    let m = build_usage_json(100, 50, Some(&usage));
    assert_eq!(number(&m, "input_tokens"), 50);
    assert_eq!(number(&m, "cache_creation_input_tokens"), 30);
    assert_eq!(number(&m, "cache_read_input_tokens"), 20);
    let lives = m.get("cache_creation").expect("cache_creation");
    assert_eq!(number(lives, "ephemeral_5m_input_tokens"), 10);
    assert_eq!(number(lives, "ephemeral_1h_input_tokens"), 20);

    let plain = build_usage_json(100, 50, None);
    assert_eq!(number(&plain, "input_tokens"), 100);
    assert!(plain.get("cache_read_input_tokens").is_none());
}

#[test]
fn test_stable_across_billing_header_drift() {
    let mut tracker = PromptCacheTracker::new();
    let build = |billing_header: &str| {
        request(
            "sonnet-4-6",
            vec![system(billing_header, None), system(&long_system_text(), ephemeral())],
            vec![message("user", "hello world")],
        )
    };

    let req1 = build("x-anthropic-billing-header: cc_version=2.1.87.1; cch=aaaa;");
    let mut profile1 = tracker.build_claude_profile(&req1).unwrap();
    profile1.raise_total_input_tokens(2048);
    let first = tracker.compute(1, &profile1);
    assert_eq!(first.cache_read_input_tokens, 0);
    tracker.update(1, &profile1);

    let req2 =
        build("x-anthropic-billing-header: cc_version=2.1.87.42; cch=bbbb; padding=xxyyzz;");
    let mut profile2 = tracker.build_claude_profile(&req2).unwrap();
    profile2.raise_total_input_tokens(2048);
    let second = tracker.compute(1, &profile2);
    assert!(
        second.cache_read_input_tokens > 0,
        "billing header drift should not break cache hits: {second:?}"
    );
}

#[test]
fn test_stable_when_billing_header_appears_or_disappears() {
    let mut tracker = PromptCacheTracker::new();
    let build = |include_billing: bool| {
        let mut prompt = Vec::new();
        if include_billing {
            prompt.push(system(
                "x-anthropic-billing-header: cc_version=2.1.87.1; cch=aaaa;",
                None,
            ));
        }
        prompt.push(system(&long_system_text(), ephemeral()));
        request("sonnet-4-6", prompt, vec![message("user", "hello world")])
    };

    let mut with_billing = tracker.build_claude_profile(&build(true)).unwrap();
    with_billing.raise_total_input_tokens(2048);
    tracker.update(1, &with_billing);

    let mut without_billing = tracker.build_claude_profile(&build(false)).unwrap();
    without_billing.raise_total_input_tokens(2048);
    let result = tracker.compute(1, &without_billing);
    assert!(
        result.cache_read_input_tokens > 0,
        "cache should hit when billing header disappears: {result:?}"
    );
}

#[test]
fn test_implicit_breakpoint_at_message_end() {
    let mut tracker = PromptCacheTracker::new();

    let req1 = request(
        "sonnet-4-6",
        vec![system(&long_system_text(), ephemeral())],
        vec![message("user", "question one")],
    );
    let mut profile1 = tracker.build_claude_profile(&req1).unwrap();
    profile1.raise_total_input_tokens(2048);
    tracker.update(1, &profile1);

    let req2 = request(
        "sonnet-4-6",
        vec![system(&long_system_text(), ephemeral())],
        vec![
            message("user", "question one"),
            message("assistant", "answer one"),
            message("user", "follow-up question"),
        ],
    );
    let mut profile2 = tracker.build_claude_profile(&req2).unwrap();
    profile2.raise_total_input_tokens(4096);
    let result = tracker.compute(1, &profile2);
    assert!(
        result.cache_read_input_tokens > 0,
        "implicit message-end breakpoint should hit cache: {result:?}"
    );
    // The whole first request is read: its last breakpoint is the end of its message.
    assert_eq!(
        result.cache_read_input_tokens,
        profile1.breakpoints.last().unwrap().cumulative_tokens
    );
}

#[test]
fn test_accounts_are_isolated() {
    let mut tracker = PromptCacheTracker::new();
    let req = request(
        "sonnet-4-6",
        vec![system(&long_system_text(), ephemeral())],
        vec![message("user", "hello world")],
    );
    let mut profile = tracker.build_claude_profile(&req).unwrap();
    profile.raise_total_input_tokens(2048);

    tracker.update(1, &profile);
    let other_account = tracker.compute(2, &profile);
    assert_eq!(
        other_account.cache_read_input_tokens, 0,
        "cache entries must not leak across credentials"
    );
}

#[test]
fn test_min_cacheable_threshold() {
    let mut tracker = PromptCacheTracker::new();
    let req = request(
        "sonnet-4-6",
        vec![system("You are a helpful assistant.", ephemeral())],
        vec![message("user", "hi")],
    );
    let profile = tracker.build_claude_profile(&req).unwrap();
    let usage = tracker.compute(1, &profile);
    assert_eq!(usage, PromptCacheUsage::default());

    let opus_req = request(
        "opus-4-8",
        vec![system(&"word ".repeat(1200), ephemeral())],
        vec![message("user", "hi")],
    );
    let opus_profile = tracker.build_claude_profile(&opus_req).unwrap();
    let opus_usage = tracker.compute(1, &opus_profile);
    assert_eq!(opus_usage, PromptCacheUsage::default());
}

#[test]
fn test_first_request_creation_is_ratio_capped() {
    let mut tracker = PromptCacheTracker::new();
    let profile = profile(10_000, 1, DEFAULT_PROMPT_CACHE_TTL);

    let usage = tracker.compute(1, &profile);
    assert_eq!(usage.cache_read_input_tokens, 0);
    assert_eq!(usage.cache_creation_input_tokens, 8_500);
    assert_eq!(usage.cache_creation_5m_input_tokens, 8_500);
    assert_eq!(usage.cache_creation_1h_input_tokens, 0);
}

#[test]
fn test_profile_is_capped_to_model_context_window() {
    let mut tracker = PromptCacheTracker::new();
    let mut profile = PromptCacheProfile {
        breakpoints: vec![PromptCacheBreakpoint {
            fingerprint: [2u8; 32],
            cumulative_tokens: 5_033_520,
            ttl: DEFAULT_PROMPT_CACHE_TTL,
        }],
        total_input_tokens: 5_033_520,
        model: "opus-4-7".to_string(),
        context_window: 1_000_000,
    };
    profile.cap_to_context_window();

    assert_eq!(profile.total_input_tokens, 1_000_000);
    assert_eq!(profile.breakpoints[0].cumulative_tokens, 1_000_000);

    let usage = tracker.compute(1, &profile);
    assert_eq!(usage.cache_read_input_tokens, 0);
    assert_eq!(usage.cache_creation_input_tokens, 850_000);
    assert_eq!(usage.cache_creation_5m_input_tokens, 850_000);
    assert_eq!(usage.cache_creation_1h_input_tokens, 0);
}

#[test]
fn test_ttl_breakdown_matches_aggregate() {
    let mut tracker = PromptCacheTracker::new();
    let req = request(
        "sonnet-4-6",
        vec![system(&long_system_text(), ephemeral())],
        vec![
            message("user", "question one"),
            message("assistant", "answer one"),
            message("user", &long_system_text()),
        ],
    );

    let mut profile = tracker.build_claude_profile(&req).unwrap();
    profile.raise_total_input_tokens(4096);
    let first = tracker.compute(1, &profile);
    assert_eq!(
        first.cache_creation_5m_input_tokens + first.cache_creation_1h_input_tokens,
        first.cache_creation_input_tokens,
        "first request breakdown mismatch: {first:?}"
    );

    tracker.update(1, &profile);
    let second = tracker.compute(1, &profile);
    assert_eq!(
        second.cache_creation_5m_input_tokens + second.cache_creation_1h_input_tokens,
        second.cache_creation_input_tokens,
        "hit-path breakdown mismatch: {second:?}"
    );
}

#[test]
fn test_ttl_normalization_and_breakdown() {
    assert_eq!(normalize_ttl(0), 0);
    assert_eq!(normalize_ttl(60 * SECOND), DEFAULT_PROMPT_CACHE_TTL);
    assert_eq!(normalize_ttl(300 * SECOND), DEFAULT_PROMPT_CACHE_TTL);
    assert_eq!(normalize_ttl(301 * SECOND), ONE_HOUR);
    assert_eq!(normalize_ttl(7200 * SECOND), ONE_HOUR);

    let none = Vec::new();
    assert_eq!(parse_ttl_value(&json(r#""5m""#), &none), Some(300 * SECOND));
    assert_eq!(parse_ttl_value(&json(r#""1h""#), &none), Some(3600 * SECOND));
    assert_eq!(parse_ttl_value(&json("300"), &none), Some(300 * SECOND));
}

#[test]
fn test_canonicalization_ignores_cache_control_and_key_order() {
    let with_control = json(
        r#"{"type": "text", "text": "stable", "cache_control": {"type": "ephemeral"}}"#,
    );
    let without_control = json(r#"{"text": "stable", "type": "text"}"#);
    assert_eq!(
        canonicalize_cache_value(&with_control),
        canonicalize_cache_value(&without_control)
    );
}

#[test]
fn canonical_text_is_exact() {
    let value = json(
        r#"{ "b": [1, 2.5, -3, 1e3], "a": {"z": null, "cache_control": 1, "y": true},
             "text": "line\n\"quoted\" \u0007 é" }"#,
    );
    assert_eq!(
        canonicalize_cache_value(&value),
        "{\"a\":{\"y\":true,\"z\":null},\"b\":[1,2.5,-3,1000.0],\
         \"text\":\"line\\n\\\"quoted\\\" \\u0007 é\"}"
    );
    // Keys go by their characters, and the later of two members counts.
    assert_eq!(canonicalize_cache_value(&json(r#"{"b":1,"a":2,"b":3}"#)), r#"{"a":2,"b":3}"#);
    let members = vec![
        ("b".to_string(), JsonValue::Number("1".to_string())),
        ("\u{10000}".to_string(), JsonValue::Null),
        ("b".to_string(), JsonValue::Bool(false)),
        ("\u{ffff}".to_string(), JsonValue::Null),
    ];
    assert_eq!(
        canonicalize_cache_value(&JsonValue::Object(members)),
        "{\"b\":false,\"\u{ffff}\":null,\"\u{10000}\":null}"
    );
}

#[test]
fn ttl_values_are_read_as_documented() {
    let none = Vec::new();
    assert_eq!(parse_ttl_value(&json(r#"" 300S ""#), &none), Some(300 * SECOND));
    assert_eq!(parse_ttl_value(&json(r#""300""#), &none), Some(300 * SECOND));
    assert_eq!(parse_ttl_value(&json(r#""+300""#), &none), Some(300 * SECOND));
    assert_eq!(parse_ttl_value(&json(r#""""#), &none), None);
    assert_eq!(parse_ttl_value(&json(r#""0""#), &none), None);
    assert_eq!(parse_ttl_value(&json(r#""0h""#), &none), None);
    assert_eq!(parse_ttl_value(&json(r#""soon""#), &none), None);
    assert_eq!(parse_ttl_value(&json("0"), &none), None);
    assert_eq!(parse_ttl_value(&json("true"), &none), None);

    // A decimal number is looked up among the measured spans.
    let measures = vec![
        TtlMeasure { text: "1.5".to_string(), unit_secs: 60, nanos: Some(90 * SECOND) },
        TtlMeasure { text: "-1".to_string(), unit_secs: 3600, nanos: None },
    ];
    assert_eq!(parse_ttl_value(&json(r#""1.5m""#), &measures), Some(90 * SECOND));
    assert_eq!(parse_ttl_value(&json(r#""1.5h""#), &measures), None);
    assert_eq!(parse_ttl_value(&json(r#""-1h""#), &measures), None);
}

#[test]
fn cache_control_gives_a_life() {
    let none = Vec::new();
    let life = |control: &str| extract_cache_ttl_from_control(Some(&json(control)), &none);
    assert_eq!(life(r#"{"type":"ephemeral"}"#), DEFAULT_PROMPT_CACHE_TTL);
    assert_eq!(life(r#"{"type":"EPHEMERAL","ttl":"1h"}"#), ONE_HOUR);
    assert_eq!(life(r#"{"type":"ephemeral","ttl":"soon"}"#), DEFAULT_PROMPT_CACHE_TTL);
    assert_eq!(life(r#"{"type":"persistent"}"#), 0);
    assert_eq!(life(r#"{}"#), 0);
    assert_eq!(life(r#""ephemeral""#), 0);
    assert_eq!(extract_cache_ttl_from_control(None, &none), 0);
    let block = json(r#"{"type":"text","cache_control":{"type":"ephemeral","ttl":400}}"#);
    assert_eq!(extract_cache_ttl(&block, &none), ONE_HOUR);
    assert_eq!(extract_cache_ttl(&json("{}"), &none), 0);
}

#[test]
fn ttl_queries_list_what_needs_floating_point() {
    let mut req = request(
        "sonnet-4-6",
        vec![system("prompt", Some(json(r#"{"type":"ephemeral","ttl":"0.5h"}"#)))],
        vec![Message {
            role: "user".to_string(),
            content: json(
                r#"[{"type":"text","text":"a","cache_control":{"type":"ephemeral","ttl":"5m"}},
                    {"type":"text","text":"b","cache_control":{"type":"ephemeral","ttl":1.5}}]"#,
            ),
        }],
    );
    let queries = ttl_queries(&req);
    assert_eq!(queries.len(), 2);
    assert_eq!((queries[0].text.as_str(), queries[0].unit_secs), ("0.5", 3600));
    assert_eq!((queries[1].text.as_str(), queries[1].unit_secs), ("1.5", 1));

    req.ttl_measures = queries
        .into_iter()
        .map(|query| {
            let nanos = query.text.parse::<f64>().ok().filter(|v| *v > 0.0).map(|v| {
                std::time::Duration::from_secs_f64(v * query.unit_secs as f64).as_nanos()
            });
            TtlMeasure { text: query.text, unit_secs: query.unit_secs, nanos }
        })
        .collect();
    let blocks = flatten_claude_cache_blocks(&req);
    let lives: Vec<u128> = blocks.iter().map(|block| block.ttl).collect();
    assert_eq!(
        lives,
        vec![0, ONE_HOUR, DEFAULT_PROMPT_CACHE_TTL, DEFAULT_PROMPT_CACHE_TTL]
    );
}

#[test]
fn requests_are_laid_out_in_order() {
    let mut req = request(
        "sonnet-4-6",
        vec![system("prompt", None)],
        vec![
            message("user", "hi"),
            Message { role: "assistant".to_string(), content: JsonValue::Null },
            Message {
                role: "user".to_string(),
                content: json(
                    r#"[{"type":"text","text":"one"},
                        {"type":"text","text":" X-Anthropic-Billing-Header: drift"},
                        {"type":"image","source":7}]"#,
                ),
            },
            Message { role: "user".to_string(), content: json("5") },
        ],
    );
    req.tool_choice = Some(json(r#"{"type":"auto"}"#));
    req.tools = Some(vec![RequestTool {
        name: "Read".to_string(),
        description: "Read files".to_string(),
        input_schema: json(r#"{"type":"object"}"#),
        cache_control: ephemeral(),
    }]);
    let blocks = flatten_claude_cache_blocks(&req);
    let shown: Vec<(&str, bool)> =
        blocks.iter().map(|block| (block.canonical.as_str(), block.is_message_end)).collect();
    assert_eq!(
        shown,
        vec![
            (
                r#"{"kind":"request_prelude","model":"sonnet-4-6","tool_choice":{"type":"auto"}}"#,
                false
            ),
            (
                r#"{"description":"Read files","input_schema":{"type":"object"},"kind":"tool","name":"Read"}"#,
                false
            ),
            (r#"{"block":{"text":"prompt","type":"text"},"kind":"system"}"#, false),
            (r#"{"block":{"text":"hi","type":"text"},"kind":"message","role":"user"}"#, true),
            (r#"{"block":{"text":"one","type":"text"},"kind":"message","role":"user"}"#, false),
            (
                r#"{"block":{"source":7,"type":"image"},"kind":"message","role":"user"}"#,
                true
            ),
            (r#"{"block":5,"kind":"message","role":"user"}"#, true),
        ]
    );
    assert_eq!(blocks[1].ttl, DEFAULT_PROMPT_CACHE_TTL);
    let sum: i32 = blocks.iter().map(|block| block.tokens).sum();
    assert_eq!(count_tokens(&blocks), Some(sum));
}

#[test]
fn billing_headers_are_told_from_other_blocks() {
    let billing = |text: &str| is_billing_header_block(&json(text));
    assert!(billing(r#"{"type":"text","text":"\n X-ANTHROPIC-billing-header: a"}"#));
    assert!(billing(r#"{"type":"","text":"x-anthropic-billing-header:"}"#));
    assert!(billing(r#"{"text":"x-anthropic-billing-header: a"}"#));
    assert!(billing(r#"{"type":5,"text":"x-anthropic-billing-header: a"}"#));
    assert!(!billing(r#"{"type":"image","text":"x-anthropic-billing-header: a"}"#));
    assert!(!billing(r#"{"type":"text","text":"about x-anthropic-billing-header: a"}"#));
    assert!(!billing(r#"{"type":"text"}"#));
    assert!(!billing(r#""x-anthropic-billing-header: a""#));
    assert!(is_billing_text("x-anthropic-billing-header: drift"));
    assert!(!is_billing_text("X-anthropic-billing-header: drift"));
}

#[test]
fn billing_items_before_others_are_invisible() {
    let build = |content: &str| {
        let req = request(
            "sonnet-4-6",
            Vec::new(),
            vec![Message { role: "user".to_string(), content: json(content) }],
        );
        flatten_claude_cache_blocks(&req)
            .into_iter()
            .map(|block| (block.canonical, block.tokens, block.ttl, block.is_message_end))
            .collect::<Vec<_>>()
    };
    assert_eq!(
        build(r#"[{"text":"a"},{"text":"x-anthropic-billing-header: 1"},{"text":"b"}]"#),
        build(r#"[{"text":"a"},{"text":"b"}]"#)
    );
}

#[test]
fn thresholds_depend_on_the_model() {
    assert_eq!(min_cacheable_tokens_for_model("Some-OPUS-4"), 4096);
    assert_eq!(min_cacheable_tokens_for_model("sonnet-4-6"), 1024);
    assert_eq!(min_cacheable_tokens_for_lowered("opus"), 4096);
    assert_eq!(min_cacheable_tokens_for_lowered("OPUS"), 1024);
    assert_eq!(context_window_for_model(200_000), 200_000);
    assert_eq!(context_window_for_model(5), 1024);
}

#[test]
fn profiles_follow_explicit_and_implicit_breakpoints() {
    let tracker = PromptCacheTracker::new();
    let req = request(
        "sonnet-4-6",
        vec![system("first", Some(json(r#"{"type":"ephemeral","ttl":"1h"}"#))), system("b", None)],
        vec![message("user", "hi"), message("assistant", "ho")],
    );
    let blocks = flatten_claude_cache_blocks(&req);
    let profile = tracker.profile_if_countable(&req).expect("countable").expect("a profile");
    assert_eq!(profile.breakpoints.len(), 3);
    assert!(profile.breakpoints.iter().all(|breakpoint| breakpoint.ttl == ONE_HOUR));
    let upto = |n: usize| blocks[..n].iter().map(|block| block.tokens).sum::<i32>();
    let tokens: Vec<i32> =
        profile.breakpoints.iter().map(|breakpoint| breakpoint.cumulative_tokens).collect();
    assert_eq!(tokens, vec![upto(2), upto(4), upto(5)]);
    assert_eq!(profile.total_input_tokens, upto(5));

    // The fingerprint is that of the framed texts of the prefix.
    let mut bytes = Vec::new();
    for block in &blocks[..2] {
        bytes.extend_from_slice(block.canonical.len().to_string().as_bytes());
        bytes.push(0);
        bytes.extend_from_slice(block.canonical.as_bytes());
        bytes.push(0);
    }
    let digest: [u8; 32] = sha2::Digest::finalize(sha2::Digest::chain_update(
        <sha2::Sha256 as sha2::Digest>::new(),
        &bytes,
    ))
    .into();
    assert_eq!(profile.breakpoints[0].fingerprint, digest);
}

#[test]
fn estimates_raise_the_total_within_the_window() {
    let mut raised = profile(2_000, 1, ONE_HOUR);
    raised.raise_total_input_tokens(-5);
    assert_eq!(raised.total_input_tokens, 2_000);
    raised.raise_total_input_tokens(3_000);
    assert_eq!(raised.total_input_tokens, 3_000);
    raised.raise_total_input_tokens(2_500);
    assert_eq!(raised.total_input_tokens, 3_000);
    raised.raise_total_input_tokens(i32::MAX);
    assert_eq!(raised.total_input_tokens, 200_000);
    assert_eq!(raised.breakpoints[0].cumulative_tokens, 2_000);
}

#[test]
fn reportable_tokens_agree_with_floating_point() {
    let mut total: i32 = 0;
    loop {
        assert_eq!(max_reportable_cache_tokens(total), ((total as f64) * 0.85) as i32);
        match total.checked_add(if total < 100_000 { 1 } else { 1 + total / 9_973 }) {
            Some(next) => total = next,
            None => return,
        }
    }
}

#[test]
fn reportable_tokens_are_never_negative() {
    assert_eq!(max_reportable_cache_tokens(-1), 0);
    assert_eq!(max_reportable_cache_tokens(i32::MIN), 0);
    assert_eq!(max_reportable_cache_tokens(i32::MAX), ((i32::MAX as f64) * 0.85) as i32);
    assert_eq!(max_reportable_cache_tokens(20), 17);
}

#[test]
fn stored_prefixes_live_as_long_as_they_should() {
    let mut tracker = PromptCacheTracker::new();
    let request = profile(10_000, 1, DEFAULT_PROMPT_CACHE_TTL);
    tracker.update_at(1, &request, 0);

    let alive = tracker.compute_at(1, &request, DEFAULT_PROMPT_CACHE_TTL - 1);
    assert_eq!(alive.cache_read_input_tokens, 8_500);
    assert_eq!(alive.cache_creation_input_tokens, 0);

    // Reading renewed the prefix.
    let renewed = tracker.compute_at(1, &request, 2 * DEFAULT_PROMPT_CACHE_TTL - 2);
    assert_eq!(renewed, alive);

    let dead = tracker.compute_at(1, &request, 3 * DEFAULT_PROMPT_CACHE_TTL - 2);
    assert_eq!(dead.cache_read_input_tokens, 0);
    assert_eq!(dead.cache_creation_input_tokens, 8_500);
}

#[test]
fn counting_one_account_leaves_others_alone() {
    let mut tracker = PromptCacheTracker::new();
    let one = profile(10_000, 1, ONE_HOUR);
    let two = profile(20_000, 2, ONE_HOUR);
    tracker.update_at(7, &two, 0);
    let before = tracker.compute_at(7, &two, 5);
    tracker.update_at(1, &one, 6);
    tracker.compute_at(1, &two, 7);
    assert_eq!(tracker.compute_at(7, &two, 8), before);
    assert_eq!(tracker.compute_at(7, &one, 9).cache_read_input_tokens, 0);
}

#[test]
fn follow_ups_read_the_stored_prefix() {
    let mut tracker = PromptCacheTracker::new();
    let stored = profile(2_000, 1, DEFAULT_PROMPT_CACHE_TTL);
    tracker.update_at(1, &stored, 0);
    let mut follow_up = profile(2_000, 1, DEFAULT_PROMPT_CACHE_TTL);
    follow_up.breakpoints.push(PromptCacheBreakpoint {
        fingerprint: [9; 32],
        cumulative_tokens: 5_000,
        ttl: ONE_HOUR,
    });
    follow_up.total_input_tokens = 6_000;
    let usage = tracker.compute_at(1, &follow_up, 1);
    assert_eq!(
        usage,
        PromptCacheUsage {
            cache_creation_input_tokens: 3_000,
            cache_read_input_tokens: 2_000,
            cache_creation_5m_input_tokens: 0,
            cache_creation_1h_input_tokens: 3_000,
        }
    );
}

#[test]
fn thresholds_can_be_given() {
    let mut tracker = PromptCacheTracker::new();
    let request = profile(1_500, 1, ONE_HOUR);
    tracker.update_above(1, &request, 0, 1_501);
    assert_eq!(tracker.compute_above(1, &request, 1, 1_500).cache_read_input_tokens, 0);
    tracker.update_above(1, &request, 2, 1_500);
    assert_eq!(tracker.compute_above(1, &request, 3, 1_500).cache_read_input_tokens, 1_275);
    assert_eq!(
        tracker.compute_above(1, &request, 4, 1_501),
        PromptCacheUsage::default()
    );
}

#[test]
fn expired_entries_are_dropped() {
    let entry = |byte: u8, expires_at: u128| PromptCacheEntry {
        account_id: 1,
        fingerprint: [byte; 32],
        expires_at,
        ttl: SECOND,
    };
    let mut entries = vec![entry(1, 10), entry(2, 11), entry(3, 12)];
    prune_expired(&mut entries, 11);
    assert_eq!(entries.len(), 1);
    assert_eq!(entries[0].fingerprint, [3; 32]);
}

#[test]
fn new_tokens_are_split_by_life() {
    let mut request = profile(2_000, 1, DEFAULT_PROMPT_CACHE_TTL);
    for (byte, cumulative_tokens, ttl) in
        [(2, 3_000, ONE_HOUR), (3, 3_500, DEFAULT_PROMPT_CACHE_TTL)]
    {
        request.breakpoints.push(PromptCacheBreakpoint {
            fingerprint: [byte; 32],
            cumulative_tokens,
            ttl,
        });
    }
    request.total_input_tokens = 10_000;
    assert_eq!(compute_ttl_breakdown(&request, 0, 8_500, 1_024), (2_500, 1_000));
    assert_eq!(compute_ttl_breakdown(&request, 2_500, 3_200, 1_024), (200, 500));
    assert_eq!(compute_ttl_breakdown(&request, 0, 8_500, 2_500), (500, 3_000));
}

#[test]
fn bills_cover_every_token_once() {
    let mut tracker = PromptCacheTracker::new();
    let request = profile(10_000, 1, ONE_HOUR);
    let usage = tracker.compute_at(1, &request, 0);
    assert_eq!(billed_input_tokens(10_000, Some(&usage)), 1_500);
    assert_eq!(billed_input_tokens(100, Some(&usage)), 0);
    assert_eq!(billed_input_tokens(100, None), 100);
    let shown = build_usage_json(10_000, -1, Some(&usage));
    assert_eq!(
        canonicalize_cache_value(&shown),
        "{\"cache_creation\":{\"ephemeral_1h_input_tokens\":8500,\
         \"ephemeral_5m_input_tokens\":0},\"cache_creation_input_tokens\":8500,\
         \"cache_read_input_tokens\":0,\"input_tokens\":1500,\"output_tokens\":-1}"
    );
}

#[test]
fn cache_control_changes_neither_text_nor_tokens() {
    let build = |content: &str| {
        let req = request(
            "sonnet-4-6",
            Vec::new(),
            vec![Message { role: "user".to_string(), content: json(content) }],
        );
        flatten_claude_cache_blocks(&req).pop().expect("a block")
    };
    let with = build(r#"[{"type":"text","text":"a","cache_control":{"type":"ephemeral"}}]"#);
    let without = build(r#"[{"text":"a","type":"text"}]"#);
    assert_eq!(with.canonical, without.canonical);
    assert_eq!(with.tokens, without.tokens);
    assert_eq!((with.ttl, without.ttl), (DEFAULT_PROMPT_CACHE_TTL, 0));
}

#[test]
fn conversations_extend_their_profiles() {
    let tracker = PromptCacheTracker::new();
    let mut req = request(
        "sonnet-4-6",
        vec![system(&long_system_text(), ephemeral())],
        vec![message("user", "question one")],
    );
    let before = tracker.build_claude_profile(&req).unwrap();
    req.messages.push(message("assistant", "answer one"));
    req.messages.push(message("user", "follow-up question"));
    let after = tracker.build_claude_profile(&req).unwrap();
    assert_eq!((before.breakpoints.len(), after.breakpoints.len()), (2, 4));
    for (old, new) in before.breakpoints.iter().zip(&after.breakpoints) {
        assert_eq!(old.fingerprint, new.fingerprint);
        assert_eq!(old.cumulative_tokens, new.cumulative_tokens);
        assert_eq!(old.ttl, new.ttl);
    }
    let tokens: Vec<i32> =
        after.breakpoints.iter().map(|breakpoint| breakpoint.cumulative_tokens).collect();
    assert!(tokens.windows(2).all(|pair| pair[0] <= pair[1]));
    assert!(tokens.iter().all(|tokens| *tokens <= after.total_input_tokens));
}

#[test]
fn every_long_prefix_is_stored() {
    let mut tracker = PromptCacheTracker::new();
    let mut stored = profile(2_000, 1, ONE_HOUR);
    for (byte, cumulative_tokens) in [(2, 3_000), (3, 4_000)] {
        stored.breakpoints.push(PromptCacheBreakpoint {
            fingerprint: [byte; 32],
            cumulative_tokens,
            ttl: ONE_HOUR,
        });
    }
    stored.total_input_tokens = 5_000;
    tracker.update_at(1, &stored, 0);
    for byte in 1..=3 {
        let usage = tracker.compute_at(1, &profile(10_000, byte, ONE_HOUR), 1);
        assert_eq!(usage.cache_read_input_tokens, 8_500);
    }
    assert_eq!(
        tracker.compute_at(1, &profile(10_000, 4, ONE_HOUR), 1).cache_read_input_tokens,
        0
    );
}

#[test]
fn capping_and_raising_come_to_the_same_in_any_order() {
    let shown = |profile: &PromptCacheProfile| format!("{profile:?}");
    let mut one = profile(300_000, 1, ONE_HOUR);
    one.cap_to_context_window();
    let once = shown(&one);
    one.cap_to_context_window();
    assert_eq!(shown(&one), once);

    let (mut a, mut b, mut c) =
        (profile(2_000, 1, ONE_HOUR), profile(2_000, 1, ONE_HOUR), profile(2_000, 1, ONE_HOUR));
    a.raise_total_input_tokens(3_000);
    a.raise_total_input_tokens(5_000);
    b.raise_total_input_tokens(5_000);
    b.raise_total_input_tokens(3_000);
    c.raise_total_input_tokens(5_000);
    assert_eq!(shown(&a), shown(&c));
    assert_eq!(shown(&b), shown(&c));
}

#[test]
fn canonical_texts_differ_where_values_do() {
    let values = [
        "null", "true", "false", "0", "1", "-1", "10", "\"1\"", "\"null\"", "\"\"", "[]", "[[]]", "{}",
        "[{}]", "[1,2]", "[2,1]", "[12]", "[1,[2]]", "[[1],2]", r#"{"a":1}"#, r#"{"a":2}"#,
        r#"{"b":1}"#, r#"{"a":1,"b":1}"#, r#"{"a":{"b":1}}"#, r#"{"a":[1]}"#, r#"{"a":"1"}"#,
        r#"["a","b"]"#, r#"["a\",\"b"]"#, r#"{"a\":1,\"b":1}"#,
    ];
    let texts: Vec<String> =
        values.iter().map(|value| canonicalize_cache_value(&json(value))).collect();
    for (i, text) in texts.iter().enumerate() {
        assert!(texts[..i].iter().all(|other| other != text), "{text}");
        // What is read back has the same text.
        assert_eq!(canonicalize_cache_value(&json(text)), *text);
    }
    // Only what stands under `cache_control` and the order of keys is lost.
    assert_eq!(
        canonicalize_cache_value(&json(r#"[{"b":{"cache_control":2,"c":3},"a":1,"cache_control":{}}]"#)),
        canonicalize_cache_value(&json(r#"[{"a":1,"b":{"c":3}}]"#))
    );
}

#[test]
fn any_number_of_billing_headers_keeps_the_profile() {
    let tracker = PromptCacheTracker::new();
    let build = |headers: &[(usize, &str)]| {
        let mut prompt =
            vec![system("first", None), system(&long_system_text(), ephemeral()), system("c", None)];
        for (place, header) in headers {
            prompt.insert(*place, system(header, None));
        }
        let profile = tracker
            .build_claude_profile(&request("sonnet-4-6", prompt, vec![message("user", "hi")]))
            .expect("a profile");
        let breakpoints: Vec<([u8; 32], i32, u128)> = profile
            .breakpoints
            .iter()
            .map(|breakpoint| (breakpoint.fingerprint, breakpoint.cumulative_tokens, breakpoint.ttl))
            .collect();
        (breakpoints, profile.total_input_tokens, profile.model)
    };
    let plain = build(&[]);
    assert_eq!(build(&[(0, "x-anthropic-billing-header: a"), (2, "X-Anthropic-Billing-Header: b")]), plain);
    assert_eq!(
        build(&[
            (3, "  x-anthropic-billing-header:"),
            (1, "x-anthropic-billing-header: c"),
            (0, "x-anthropic-billing-header: d"),
        ]),
        plain
    );
    assert_ne!(build(&[(0, "anthropic-billing-header: e")]), plain);
}

#[test]
fn measures_are_told_from_missing_ones() {
    let measure = |text: &str, unit_secs: u64, nanos: Option<u128>| TtlMeasure {
        text: text.to_string(),
        unit_secs,
        nanos,
    };
    let mut req = request(
        "sonnet-4-6",
        vec![
            system("a", Some(json(r#"{"type":"ephemeral","ttl":"1.5h"}"#))),
            system("b", Some(json(r#"{"type":"ephemeral","ttl":"1.5m"}"#))),
        ],
        vec![message("user", "hi")],
    );
    let lives = |req: &MessagesRequest| {
        flatten_claude_cache_blocks(req)[1..3].iter().map(|block| block.ttl).collect::<Vec<_>>()
    };
    assert!(!is_fully_measured(&req));
    assert_eq!(lives(&req), vec![DEFAULT_PROMPT_CACHE_TTL, DEFAULT_PROMPT_CACHE_TTL]);
    req.ttl_measures.push(measure("1.5", 3600, Some(5_400 * SECOND)));
    assert!(!is_fully_measured(&req));
    req.ttl_measures.push(measure("1.5", 60, Some(90 * SECOND)));
    assert!(is_fully_measured(&req));
    assert!(has_measures(&req.ttl_measures, &ttl_queries(&req)));
    assert_eq!(lives(&req), vec![ONE_HOUR, DEFAULT_PROMPT_CACHE_TTL]);
    // Once all is measured, further entries change nothing.
    req.ttl_measures.push(measure("1.5", 60, Some(5_400 * SECOND)));
    req.ttl_measures.push(measure("2.5", 3600, Some(9_000 * SECOND)));
    assert_eq!(lives(&req), vec![ONE_HOUR, DEFAULT_PROMPT_CACHE_TTL]);

    // Nothing is missing where nothing needs floating point.
    assert!(is_fully_measured(&request("sonnet-4-6", Vec::new(), vec![message("user", "hi")])));
}

#[test]
fn messages_end_with_their_last_block() {
    let ends = |content: &str| {
        let req = request(
            "sonnet-4-6",
            Vec::new(),
            vec![Message { role: "user".to_string(), content: json(content) }],
        );
        flatten_claude_cache_blocks(&req)[1..]
            .iter()
            .map(|block| block.is_message_end)
            .collect::<Vec<_>>()
    };
    assert_eq!(ends(r#""text""#), vec![true]);
    assert_eq!(ends(r#"[{"text":"a"},{"text":"b"},{"text":"c"}]"#), vec![false, false, true]);
    assert_eq!(
        ends(r#"[{"text":"a"},{"text":"x-anthropic-billing-header: 1"},{"text":"c"}]"#),
        vec![false, true]
    );
    assert_eq!(ends(r#"[{"text":"a"},{"text":"x-anthropic-billing-header: 1"}]"#), vec![false]);
    assert_eq!(ends("[]"), Vec::<bool>::new());
}

#[test]
fn short_breakpoints_never_count() {
    let at = |byte: u8, cumulative_tokens: i32, ttl: u128| PromptCacheBreakpoint {
        fingerprint: [byte; 32],
        cumulative_tokens,
        ttl,
    };
    let row = |breakpoints: Vec<PromptCacheBreakpoint>| PromptCacheProfile {
        breakpoints,
        ..profile(4_000, 9, ONE_HOUR)
    };
    let mixed = row(vec![
        at(1, 10, ONE_HOUR),
        at(2, 2_000, DEFAULT_PROMPT_CACHE_TTL),
        at(3, 999, ONE_HOUR),
        at(4, 3_000, ONE_HOUR),
        at(5, 20, ONE_HOUR),
    ]);
    let long = row(vec![at(2, 2_000, DEFAULT_PROMPT_CACHE_TTL), at(4, 3_000, ONE_HOUR)]);
    let short = row(vec![at(1, 10, ONE_HOUR), at(3, 999, ONE_HOUR), at(5, 20, ONE_HOUR)]);
    let mut a = PromptCacheTracker::new();
    let mut b = PromptCacheTracker::new();
    for now in [0, 1] {
        let usage = a.compute_above(1, &mixed, now, 1_000);
        assert_eq!(usage, b.compute_above(1, &long, now, 1_000));
        assert_eq!(
            usage.cache_creation_input_tokens + usage.cache_read_input_tokens,
            3_000
        );
        a.update_above(1, &mixed, now, 1_000);
        b.update_above(1, &long, now, 1_000);
    }
    // What fell short was not stored, so a lower threshold does not find it.
    assert_eq!(a.compute_above(1, &short, 2, 5).cache_read_input_tokens, 0);
}
