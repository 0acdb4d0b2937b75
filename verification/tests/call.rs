use kiro_rs::call::{CallAction, CallEvent, FailureCause, RetryLoop};
use kiro_rs::json::JsonValue;
use kiro_rs::provider::KiroProvider;

fn provider() -> KiroProvider {
    KiroProvider::with_proxy(None, vec!["ide".to_string()], "ide".to_string())
}

fn acquired(credential_id: u64) -> CallEvent {
    CallEvent::Acquired { credential_id, endpoint: None }
}

fn responded(status: u16) -> CallEvent {
    CallEvent::Responded { status, retry_after: None }
}

fn body(text: &str) -> CallEvent {
    CallEvent::Body { body: text.to_string(), monthly_limit: false, token_invalid: false }
}

fn run(provider: &KiroProvider, call: &mut RetryLoop, events: Vec<CallEvent>) -> CallAction {
    for event in events {
        provider.advance(call, event);
    }
    call.action()
}

/// A call that has sent its request with credential 7.
fn sent(provider: &KiroProvider, mut call: RetryLoop, total: usize) -> RetryLoop {
    let action = run(
        provider,
        &mut call,
        vec![
            CallEvent::Counted { total, available: total },
            CallEvent::Excluded { all: false },
            acquired(7),
        ],
    );
    assert_eq!(action, CallAction::Send { credential_id: 7, endpoint: 0 });
    call
}

fn refused(provider: &KiroProvider, call: RetryLoop, status: u16, reply: CallEvent) -> RetryLoop {
    let mut call = sent(provider, call, 2);
    assert_eq!(
        run(provider, &mut call, vec![responded(status)]),
        CallAction::ReadBody { credential_id: 7, endpoint: 0 }
    );
    provider.advance(&mut call, reply);
    call
}

#[test]
fn calls_know_their_model_and_session() {
    let provider = provider();
    let request = r#"{"conversationState":{"conversationId":"c",
        "currentMessage":{"userInputMessage":{"modelId":"m"}}}}"#;
    for call in [provider.call_api(request), provider.call_api_stream(request)] {
        assert_eq!(call.model(), Some("m"));
        assert_eq!(call.session_id(), Some("c"));
        assert_eq!(call.action(), CallAction::CountCredentials);
    }
    let call = provider.call_mcp();
    assert_eq!((call.model(), call.session_id()), (None, None));
}

#[test]
fn a_success_ends_the_call() {
    let provider = provider();
    let mut call = sent(&provider, provider.call_api("{}"), 1);
    assert_eq!(call.max_retries(), 3);
    assert_eq!(
        run(&provider, &mut call, vec![responded(204)]),
        CallAction::Succeed { credential_id: 7 }
    );
    assert_eq!(call.error(), None);
}

#[test]
fn an_event_for_another_action_is_ignored() {
    let provider = provider();
    let mut call = sent(&provider, provider.call_api("{}"), 1);
    let before = format!("{call:?}");
    run(
        &provider,
        &mut call,
        vec![
            CallEvent::Slept,
            CallEvent::Excluded { all: true },
            body("late"),
            CallEvent::Counted { total: 9, available: 9 },
            responded(99),
            responded(1000),
        ],
    );
    assert_eq!(format!("{call:?}"), before);
}

#[test]
fn network_errors_blame_no_credential() {
    let provider = provider();
    let mut call = sent(&provider, provider.call_api("{}"), 1);
    for attempt in 0..2 {
        assert_eq!(
            run(&provider, &mut call, vec![CallEvent::SendFailed]),
            CallAction::Sleep { attempt }
        );
        assert!(call.failed_ids().is_empty());
        run(
            &provider,
            &mut call,
            vec![CallEvent::Slept, CallEvent::Excluded { all: false }, acquired(7)],
        );
    }
    assert_eq!(
        run(&provider, &mut call, vec![CallEvent::SendFailed]),
        CallAction::ReturnOutside
    );
    assert_eq!(call.attempt(), 3);
}

#[test]
fn calls_without_credentials_end_with_the_outside_error() {
    let provider = provider();
    let mut call = provider.call_mcp();
    let mut events = vec![CallEvent::Counted { total: 0, available: 0 }];
    events.push(CallEvent::Excluded { all: true });
    events.push(CallEvent::NotAcquired { cooling_down: false });
    assert_eq!(run(&provider, &mut call, events), CallAction::ReturnOutside);

    let mut call = provider.call_mcp();
    let events = vec![
        CallEvent::Counted { total: 5, available: 5 },
        CallEvent::Excluded { all: false },
        CallEvent::NotAcquired { cooling_down: true },
    ];
    assert_eq!(run(&provider, &mut call, events), CallAction::ReturnOutside);
    assert_eq!(call.attempt(), 0);
}

#[test]
fn a_client_that_cannot_be_built_ends_the_call() {
    let provider = provider();
    let mut call = sent(&provider, provider.call_mcp(), 1);
    assert_eq!(
        run(&provider, &mut call, vec![CallEvent::ClientFailed]),
        CallAction::ReturnOutside
    );
}

#[test]
fn unknown_endpoints_are_reported_and_passed_over() {
    let provider = provider();
    let mut call = provider.call_api("{}");
    let mut events = vec![CallEvent::Counted { total: 1, available: 1 }];
    for _ in 0..3 {
        events.push(CallEvent::Excluded { all: false });
        events.push(CallEvent::Acquired { credential_id: 7, endpoint: Some("cli".to_string()) });
        events.push(CallEvent::Reported { has_available: false });
    }
    let last = events.pop().unwrap();
    assert_eq!(
        run(&provider, &mut call, events),
        CallAction::ReportFailure { credential_id: 7, cause: FailureCause::Endpoint }
    );
    assert_eq!(run(&provider, &mut call, vec![last]), CallAction::Fail);
    assert_eq!(call.error(), Some("未知端点: cli"));
}

#[test]
fn used_up_quotas_are_reported() {
    let provider = provider();
    let limit = || CallEvent::Body {
        body: "spent".to_string(),
        monthly_limit: true,
        token_invalid: false,
    };
    let mut call = refused(&provider, provider.call_api("{}"), 402, limit());
    assert_eq!(call.action(), CallAction::ReportQuotaExhausted { credential_id: 7 });
    assert_eq!(
        run(&provider, &mut call, vec![CallEvent::Reported { has_available: true }]),
        CallAction::AskExcluded
    );
    assert_eq!(call.failed_ids(), &vec![7]);
    assert_eq!(call.error(), Some("非流式 API 请求失败: 402 Payment Required spent"));

    let mut call = refused(&provider, provider.call_mcp(), 402, limit());
    assert_eq!(
        run(&provider, &mut call, vec![CallEvent::Reported { has_available: false }]),
        CallAction::Fail
    );
    assert!(call.failed_ids().is_empty());
    assert_eq!(call.error(), Some("MCP 请求失败（所有凭据已用尽）: 402 Payment Required spent"));

    let call = refused(&provider, provider.call_api("{}"), 402, body("odd"));
    assert_eq!(call.action(), CallAction::Fail);
    assert_eq!(call.error(), Some("非流式 API 请求失败: 402 Payment Required odd"));
}

#[test]
fn bad_requests_end_the_call_unless_the_model_is_refused() {
    let provider = provider();
    let call = refused(&provider, provider.call_api_stream("{}"), 400, body("bad"));
    assert_eq!(call.action(), CallAction::Fail);
    assert_eq!(call.error(), Some("流式 API 请求失败: 400 Bad Request bad"));

    let denied = r#"{"reason":"INVALID_MODEL_ID"}"#;
    let call = refused(&provider, provider.call_mcp(), 400, body(denied));
    assert_eq!(call.action(), CallAction::Fail);

    let mut call = refused(&provider, provider.call_api_stream("{}"), 400, body(denied));
    assert_eq!(
        call.action(),
        CallAction::ReportFailure { credential_id: 7, cause: FailureCause::Model }
    );
    run(&provider, &mut call, vec![CallEvent::Reported { has_available: true }]);
    assert_eq!(call.action(), CallAction::AskExcluded);
    assert!(call.failed_ids().is_empty());

    let mut call = refused(&provider, provider.call_api_stream("{}"), 400, body(denied));
    run(&provider, &mut call, vec![CallEvent::Reported { has_available: false }]);
    assert_eq!(call.action(), CallAction::Fail);
    assert_eq!(
        call.error(),
        Some(
            "流式 API 请求失败（所有凭据均不支持该模型或已不可用）: \
             400 Bad Request {\"reason\":\"INVALID_MODEL_ID\"}"
        )
    );
}

#[test]
fn refused_tokens_are_refreshed_once() {
    let provider = provider();
    let stale = || CallEvent::Body {
        body: "stale".to_string(),
        monthly_limit: false,
        token_invalid: true,
    };
    let mut call = refused(&provider, provider.call_api("{}"), 403, stale());
    assert_eq!(call.action(), CallAction::ForceRefresh { credential_id: 7 });
    assert_eq!(
        run(&provider, &mut call, vec![CallEvent::Refreshed { ok: true }]),
        CallAction::AskExcluded
    );
    assert_eq!(call.error(), None);
    assert_eq!(
        run(
            &provider,
            &mut call,
            vec![CallEvent::Excluded { all: false }, acquired(7), responded(401), stale()]
        ),
        CallAction::ReportFailure { credential_id: 7, cause: FailureCause::Token }
    );
    run(&provider, &mut call, vec![CallEvent::Reported { has_available: true }]);
    assert_eq!(call.failed_ids(), &vec![7]);

    let mut call = refused(&provider, provider.call_mcp(), 401, stale());
    run(&provider, &mut call, vec![CallEvent::Refreshed { ok: false }]);
    assert_eq!(
        call.action(),
        CallAction::ReportFailure { credential_id: 7, cause: FailureCause::Token }
    );
    run(&provider, &mut call, vec![CallEvent::Reported { has_available: false }]);
    assert_eq!(call.action(), CallAction::Fail);
    assert_eq!(call.error(), Some("MCP 请求失败（所有凭据已用尽）: 401 Unauthorized stale"));

    let call = refused(&provider, provider.call_api("{}"), 401, body("no"));
    assert_eq!(
        call.action(),
        CallAction::ReportFailure { credential_id: 7, cause: FailureCause::Token }
    );
}

#[test]
fn rate_limits_put_the_credential_aside() {
    let provider = provider();
    for call in [provider.call_api("{}"), provider.call_mcp()] {
        let mut call = sent(&provider, call, 2);
        let header = CallEvent::Responded { status: 429, retry_after: Some("90".to_string()) };
        assert_eq!(
            run(&provider, &mut call, vec![header, body("slow down")]),
            CallAction::SetCooldown { credential_id: 7, secs: 90 }
        );
        assert_eq!(
            run(&provider, &mut call, vec![CallEvent::CooldownSet]),
            CallAction::AskExcluded
        );
        assert_eq!(call.failed_ids(), &vec![7]);
        assert_eq!(call.attempt(), 1);
    }
    let call = refused(&provider, provider.call_api("{}"), 429, body("slow down"));
    assert_eq!(call.action(), CallAction::SetCooldown { credential_id: 7, secs: 60 });
    let full = r#"{"reason":"INSUFFICIENT_MODEL_CAPACITY"}"#;
    let call = refused(&provider, provider.call_mcp(), 429, body(full));
    assert_eq!(call.action(), CallAction::AskExcluded);
    assert_eq!(call.failed_ids(), &vec![7]);
}

#[test]
fn transient_errors_wait_and_move_on() {
    let provider = provider();
    for status in [408, 500, 503, 599, 302, 600] {
        let mut call = refused(&provider, provider.call_api("{}"), status, body("later"));
        assert_eq!(call.action(), CallAction::Sleep { attempt: 0 });
        assert_eq!(call.failed_ids(), &vec![7]);
        assert_eq!(
            run(&provider, &mut call, vec![CallEvent::Slept]),
            CallAction::AskExcluded
        );
        run(&provider, &mut call, vec![CallEvent::Excluded { all: true }]);
        assert!(call.failed_ids().is_empty());

        let call = refused(&provider, provider.call_mcp(), status, body("later"));
        assert_eq!(call.action(), CallAction::Sleep { attempt: 0 });
        assert!(call.failed_ids().is_empty());
    }
    for status in [404, 409, 422, 499] {
        let call = refused(&provider, provider.call_api("{}"), status, body("no"));
        assert_eq!(call.action(), CallAction::Fail);
        assert!(call.failed_ids().is_empty());
    }
}

#[test]
fn the_last_error_is_returned_after_the_last_try() {
    let provider = provider();
    let mut call = provider.call_api("{}");
    let mut events = vec![CallEvent::Counted { total: 1, available: 1 }];
    for attempt in 0..3 {
        events.push(CallEvent::Excluded { all: attempt > 0 });
        events.push(acquired(7));
        events.push(responded(500));
        events.push(body("down"));
        events.push(CallEvent::Slept);
    }
    assert_eq!(run(&provider, &mut call, events), CallAction::Fail);
    assert_eq!(call.error(), Some("非流式 API 请求失败: 500 Internal Server Error down"));
}

#[test]
fn a_call_that_saw_no_error_says_how_often_it_was_tried() {
    let provider = provider();
    let mut call = provider.call_mcp();
    run(&provider, &mut call, vec![CallEvent::Counted { total: 0, available: 2 }]);
    for credential_id in [1, 2] {
        run(
            &provider,
            &mut call,
            vec![
                CallEvent::Excluded { all: false },
                acquired(credential_id),
                responded(401),
                CallEvent::Body {
                    body: "stale".to_string(),
                    monthly_limit: false,
                    token_invalid: true,
                },
                CallEvent::Refreshed { ok: true },
            ],
        );
    }
    assert_eq!(call.action(), CallAction::Fail);
    assert_eq!(call.error(), Some("MCP 请求失败：已达到最大重试次数（2次）"));
}

#[test]
fn responses_are_judged_with_given_texts() {
    let provider = provider();
    let mut call = sent(&provider, provider.call_api("{}"), 1);
    provider.advance(&mut call, responded(429));
    let parsed = JsonValue::parse(r#"{"reason":"insufficient_model_capacity"}"#).unwrap();
    call.judge("text", Some(&parsed), "429 Slow", false, false);
    assert_eq!(call.action(), CallAction::AskExcluded);
    assert_eq!(call.error(), Some("非流式 API 请求失败: 429 Slow text"));
}

#[test]
fn calls_end_within_their_budget() {
    let provider = provider();
    let mut call = provider.call_api("{}");
    provider.advance(&mut call, CallEvent::Counted { total: 3, available: 3 });
    let mut taken = 0;
    loop {
        let event = match call.action() {
            CallAction::AskExcluded => CallEvent::Excluded { all: taken % 2 == 0 },
            CallAction::Acquire => acquired(taken as u64 % 3),
            CallAction::Send { .. } => responded([401, 429, 500][taken % 3]),
            CallAction::ReadBody { .. } => CallEvent::Body {
                body: "no".to_string(),
                monthly_limit: false,
                token_invalid: true,
            },
            CallAction::ForceRefresh { .. } => CallEvent::Refreshed { ok: false },
            CallAction::ReportFailure { .. } => CallEvent::Reported { has_available: true },
            CallAction::SetCooldown { .. } => CallEvent::CooldownSet,
            CallAction::Sleep { .. } => CallEvent::Slept,
            _ => break,
        };
        provider.advance(&mut call, event);
        taken += 1;
    }
    assert!(call.attempt() <= 9);
    assert!(taken <= 9 * 9);
}

/// Fails to send with whatever credential `pick` hands out, until the call ends; gives the
/// credentials that were sent with.
fn fail_all(
    provider: &KiroProvider,
    call: &mut RetryLoop,
    pool: &[u64],
    pick: impl Fn(&RetryLoop) -> u64,
) -> Vec<u64> {
    let mut sent = Vec::new();
    loop {
        let event = match call.action() {
            CallAction::CountCredentials => {
                CallEvent::Counted { total: pool.len(), available: pool.len() }
            }
            CallAction::AskExcluded => {
                let out = call.excluded_ids();
                CallEvent::Excluded { all: pool.iter().all(|id| out.contains(id)) }
            }
            CallAction::Acquire => acquired(pick(call)),
            CallAction::Send { credential_id, .. } => {
                sent.push(credential_id);
                CallEvent::SendFailed
            }
            CallAction::Sleep { .. } => CallEvent::Slept,
            _ => return sent,
        };
        provider.advance(call, event);
    }
}

#[test]
fn no_credential_is_tried_more_than_three_times() {
    let provider = provider();
    for mut call in [provider.call_api("{}"), provider.call_mcp()] {
        // The pool prefers the first credential as long as it may be used.
        let sent = fail_all(&provider, &mut call, &[1, 2], |call| {
            if call.excluded_ids().contains(&1) { 2 } else { 1 }
        });
        assert_eq!(sent, vec![1, 1, 1, 2, 2, 2]);
        assert_eq!(call.action(), CallAction::ReturnOutside);
    }
}

#[test]
fn a_spent_credential_that_is_handed_out_again_is_not_sent_with() {
    let provider = provider();
    for mut call in [provider.call_api("{}"), provider.call_mcp()] {
        let sent = fail_all(&provider, &mut call, &[1, 2], |_| 1);
        assert_eq!(sent, vec![1, 1, 1]);
        assert_eq!(call.excluded_ids(), vec![1]);
        assert_eq!(call.action(), CallAction::ReturnOutside);
        assert_eq!(call.attempt(), 6);
    }
}

#[test]
fn a_call_ends_when_only_spent_credentials_are_left() {
    let provider = provider();
    let mut call = provider.call_api("{}");
    run(&provider, &mut call, vec![CallEvent::Counted { total: 4, available: 2 }]);
    for try_again in 0..3 {
        assert_eq!(
            run(
                &provider,
                &mut call,
                vec![
                    CallEvent::Excluded { all: try_again > 0 },
                    acquired(7),
                    responded(503),
                    body("down"),
                    CallEvent::Slept
                ]
            ),
            CallAction::AskExcluded
        );
    }
    // Credential 8 is excluded for now, credential 7 for good.
    run(
        &provider,
        &mut call,
        vec![
            CallEvent::Excluded { all: false },
            acquired(8),
            responded(500),
            body("broken"),
            CallEvent::Slept,
        ],
    );
    assert_eq!(call.excluded_ids(), vec![7, 8, 7]);
    assert_eq!(
        run(&provider, &mut call, vec![CallEvent::Excluded { all: true }]),
        CallAction::AskExcluded
    );
    assert_eq!(call.excluded_ids(), vec![7]);
    assert_eq!(
        run(&provider, &mut call, vec![CallEvent::Excluded { all: true }]),
        CallAction::Fail
    );
    assert_eq!(call.attempt(), 4);
    assert_eq!(call.error(), Some("非流式 API 请求失败: 500 Internal Server Error broken"));
}
