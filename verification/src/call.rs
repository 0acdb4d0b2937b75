//! A call with retries: which credential is tried next, what becomes of one that failed,
//! and when the call gives up.
//!
//! A [`RetryLoop`] names the action that comes next; whoever performs it hands back an
//! event that says how it went.

use vstd::prelude::*;

use crate::json;
use crate::json::{JsonModel, JsonValue};
use crate::provider;
use crate::provider::{KiroProvider, MAX_RETRIES_PER_CREDENTIAL, ProviderModel};
use crate::text;
use crate::text::{joined, write_decimal};

verus! {

/// What is called.
#[derive(Debug, Clone, Copy, PartialEq, Eq, Structural)]
pub enum CallKind {
    Api { stream: bool },
    Mcp,
}

/// Why a credential is reported.
#[derive(Debug, Clone, Copy, PartialEq, Eq, Structural)]
pub enum FailureCause {
    /// Its endpoint is not registered.
    Endpoint,
    /// It may not use the model.
    Model,
    /// It was refused.
    Token,
}

/// What a call does next.
#[derive(Debug, Clone, Copy, PartialEq, Eq, Structural)]
pub enum CallAction {
    /// Count the credentials, and those available for the model.
    CountCredentials,
    /// Find out whether all available credentials are excluded.
    AskExcluded,
    /// Acquire a credential that is not excluded.
    Acquire,
    /// Send the request with a credential to an endpoint.
    Send { credential_id: u64, endpoint: usize },
    /// Read the body of a response that is no success.
    ReadBody { credential_id: u64, endpoint: usize },
    /// Report that the quota of a credential is used up.
    ReportQuotaExhausted { credential_id: u64 },
    /// Report that a credential failed.
    ReportFailure { credential_id: u64, cause: FailureCause },
    /// Have the token of a credential refreshed.
    ForceRefresh { credential_id: u64 },
    /// Put a credential aside for a number of seconds.
    SetCooldown { credential_id: u64, secs: u64 },
    /// Wait, as long as the number of tries so far calls for.
    Sleep { attempt: usize },
    /// Report that a credential succeeded, and return the response.
    Succeed { credential_id: u64 },
    /// Return the error that came last from the outside.
    ReturnOutside,
    /// Return the message of the call.
    Fail,
}

/// How an action went.
#[derive(Debug)]
pub enum CallEvent {
    Counted { total: usize, available: usize },
    Excluded { all: bool },
    Acquired { credential_id: u64, endpoint: Option<String> },
    /// No credential was acquired; `cooling_down` tells that all are put aside.
    NotAcquired { cooling_down: bool },
    /// No client could be built.
    ClientFailed,
    SendFailed,
    /// A response came, with its status and its `retry-after` header.
    Responded { status: u16, retry_after: Option<String> },
    /// The body of a response, and what the endpoint reads in it.
    Body { body: String, monthly_limit: bool, token_invalid: bool },
    /// A report was taken; `has_available` tells whether a credential is left.
    Reported { has_available: bool },
    Refreshed { ok: bool },
    CooldownSet,
    Slept,
}

/// The error that a call saw last.
#[derive(Debug)]
pub enum CallError {
    /// An error of an action, which is kept outside.
    Outside,
    /// An error of the call itself.
    Message(String),
}

/// How an action went, over sequences.
pub enum EventModel {
    Counted { total: usize, available: usize },
    Excluded { all: bool },
    Acquired { credential_id: u64, endpoint: Option<Seq<char>> },
    NotAcquired { cooling_down: bool },
    ClientFailed,
    SendFailed,
    Responded { status: u16, retry_after: Option<Seq<char>> },
    Body { body: Seq<char>, monthly_limit: bool, token_invalid: bool },
    Reported { has_available: bool },
    Refreshed { ok: bool },
    CooldownSet,
    Slept,
}

impl View for CallEvent {
    type V = EventModel;

    open spec fn view(&self) -> EventModel {
        match *self {
            CallEvent::Counted { total, available } => EventModel::Counted { total, available },
            CallEvent::Excluded { all } => EventModel::Excluded { all },
            CallEvent::Acquired { credential_id, endpoint } => EventModel::Acquired {
                credential_id,
                endpoint: text::optional_text(endpoint),
            },
            CallEvent::NotAcquired { cooling_down } => EventModel::NotAcquired { cooling_down },
            CallEvent::ClientFailed => EventModel::ClientFailed,
            CallEvent::SendFailed => EventModel::SendFailed,
            CallEvent::Responded { status, retry_after } => EventModel::Responded {
                status,
                retry_after: text::optional_text(retry_after),
            },
            CallEvent::Body { body, monthly_limit, token_invalid } => EventModel::Body {
                body: body@,
                monthly_limit,
                token_invalid,
            },
            CallEvent::Reported { has_available } => EventModel::Reported { has_available },
            CallEvent::Refreshed { ok } => EventModel::Refreshed { ok },
            CallEvent::CooldownSet => EventModel::CooldownSet,
            CallEvent::Slept => EventModel::Slept,
        }
    }
}

/// The error that a call saw last, over sequences.
pub enum ErrorModel {
    Outside,
    Message(Seq<char>),
}

/// What an optional error holds.
pub open spec fn optional_error(error: Option<CallError>) -> Option<ErrorModel> {
    match error {
        Some(CallError::Outside) => Some(ErrorModel::Outside),
        Some(CallError::Message(message)) => Some(ErrorModel::Message(message@)),
        None => None,
    }
}

/// A call with retries.
#[derive(Debug)]
pub struct RetryLoop {
    kind: CallKind,
    model: Option<String>,
    session_id: Option<String>,
    max_retries: usize,
    attempt: usize,
    tried: Vec<u64>,
    failed_ids: Vec<u64>,
    refreshed: Vec<u64>,
    status: u16,
    retry_after: Option<u64>,
    failure: String,
    last_error: Option<CallError>,
    awaiting: CallAction,
}

/// A call with retries, over sequences.
pub struct CallModel {
    pub kind: CallKind,
    /// The model and the session that the request names.
    pub model: Option<Seq<char>>,
    pub session_id: Option<Seq<char>>,
    /// How often the call may be tried, and how often it was before the present try.
    pub max_retries: usize,
    pub attempt: usize,
    /// The credentials of the tries so far, one entry for each try.
    pub tried: Seq<u64>,
    /// The credentials that are excluded for now.
    pub failed_ids: Seq<u64>,
    /// The credentials whose token was to be refreshed.
    pub refreshed: Seq<u64>,
    /// The status of the last response, and the seconds that it asks to wait.
    pub status: u16,
    pub retry_after: Option<nat>,
    /// The status and the body of the last response that was no success.
    pub failure: Seq<char>,
    pub last_error: Option<ErrorModel>,
    pub awaiting: CallAction,
}

impl View for RetryLoop {
    type V = CallModel;

    closed spec fn view(&self) -> CallModel {
        CallModel {
            kind: self.kind,
            model: text::optional_text(self.model),
            session_id: text::optional_text(self.session_id),
            max_retries: self.max_retries,
            attempt: self.attempt,
            tried: self.tried@,
            failed_ids: self.failed_ids@,
            refreshed: self.refreshed@,
            status: self.status,
            retry_after: provider::optional_secs(self.retry_after),
            failure: self.failure@,
            last_error: optional_error(self.last_error),
            awaiting: self.awaiting,
        }
    }
}

/// What `reqwest::StatusCode` shows of a status: the number, and the reason that goes
/// with it.
pub uninterp spec fn status_line(status: u16) -> Seq<char>;

/// Calls the `Display` of `reqwest::StatusCode`. The result is named by [`status_line`];
/// nothing more is claimed of it. Numbers that are no status are left out, since
/// `StatusCode::from_u16` refuses them.
#[verifier::external_body]
fn status_text(status: u16) -> (line: String)
    requires
        100 <= status <= 999,
    ensures
        line@ == status_line(status),
{
    match reqwest::StatusCode::from_u16(status) {
        Ok(code) => code.to_string(),
        Err(_) => String::new(),
    }
}

/// How the messages of a call begin.
pub open spec fn heading(kind: CallKind) -> Seq<char> {
    match kind {
        CallKind::Api { stream } => if stream {
            "流式 API 请求失败"@
        } else {
            "非流式 API 请求失败"@
        },
        CallKind::Mcp => "MCP 请求失败"@,
    }
}

/// That no credential is left.
pub open spec fn used_up() -> Seq<char> {
    "（所有凭据已用尽）"@
}

/// That no credential is left that may use the model.
pub open spec fn unsupported() -> Seq<char> {
    "（所有凭据均不支持该模型或已不可用）"@
}

/// The message on a response that is no success.
pub open spec fn failure_message(kind: CallKind, note: Seq<char>, failure: Seq<char>) -> Seq<char> {
    heading(kind) + note + ": "@ + failure
}

/// The message of a call that was tried as often as it may be, and saw no error.
pub open spec fn exhausted_message(kind: CallKind, max_retries: usize) -> Seq<char> {
    heading(kind) + "：已达到最大重试次数（"@ + text::decimal(max_retries as nat) + "次）"@
}

/// Whether a status is a success.
pub open spec fn success(status: u16) -> bool {
    200 <= status < 300
}

/// A list of credentials with one more, unless it is there.
pub open spec fn with_id(ids: Seq<u64>, id: u64) -> Seq<u64> {
    if ids.contains(id) {
        ids
    } else {
        ids.push(id)
    }
}

/// How often a credential was tried.
pub open spec fn tries(tried: Seq<u64>, id: u64) -> nat
    decreases tried.len(),
{
    if tried.len() == 0 {
        0
    } else {
        tries(tried.drop_last(), id) + if tried.last() == id {
            1nat
        } else {
            0nat
        }
    }
}

/// The credentials that were tried as often as one may be, in the order in which their
/// last try came.
pub open spec fn spent_ids(tried: Seq<u64>) -> Seq<u64>
    decreases tried.len(),
{
    if tried.len() == 0 {
        Seq::empty()
    } else if tries(tried, tried.last()) == MAX_RETRIES_PER_CREDENTIAL {
        spent_ids(tried.drop_last()).push(tried.last())
    } else {
        spent_ids(tried.drop_last())
    }
}

/// The credentials that the next try does without: those that are excluded for now, and
/// those that have had their tries.
pub open spec fn excluded_ids(call: CallModel) -> Seq<u64> {
    call.failed_ids + spent_ids(call.tried)
}

/// A credential has had its tries once it was tried three times.
proof fn lemma_spent(tried: Seq<u64>, id: u64)
    ensures
        spent_ids(tried).contains(id) <==> tries(tried, id)
            >= MAX_RETRIES_PER_CREDENTIAL,
    decreases tried.len(),
{
    if tried.len() > 0 {
        let front = tried.drop_last();
        lemma_spent(front, id);
        let before = spent_ids(front);
        let after = spent_ids(tried);
        if after.len() > before.len() {
            assert(after.last() == tried.last());
            assert(after.contains(after[after.len() - 1]));
            if before.contains(id) {
                let at = before.index_of(id);
                assert(after[at] == id);
            }
            if after.contains(id) && id != tried.last() {
                let at = after.index_of(id);
                assert(before[at] == id);
            }
        }
    }
}

/// A call before it has begun.
pub open spec fn started(
    kind: CallKind,
    model: Option<Seq<char>>,
    session_id: Option<Seq<char>>,
) -> CallModel {
    CallModel {
        kind,
        model,
        session_id,
        max_retries: 0,
        attempt: 0,
        tried: Seq::empty(),
        failed_ids: Seq::empty(),
        refreshed: Seq::empty(),
        status: 0,
        retry_after: None,
        failure: Seq::empty(),
        last_error: None,
        awaiting: CallAction::CountCredentials,
    }
}

/// A call that gives up with a message.
pub open spec fn failed(call: CallModel, note: Seq<char>) -> CallModel {
    CallModel {
        last_error: Some(ErrorModel::Message(failure_message(call.kind, note, call.failure))),
        awaiting: CallAction::Fail,
        ..call
    }
}

/// A call that takes the last response for its last error.
pub open spec fn noted(call: CallModel) -> CallModel {
    CallModel {
        last_error: Some(ErrorModel::Message(failure_message(call.kind, Seq::empty(), call.failure))),
        ..call
    }
}

/// A call that excludes a credential for now.
pub open spec fn excluding(call: CallModel, credential_id: u64) -> CallModel {
    CallModel { failed_ids: with_id(call.failed_ids, credential_id), ..call }
}

/// A call that excludes a credential for now, unless it is an MCP call.
pub open spec fn excluding_for_api(call: CallModel, credential_id: u64) -> CallModel {
    if call.kind is Mcp {
        call
    } else {
        excluding(call, credential_id)
    }
}

/// A call that gives up with its last error.
pub open spec fn given_up(call: CallModel) -> CallModel {
    match call.last_error {
        Some(ErrorModel::Outside) => CallModel { awaiting: CallAction::ReturnOutside, ..call },
        Some(ErrorModel::Message(message)) => CallModel { awaiting: CallAction::Fail, ..call },
        None => CallModel {
            last_error: Some(ErrorModel::Message(exhausted_message(call.kind, call.max_retries))),
            awaiting: CallAction::Fail,
            ..call
        },
    }
}

/// A call that goes on to the next try, or gives up with its last error where it was tried
/// as often as it may be.
pub open spec fn next_try(call: CallModel) -> CallModel {
    let call = CallModel { attempt: (call.attempt + 1) as usize, ..call };
    if call.attempt < call.max_retries {
        CallModel { awaiting: CallAction::AskExcluded, ..call }
    } else {
        given_up(call)
    }
}

/// A call that was told whether all available credentials are excluded. Where they are,
/// those excluded for now are admitted again; those that have had their tries are not, and
/// where only these are left, the call gives up.
pub open spec fn asked(call: CallModel, all: bool) -> CallModel {
    let admitting = CallModel { failed_ids: Seq::empty(), ..call };
    if !all {
        CallModel { awaiting: CallAction::Acquire, ..call }
    } else if spent_ids(call.tried).len() == 0 {
        CallModel { awaiting: CallAction::Acquire, ..admitting }
    } else if call.failed_ids.len() > 0 {
        admitting
    } else {
        given_up(call)
    }
}

/// A call that was given a credential. One that has had its tries is not tried again.
pub open spec fn equipped(
    registry: ProviderModel,
    call: CallModel,
    credential_id: u64,
    endpoint: Option<Seq<char>>,
) -> CallModel {
    let trying = CallModel { tried: call.tried.push(credential_id), ..call };
    if tries(call.tried, credential_id) >= MAX_RETRIES_PER_CREDENTIAL {
        next_try(call)
    } else {
        match provider::endpoint_place(registry, endpoint) {
            Some(place) => CallModel {
                awaiting: CallAction::Send { credential_id, endpoint: place as usize },
                ..trying
            },
            None => CallModel {
                last_error: Some(
                    ErrorModel::Message(
                        provider::unknown_endpoint(provider::endpoint_name(registry, endpoint)),
                    ),
                ),
                awaiting: CallAction::ReportFailure {
                    credential_id,
                    cause: FailureCause::Endpoint,
                },
                ..trying
            },
        }
    }
}

/// A call that waits before the next try, where there is one.
pub open spec fn pausing(call: CallModel) -> CallModel {
    if call.attempt + 1 < call.max_retries {
        CallModel { awaiting: CallAction::Sleep { attempt: call.attempt }, ..call }
    } else {
        next_try(call)
    }
}

/// A call that judges a response which is no success, given what its body holds as a JSON
/// document, how its status is shown, and what the endpoint reads in it.
pub open spec fn judged(
    call: CallModel,
    credential_id: u64,
    body: Seq<char>,
    parsed: Option<JsonModel>,
    line: Seq<char>,
    monthly_limit: bool,
    token_invalid: bool,
) -> CallModel {
    let call = CallModel { failure: line + " "@ + body, ..call };
    if call.status == 402 && monthly_limit {
        CallModel { awaiting: CallAction::ReportQuotaExhausted { credential_id }, ..call }
    } else if call.status == 400 {
        if call.kind is Api && provider::invalid_model(body) {
            CallModel {
                awaiting: CallAction::ReportFailure { credential_id, cause: FailureCause::Model },
                ..call
            }
        } else {
            failed(call, Seq::empty())
        }
    } else if call.status == 401 || call.status == 403 {
        if token_invalid && !call.refreshed.contains(credential_id) {
            CallModel {
                refreshed: call.refreshed.push(credential_id),
                awaiting: CallAction::ForceRefresh { credential_id },
                ..call
            }
        } else {
            CallModel {
                awaiting: CallAction::ReportFailure { credential_id, cause: FailureCause::Token },
                ..call
            }
        }
    } else if call.status == 429 {
        match provider::cooldown(body, parsed, call.retry_after) {
            Some(secs) => CallModel {
                awaiting: CallAction::SetCooldown { credential_id, secs: secs as u64 },
                ..call
            },
            None => next_try(noted(excluding(call, credential_id))),
        }
    } else if 400 <= call.status < 500 && call.status != 408 {
        failed(call, Seq::empty())
    } else {
        pausing(noted(excluding_for_api(call, credential_id)))
    }
}

/// Whether an event tells how an action went.
pub open spec fn answers(awaiting: CallAction, event: EventModel) -> bool {
    match event {
        EventModel::Counted { .. } => awaiting is CountCredentials,
        EventModel::Excluded { .. } => awaiting is AskExcluded,
        EventModel::Acquired { .. } => awaiting is Acquire,
        EventModel::NotAcquired { .. } => awaiting is Acquire,
        EventModel::ClientFailed => awaiting is Send,
        EventModel::SendFailed => awaiting is Send,
        EventModel::Responded { status, .. } => awaiting is Send && 100 <= status <= 999,
        EventModel::Body { .. } => awaiting is ReadBody,
        EventModel::Reported { .. } => awaiting is ReportQuotaExhausted || awaiting is ReportFailure,
        EventModel::Refreshed { .. } => awaiting is ForceRefresh,
        EventModel::CooldownSet => awaiting is SetCooldown,
        EventModel::Slept => awaiting is Sleep,
    }
}

/// The credential that an action is about.
pub open spec fn credential_of(awaiting: CallAction) -> u64 {
    match awaiting {
        CallAction::Send { credential_id, .. } => credential_id,
        CallAction::ReadBody { credential_id, .. } => credential_id,
        CallAction::ReportQuotaExhausted { credential_id } => credential_id,
        CallAction::ReportFailure { credential_id, .. } => credential_id,
        CallAction::ForceRefresh { credential_id } => credential_id,
        CallAction::SetCooldown { credential_id, .. } => credential_id,
        CallAction::Succeed { credential_id } => credential_id,
        _ => 0,
    }
}

/// A call after a report on a credential was taken.
pub open spec fn reported(call: CallModel, has_available: bool) -> CallModel {
    let credential_id = credential_of(call.awaiting);
    match call.awaiting {
        CallAction::ReportFailure { cause, .. } => match cause {
            FailureCause::Endpoint => next_try(call),
            FailureCause::Model => if has_available {
                next_try(noted(call))
            } else {
                failed(call, unsupported())
            },
            FailureCause::Token => {
                let call = excluding_for_api(call, credential_id);
                if has_available {
                    next_try(noted(call))
                } else {
                    failed(call, used_up())
                }
            },
        },
        _ => {
            let call = excluding_for_api(call, credential_id);
            if has_available {
                next_try(noted(call))
            } else {
                failed(call, used_up())
            }
        },
    }
}

/// A call after an event. One that tells of another action than the call asked for is
/// ignored.
pub open spec fn step(registry: ProviderModel, call: CallModel, event: EventModel) -> CallModel {
    if !answers(call.awaiting, event) {
        call
    } else {
        let credential_id = credential_of(call.awaiting);
        let outside = CallModel { last_error: Some(ErrorModel::Outside), ..call };
        match event {
            EventModel::Counted { total, available } => CallModel {
                max_retries: provider::max_retries(total as int, available as int) as usize,
                awaiting: CallAction::AskExcluded,
                ..call
            },
            EventModel::Excluded { all } => asked(call, all),
            EventModel::Acquired { credential_id, endpoint } => equipped(
                registry,
                call,
                credential_id,
                endpoint,
            ),
            EventModel::NotAcquired { cooling_down } => if cooling_down {
                CallModel { awaiting: CallAction::ReturnOutside, ..outside }
            } else {
                next_try(outside)
            },
            EventModel::ClientFailed => CallModel { awaiting: CallAction::ReturnOutside, ..outside },
            EventModel::SendFailed => pausing(outside),
            EventModel::Responded { status, retry_after } => if success(status) {
                CallModel { status, awaiting: CallAction::Succeed { credential_id }, ..call }
            } else {
                CallModel {
                    status,
                    retry_after: provider::retry_after(retry_after),
                    awaiting: CallAction::ReadBody {
                        credential_id,
                        endpoint: call.awaiting->Send_endpoint,
                    },
                    ..call
                }
            },
            EventModel::Body { body, monthly_limit, token_invalid } => judged(
                call,
                credential_id,
                body,
                json::parsed_json(body),
                status_line(call.status),
                monthly_limit,
                token_invalid,
            ),
            EventModel::Reported { has_available } => reported(call, has_available),
            EventModel::Refreshed { ok } => if ok {
                next_try(call)
            } else {
                CallModel {
                    awaiting: CallAction::ReportFailure {
                        credential_id,
                        cause: FailureCause::Token,
                    },
                    ..call
                }
            },
            EventModel::CooldownSet => next_try(noted(excluding(call, credential_id))),
            EventModel::Slept => next_try(call),
        }
    }
}

/// Whether a call has ended.
pub open spec fn ended(call: CallModel) -> bool {
    call.awaiting is Succeed || call.awaiting is ReturnOutside || call.awaiting is Fail
}

/// Whether a call can have come about: no credential is excluded or refreshed twice, none
/// was tried too often, the tries are within their number, and the action fits what went
/// before.
pub open spec fn sound(call: CallModel) -> bool {
    &&& forall|id: u64| #[trigger]
        tries(call.tried, id) <= MAX_RETRIES_PER_CREDENTIAL
    &&& call.failed_ids.no_duplicates()
    &&& call.refreshed.no_duplicates()
    &&& !(call.awaiting is CountCredentials) && !ended(call) ==> call.attempt < call.max_retries
    &&& call.awaiting is CountCredentials ==> call.attempt == 0
    &&& match call.awaiting {
        CallAction::ReadBody { .. } => 100 <= call.status <= 999 && !success(call.status),
        CallAction::ForceRefresh { credential_id } => call.refreshed.contains(credential_id),
        CallAction::SetCooldown { secs, .. } => provider::DEFAULT_RATE_LIMIT_COOLDOWN_SECS <= secs
            <= provider::MAX_RATE_LIMIT_COOLDOWN_SECS,
        CallAction::Sleep { attempt } => attempt == call.attempt && attempt + 1 < call.max_retries,
        CallAction::ReturnOutside => call.last_error == Some(ErrorModel::Outside),
        CallAction::Fail => call.last_error is Some && call.last_error->0 is Message,
        _ => true,
    }
}

proof fn lemma_with_id(ids: Seq<u64>, id: u64)
    requires
        ids.no_duplicates(),
    ensures
        with_id(ids, id).no_duplicates(),
        with_id(ids, id).contains(id),
{
    if !ids.contains(id) {
        let more = ids.push(id);
        assert(more[ids.len() as int] == id);
        assert forall|i: int, j: int|
            0 <= i < more.len() && 0 <= j < more.len() && i != j implies more[i] != more[j] by {
            if i < ids.len() {
                assert(ids.contains(ids[i]));
            }
            if j < ids.len() {
                assert(ids.contains(ids[j]));
            }
        }
    }
}

/// A call that can have come about judges a response so that it stays one.
proof fn lemma_judged_sound(
    call: CallModel,
    body: Seq<char>,
    parsed: Option<JsonModel>,
    line: Seq<char>,
    monthly_limit: bool,
    token_invalid: bool,
)
    requires
        sound(call),
        call.awaiting is ReadBody,
    ensures
        sound(
            judged(
                call,
                credential_of(call.awaiting),
                body,
                parsed,
                line,
                monthly_limit,
                token_invalid,
            ),
        ),
{
    lemma_with_id(call.failed_ids, credential_of(call.awaiting));
    lemma_with_id(call.refreshed, credential_of(call.awaiting));
    provider::law_cooldown_is_bounded(body, parsed, call.retry_after);
}

/// A call that can have come about goes on to one that can.
pub proof fn law_calls_stay_sound(registry: ProviderModel, call: CallModel, event: EventModel)
    requires
        sound(call),
    ensures
        sound(step(registry, call, event)),
{
    let credential_id = credential_of(call.awaiting);
    lemma_with_id(call.failed_ids, credential_id);
    match event {
        EventModel::Counted { total, available } => {
            provider::law_budget_covers_every_credential(total as int, available as int);
        },
        EventModel::Acquired { credential_id, .. } => {
            let more = call.tried.push(credential_id);
            assert(more.drop_last() == call.tried);
            assert forall|id: u64|
                tries(call.tried, credential_id)
                    < MAX_RETRIES_PER_CREDENTIAL implies #[trigger] tries(more, id)
                <= MAX_RETRIES_PER_CREDENTIAL by {
                assert(tries(call.tried, id) <= MAX_RETRIES_PER_CREDENTIAL);
            }
        },
        EventModel::Body { body, monthly_limit, token_invalid } => {
            if call.awaiting is ReadBody {
                lemma_judged_sound(
                    call,
                    body,
                    json::parsed_json(body),
                    status_line(call.status),
                    monthly_limit,
                    token_invalid,
                );
            }
        },
        _ => {},
    }
}

/// Whether a list contains a credential.
fn contains_id(ids: &Vec<u64>, id: u64) -> (b: bool)
    ensures
        b == ids@.contains(id),
{
    let mut i: usize = 0;
    while i < ids.len()
        invariant
            i <= ids.len(),
            forall|k: int| 0 <= k < i ==> ids@[k] != id,
        decreases ids.len() - i,
    {
        if ids[i] == id {
            return true;
        }
        i += 1;
    }
    false
}

/// Counts how often a credential was tried.
fn count_tries(tried: &Vec<u64>, id: u64) -> (n: usize)
    ensures
        n == tries(tried@, id),
{
    let mut n: usize = 0;
    let mut i: usize = 0;
    proof {
        assert(tried@.take(0) == Seq::<u64>::empty());
    }
    while i < tried.len()
        invariant
            n <= i <= tried.len(),
            n == tries(tried@.take(i as int), id),
        decreases tried.len() - i,
    {
        proof {
            assert(tried@.take(i + 1).drop_last() == tried@.take(i as int));
            assert(tried@.take(i + 1).last() == tried@[i as int]);
        }
        if tried[i] == id {
            n += 1;
        }
        i += 1;
    }
    proof {
        assert(tried@.take(i as int) == tried@);
    }
    n
}

/// How the messages of a call begin.
fn heading_of(kind: CallKind) -> (text: &'static str)
    ensures
        text@ == heading(kind),
{
    match kind {
        CallKind::Api { stream } => if stream {
            "流式 API 请求失败"
        } else {
            "非流式 API 请求失败"
        },
        CallKind::Mcp => "MCP 请求失败",
    }
}

/// The message on a response that is no success.
fn message_of(kind: CallKind, note: &str, failure: &str) -> (message: String)
    ensures
        message@ == failure_message(kind, note@, failure@),
{
    let message: String = joined(heading_of(kind), note);
    let message: String = joined(message.as_str(), ": ");
    joined(message.as_str(), failure)
}

impl RetryLoop {
    /// Whether the call can have come about.
    pub open spec fn valid(&self) -> bool {
        sound(self@)
    }

    /// A call before it has begun.
    fn begin(kind: CallKind, model: Option<String>, session_id: Option<String>) -> (call: RetryLoop)
        ensures
            call.valid(),
            call@ == started(kind, text::optional_text(model), text::optional_text(session_id)),
    {
        let failure: String = String::new();
        proof {
            assert(failure@ == Seq::<char>::empty());
        }
        RetryLoop {
            kind,
            model,
            session_id,
            max_retries: 0,
            attempt: 0,
            tried: Vec::new(),
            failed_ids: Vec::new(),
            refreshed: Vec::new(),
            status: 0,
            retry_after: None,
            failure,
            last_error: None,
            awaiting: CallAction::CountCredentials,
        }
    }

    /// What the call does next.
    pub fn action(&self) -> (action: CallAction)
        ensures
            action == self@.awaiting,
    {
        self.awaiting
    }

    /// The model that the request names.
    pub fn model(&self) -> (model: Option<&str>)
        ensures
            json::borrowed_text(model) == self@.model,
    {
        match &self.model {
            Some(model) => Some(model.as_str()),
            None => None,
        }
    }

    /// The session that the request names.
    pub fn session_id(&self) -> (session_id: Option<&str>)
        ensures
            json::borrowed_text(session_id) == self@.session_id,
    {
        match &self.session_id {
            Some(session_id) => Some(session_id.as_str()),
            None => None,
        }
    }

    /// The credentials that are excluded for now.
    pub fn failed_ids(&self) -> (ids: &Vec<u64>)
        ensures
            ids@ == self@.failed_ids,
    {
        &self.failed_ids
    }

    /// The credentials that have had their tries.
    fn spent(&self) -> (ids: Vec<u64>)
        ensures
            ids@ == spent_ids(self@.tried),
    {
        let ghost tried = self.tried@;
        let mut ids: Vec<u64> = Vec::new();
        let mut so_far: Vec<u64> = Vec::new();
        let mut i: usize = 0;
        proof {
            assert(tried.take(0) == Seq::<u64>::empty());
        }
        while i < self.tried.len()
            invariant
                i <= self.tried.len(),
                tried == self.tried@,
                so_far@ == tried.take(i as int),
                ids@ == spent_ids(tried.take(i as int)),
            decreases self.tried.len() - i,
        {
            let id: u64 = self.tried[i];
            so_far.push(id);
            proof {
                assert(so_far@ == tried.take(i + 1));
                assert(tried.take(i + 1).drop_last() == tried.take(i as int));
                assert(tried.take(i + 1).last() == id);
            }
            if count_tries(&so_far, id) == MAX_RETRIES_PER_CREDENTIAL {
                ids.push(id);
            }
            i += 1;
        }
        proof {
            assert(tried.take(i as int) == tried);
        }
        ids
    }

    /// The credentials that the next try does without: those that are excluded for now, and
    /// those that have had their tries.
    pub fn excluded_ids(&self) -> (ids: Vec<u64>)
        ensures
            ids@ == excluded_ids(self@),
    {
        let mut ids: Vec<u64> = self.failed_ids.clone();
        let mut spent: Vec<u64> = self.spent();
        ids.append(&mut spent);
        ids
    }

    /// How often the call may be tried.
    pub fn max_retries(&self) -> (n: usize)
        ensures
            n == self@.max_retries,
    {
        self.max_retries
    }

    /// How often the call was tried before the present try.
    pub fn attempt(&self) -> (n: usize)
        ensures
            n == self@.attempt,
    {
        self.attempt
    }

    /// The message that the call saw last, where the last error is one of the call itself.
    pub fn error(&self) -> (message: Option<&str>)
        ensures
            json::borrowed_text(message) == (match self@.last_error {
                Some(ErrorModel::Message(message)) => Some(message),
                _ => None,
            }),
    {
        match &self.last_error {
            Some(CallError::Message(message)) => Some(message.as_str()),
            _ => None,
        }
    }

    /// Gives up with a message.
    fn fail(&mut self, note: &str)
        ensures
            final(self)@ == failed(old(self)@, note@),
    {
        let message: String = message_of(self.kind, note, self.failure.as_str());
        self.last_error = Some(CallError::Message(message));
        self.awaiting = CallAction::Fail;
    }

    /// Takes the last response for the last error.
    fn note(&mut self)
        ensures
            final(self)@ == noted(old(self)@),
    {
        proof {
            reveal_strlit("");
            assert(""@ =~= Seq::<char>::empty());
        }
        let message: String = message_of(self.kind, "", self.failure.as_str());
        self.last_error = Some(CallError::Message(message));
    }

    /// Excludes a credential for now.
    fn exclude(&mut self, credential_id: u64)
        ensures
            final(self)@ == excluding(old(self)@, credential_id),
    {
        if !contains_id(&self.failed_ids, credential_id) {
            self.failed_ids.push(credential_id);
        }
    }

    /// Excludes a credential for now, unless this is an MCP call.
    fn exclude_for_api(&mut self, credential_id: u64)
        ensures
            final(self)@ == excluding_for_api(old(self)@, credential_id),
    {
        match self.kind {
            CallKind::Api { .. } => self.exclude(credential_id),
            CallKind::Mcp => {},
        }
    }

    /// Gives up with the last error.
    fn give_up(&mut self)
        ensures
            final(self)@ == given_up(old(self)@),
    {
        let missing: bool = match &self.last_error {
            Some(CallError::Outside) => {
                self.awaiting = CallAction::ReturnOutside;
                false
            },
            Some(CallError::Message(_)) => {
                self.awaiting = CallAction::Fail;
                false
            },
            None => true,
        };
        if missing {
            let message: String = joined(heading_of(self.kind), "：已达到最大重试次数（");
            let tries: String = write_decimal(self.max_retries as u64);
            let message: String = joined(message.as_str(), tries.as_str());
            self.last_error = Some(CallError::Message(joined(message.as_str(), "次）")));
            self.awaiting = CallAction::Fail;
        }
    }

    /// Goes on to the next try, or gives up.
    fn go_on(&mut self)
        requires
            old(self)@.attempt < old(self)@.max_retries,
        ensures
            final(self)@ == next_try(old(self)@),
    {
        self.attempt = self.attempt + 1;
        if self.attempt < self.max_retries {
            self.awaiting = CallAction::AskExcluded;
        } else {
            self.give_up();
        }
    }

    /// Goes on after it was told whether all available credentials are excluded.
    fn take_answer(&mut self, all: bool)
        requires
            old(self)@.awaiting is AskExcluded,
        ensures
            final(self)@ == asked(old(self)@, all),
    {
        if !all {
            self.awaiting = CallAction::Acquire;
            return;
        }
        let spent: Vec<u64> = self.spent();
        if spent.len() == 0 {
            self.failed_ids = Vec::new();
            self.awaiting = CallAction::Acquire;
        } else if self.failed_ids.len() > 0 {
            self.failed_ids = Vec::new();
        } else {
            self.give_up();
        }
    }

    /// Waits before the next try, where there is one.
    fn pause(&mut self)
        requires
            old(self)@.attempt < old(self)@.max_retries,
        ensures
            final(self)@ == pausing(old(self)@),
    {
        if self.attempt + 1 < self.max_retries {
            self.awaiting = CallAction::Sleep { attempt: self.attempt };
        } else {
            self.go_on();
        }
    }

    /// Judges a response that is no success, given what its body holds as a JSON document,
    /// how its status is shown, and what the endpoint reads in it.
    pub fn judge(
        &mut self,
        body: &str,
        parsed: Option<&JsonValue>,
        line: &str,
        monthly_limit: bool,
        token_invalid: bool,
    )
        requires
            old(self).valid(),
            old(self)@.awaiting is ReadBody,
        ensures
            final(self).valid(),
            final(self)@ == judged(
                old(self)@,
                credential_of(old(self)@.awaiting),
                body@,
                json::borrowed_model(parsed),
                line@,
                monthly_limit,
                token_invalid,
            ),
    {
        proof {
            reveal_strlit("");
            assert(""@ =~= Seq::<char>::empty());
            provider::law_cooldown_is_bounded(
                body@,
                json::borrowed_model(parsed),
                self@.retry_after,
            );
            lemma_judged_sound(
                self@,
                body@,
                json::borrowed_model(parsed),
                line@,
                monthly_limit,
                token_invalid,
            );
        }
        let credential_id: u64 = match self.awaiting {
            CallAction::ReadBody { credential_id, .. } => credential_id,
            _ => 0,
        };
        let failure: String = joined(line, " ");
        self.failure = joined(failure.as_str(), body);
        let status: u16 = self.status;
        if status == 402 && monthly_limit {
            self.awaiting = CallAction::ReportQuotaExhausted { credential_id };
        } else if status == 400 {
            let api: bool = match self.kind {
                CallKind::Api { .. } => true,
                CallKind::Mcp => false,
            };
            if api && KiroProvider::is_invalid_model_id(body) {
                self.awaiting =
                CallAction::ReportFailure { credential_id, cause: FailureCause::Model };
            } else {
                self.fail("");
            }
        } else if status == 401 || status == 403 {
            if token_invalid && !contains_id(&self.refreshed, credential_id) {
                self.refreshed.push(credential_id);
                self.awaiting = CallAction::ForceRefresh { credential_id };
            } else {
                self.awaiting =
                CallAction::ReportFailure { credential_id, cause: FailureCause::Token };
            }
        } else if status == 429 {
            match KiroProvider::cooldown_for(body, parsed, self.retry_after) {
                Some(secs) => {
                    self.awaiting = CallAction::SetCooldown { credential_id, secs };
                },
                None => {
                    self.exclude(credential_id);
                    self.note();
                    self.go_on();
                },
            }
        } else if 400 <= status && status < 500 && status != 408 {
            self.fail("");
        } else {
            self.exclude_for_api(credential_id);
            self.note();
            self.pause();
        }
    }

    /// Goes on after a report on a credential was taken.
    fn take_report(&mut self, has_available: bool)
        requires
            old(self)@.attempt < old(self)@.max_retries,
            old(self)@.awaiting is ReportFailure || old(self)@.awaiting is ReportQuotaExhausted,
        ensures
            final(self)@ == reported(old(self)@, has_available),
    {
        match self.awaiting {
            CallAction::ReportFailure { credential_id, cause } => match cause {
                FailureCause::Endpoint => self.go_on(),
                FailureCause::Model => {
                    if has_available {
                        self.note();
                        self.go_on();
                    } else {
                        self.fail("（所有凭据均不支持该模型或已不可用）");
                    }
                },
                FailureCause::Token => {
                    self.exclude_for_api(credential_id);
                    if has_available {
                        self.note();
                        self.go_on();
                    } else {
                        self.fail("（所有凭据已用尽）");
                    }
                },
            },
            CallAction::ReportQuotaExhausted { credential_id } => {
                self.exclude_for_api(credential_id);
                if has_available {
                    self.note();
                    self.go_on();
                } else {
                    self.fail("（所有凭据已用尽）");
                }
            },
            _ => {},
        }
    }
}

impl KiroProvider {
    /// Begins a call of the API that is answered at once.
    pub fn call_api(&self, request_body: &str) -> (call: RetryLoop)
        ensures
            call.valid(),
            call@ == started(
                CallKind::Api { stream: false },
                provider::request_model(json::parsed_json(request_body@)),
                provider::request_session(json::parsed_json(request_body@)),
            ),
    {
        RetryLoop::begin(
            CallKind::Api { stream: false },
            KiroProvider::extract_model_from_request(request_body),
            KiroProvider::extract_session_id_from_request(request_body),
        )
    }

    /// Begins a call of the API that is answered by a stream.
    pub fn call_api_stream(&self, request_body: &str) -> (call: RetryLoop)
        ensures
            call.valid(),
            call@ == started(
                CallKind::Api { stream: true },
                provider::request_model(json::parsed_json(request_body@)),
                provider::request_session(json::parsed_json(request_body@)),
            ),
    {
        RetryLoop::begin(
            CallKind::Api { stream: true },
            KiroProvider::extract_model_from_request(request_body),
            KiroProvider::extract_session_id_from_request(request_body),
        )
    }

    /// Begins an MCP call, which is bound to no model and no session.
    pub fn call_mcp(&self) -> (call: RetryLoop)
        ensures
            call.valid(),
            call@ == started(CallKind::Mcp, None, None),
    {
        RetryLoop::begin(CallKind::Mcp, None, None)
    }

    /// Takes a call on after an event.
    pub fn advance(&self, call: &mut RetryLoop, event: CallEvent)
        requires
            old(call).valid(),
        ensures
            final(call).valid(),
            final(call)@ == step(self@, old(call)@, event@),
    {
        proof {
            law_calls_stay_sound(self@, call@, event@);
        }
        match (call.awaiting, event) {
            (CallAction::CountCredentials, CallEvent::Counted { total, available }) => {
                call.max_retries = KiroProvider::compute_max_retries(total, available);
                call.awaiting = CallAction::AskExcluded;
            },
            (CallAction::AskExcluded, CallEvent::Excluded { all }) => {
                call.take_answer(all);
            },
            (CallAction::Acquire, CallEvent::Acquired { credential_id, endpoint }) => {
                if count_tries(&call.tried, credential_id) >= MAX_RETRIES_PER_CREDENTIAL {
                    call.go_on();
                    return;
                }
                call.tried.push(credential_id);
                let name: Option<&str> = match &endpoint {
                    Some(name) => Some(name.as_str()),
                    None => None,
                };
                match self.endpoint_for(name) {
                    Ok(endpoint) => {
                        call.awaiting = CallAction::Send { credential_id, endpoint };
                    },
                    Err(complaint) => {
                        call.last_error = Some(CallError::Message(complaint));
                        call.awaiting =
                        CallAction::ReportFailure { credential_id, cause: FailureCause::Endpoint };
                    },
                }
            },
            (CallAction::Acquire, CallEvent::NotAcquired { cooling_down }) => {
                call.last_error = Some(CallError::Outside);
                if cooling_down {
                    call.awaiting = CallAction::ReturnOutside;
                } else {
                    call.go_on();
                }
            },
            (CallAction::Send { .. }, CallEvent::ClientFailed) => {
                call.last_error = Some(CallError::Outside);
                call.awaiting = CallAction::ReturnOutside;
            },
            (CallAction::Send { .. }, CallEvent::SendFailed) => {
                call.last_error = Some(CallError::Outside);
                call.pause();
            },
            (
                CallAction::Send { credential_id, endpoint },
                CallEvent::Responded { status, retry_after },
            ) => {
                if 100 <= status && status <= 999 {
                    call.status = status;
                    if 200 <= status && status < 300 {
                        call.awaiting = CallAction::Succeed { credential_id };
                    } else {
                        let header: Option<&str> = match &retry_after {
                            Some(header) => Some(header.as_str()),
                            None => None,
                        };
                        call.retry_after = KiroProvider::parse_retry_after(header);
                        call.awaiting = CallAction::ReadBody { credential_id, endpoint };
                    }
                }
            },
            (
                CallAction::ReadBody { .. },
                CallEvent::Body { body, monthly_limit, token_invalid },
            ) => {
                let parsed: Option<JsonValue> = JsonValue::parse(body.as_str());
                let line: String = status_text(call.status);
                call.judge(
                    body.as_str(),
                    parsed.as_ref(),
                    line.as_str(),
                    monthly_limit,
                    token_invalid,
                );
            },
            (CallAction::ReportQuotaExhausted { .. }, CallEvent::Reported { has_available }) => {
                call.take_report(has_available);
            },
            (CallAction::ReportFailure { .. }, CallEvent::Reported { has_available }) => {
                call.take_report(has_available);
            },
            (CallAction::ForceRefresh { credential_id }, CallEvent::Refreshed { ok }) => {
                if ok {
                    call.go_on();
                } else {
                    call.awaiting =
                    CallAction::ReportFailure { credential_id, cause: FailureCause::Token };
                }
            },
            (CallAction::SetCooldown { credential_id, .. }, CallEvent::CooldownSet) => {
                call.exclude(credential_id);
                call.note();
                call.go_on();
            },
            (CallAction::Sleep { .. }, CallEvent::Slept) => {
                call.go_on();
            },
            _ => {},
        }
    }
}

/// A call after a row of events.
pub open spec fn run(registry: ProviderModel, call: CallModel, events: Seq<EventModel>) -> CallModel
    decreases events.len(),
{
    if events.len() == 0 {
        call
    } else {
        step(registry, run(registry, call, events.drop_last()), events.last())
    }
}

/// Whether each of a row of events tells of the action that the call asked for.
pub open spec fn all_answer(
    registry: ProviderModel,
    call: CallModel,
    events: Seq<EventModel>,
) -> bool
    decreases events.len(),
{
    events.len() == 0 || (all_answer(registry, call, events.drop_last()) && answers(
        run(registry, call, events.drop_last()).awaiting,
        events.last(),
    ))
}

/// How far a call is from the end of a try.
spec fn stage(call: CallModel) -> int {
    match call.awaiting {
        CallAction::AskExcluded => if call.failed_ids.len() > 0 {
            9
        } else {
            8
        },
        CallAction::Acquire => 7,
        CallAction::Send { .. } => 6,
        CallAction::ReadBody { .. } => 5,
        CallAction::ForceRefresh { .. } => 4,
        CallAction::ReportQuotaExhausted { .. } => 3,
        CallAction::ReportFailure { .. } => 3,
        CallAction::SetCooldown { .. } => 3,
        CallAction::Sleep { .. } => 3,
        _ => 0,
    }
}

/// The most events that a call still takes.
spec fn rank(call: CallModel) -> int {
    if ended(call) {
        0
    } else {
        (call.max_retries - call.attempt) * 9 + stage(call) - 9
    }
}

/// Each event brings a call closer to its end.
proof fn lemma_progress(registry: ProviderModel, call: CallModel, event: EventModel)
    requires
        sound(call),
        !(call.awaiting is CountCredentials),
        answers(call.awaiting, event),
    ensures
        0 <= rank(step(registry, call, event)) < rank(call),
        step(registry, call, event).max_retries == call.max_retries,
        !(step(registry, call, event).awaiting is CountCredentials),
{
}

/// A call that has counted its credentials stays sound, and loses at least one from its
/// rank with each event.
proof fn lemma_run(registry: ProviderModel, call: CallModel, events: Seq<EventModel>)
    requires
        sound(call),
        !(call.awaiting is CountCredentials),
        all_answer(registry, call, events),
    ensures
        sound(run(registry, call, events)),
        !(run(registry, call, events).awaiting is CountCredentials),
        run(registry, call, events).max_retries == call.max_retries,
        0 <= rank(run(registry, call, events)),
        rank(run(registry, call, events)) + events.len() <= rank(call),
    decreases events.len(),
{
    if events.len() > 0 {
        let front = events.drop_last();
        lemma_run(registry, call, front);
        lemma_progress(registry, run(registry, call, front), events.last());
        law_calls_stay_sound(registry, run(registry, call, front), events.last());
    }
}

/// Every call ends: after its credentials are counted, it takes at most nine events for
/// each time that it may be tried.
pub proof fn law_calls_end(registry: ProviderModel, call: CallModel, events: Seq<EventModel>)
    requires
        sound(call),
        call.awaiting is AskExcluded,
        call.attempt == 0,
        all_answer(registry, call, events),
    ensures
        events.len() <= 9 * call.max_retries,
        run(registry, call, events).attempt <= call.max_retries,
{
    lemma_run(registry, call, events);
    lemma_attempts(registry, call, events);
}

proof fn lemma_attempts(registry: ProviderModel, call: CallModel, events: Seq<EventModel>)
    requires
        sound(call),
        !(call.awaiting is CountCredentials),
        call.attempt <= call.max_retries,
        all_answer(registry, call, events),
    ensures
        run(registry, call, events).attempt <= call.max_retries,
    decreases events.len(),
{
    if events.len() > 0 {
        let front = events.drop_last();
        lemma_run(registry, call, front);
        lemma_attempts(registry, call, front);
    }
}

/// The token of a credential is to be refreshed at most once in a call: a call that has
/// asked for it never asks for it again.
pub proof fn law_refresh_is_tried_once(
    registry: ProviderModel,
    call: CallModel,
    events: Seq<EventModel>,
    credential_id: u64,
)
    requires
        sound(call),
        call.awaiting == (CallAction::ForceRefresh { credential_id }),
        all_answer(registry, call, events),
        events.len() > 0,
    ensures
        run(registry, call, events).awaiting != (CallAction::ForceRefresh { credential_id }),
        run(registry, call, events).refreshed.contains(credential_id),
    decreases events.len(),
{
    let front = events.drop_last();
    let before = run(registry, call, front);
    if front.len() == 0 {
        assert(before == call);
    } else {
        law_refresh_is_tried_once(registry, call, front, credential_id);
    }
    assert(before.refreshed.contains(credential_id));
    let at = before.refreshed.index_of(credential_id);
    assert(before.refreshed[at] == credential_id);
    let after = step(registry, before, events.last());
    assert(after.refreshed.len() >= before.refreshed.len() && after.refreshed[at]
        == before.refreshed[at]);
}

/// A request that could not be sent is held against no credential, but for the try that it
/// was: none is excluded for it and none is reported, and the call goes on while it may.
pub proof fn law_network_errors_blame_no_credential(registry: ProviderModel, call: CallModel)
    requires
        sound(call),
        call.awaiting is Send,
    ensures
        ({
            let after = step(registry, call, EventModel::SendFailed);
            &&& after.failed_ids == call.failed_ids
            &&& after.refreshed == call.refreshed
            &&& after.tried == call.tried
            &&& if call.attempt + 1 < call.max_retries {
                after.awaiting == (CallAction::Sleep { attempt: call.attempt })
            } else {
                after.awaiting is ReturnOutside
            }
        }),
{
}

/// A response that faults the request, and not the credential, ends the call at once:
/// no credential is excluded and none is reported.
pub proof fn law_request_errors_blame_no_credential(
    registry: ProviderModel,
    call: CallModel,
    body: Seq<char>,
    monthly_limit: bool,
    token_invalid: bool,
)
    requires
        sound(call),
        call.awaiting is ReadBody,
        400 <= call.status < 500,
        call.status == 400 ==> call.kind is Mcp || !provider::invalid_model(body),
        call.status == 402 ==> !monthly_limit,
        call.status != 401,
        call.status != 403,
        call.status != 408,
        call.status != 429,
    ensures
        ({
            let after = step(
                registry,
                call,
                EventModel::Body { body, monthly_limit, token_invalid },
            );
            &&& after.awaiting is Fail
            &&& after.failed_ids == call.failed_ids
            &&& after.refreshed == call.refreshed
            &&& after.last_error == Some(
                ErrorModel::Message(
                    heading(call.kind) + ": "@ + (status_line(call.status) + " "@ + body),
                ),
            )
        }),
{
    assert(heading(call.kind) + Seq::<char>::empty() =~= heading(call.kind));
}

/// A success names the credential that the request was sent with.
pub proof fn law_success_names_the_credential(
    registry: ProviderModel,
    call: CallModel,
    status: u16,
    retry_after: Option<Seq<char>>,
)
    requires
        call.awaiting is Send,
        success(status),
    ensures
        step(registry, call, EventModel::Responded { status, retry_after }).awaiting == (
        CallAction::Succeed { credential_id: credential_of(call.awaiting) }),
{
}

/// A credential under a rate limit is excluded before the next try, put aside or not, and
/// is reported neither as failed nor as used up.
pub proof fn law_rate_limit_moves_on(
    registry: ProviderModel,
    call: CallModel,
    body: Seq<char>,
    monthly_limit: bool,
    token_invalid: bool,
)
    requires
        sound(call),
        call.awaiting is ReadBody,
        call.status == 429,
    ensures
        ({
            let credential_id = credential_of(call.awaiting);
            let judged = step(
                registry,
                call,
                EventModel::Body { body, monthly_limit, token_invalid },
            );
            let after = if judged.awaiting is SetCooldown {
                step(registry, judged, EventModel::CooldownSet)
            } else {
                judged
            };
            &&& judged.awaiting is SetCooldown <==> !provider::lacks_capacity(
                body,
                json::parsed_json(body),
            )
            &&& after.failed_ids.contains(credential_id)
            &&& after.attempt == call.attempt + 1
            &&& after.awaiting is AskExcluded || after.awaiting is Fail
        }),
{
    lemma_with_id(call.failed_ids, credential_of(call.awaiting));
}

/// Once the pool has no credential left, a call ends and says so, with the status and the
/// body of the last response.
pub proof fn law_empty_pool_ends_the_call(registry: ProviderModel, call: CallModel)
    requires
        call.awaiting is ReportQuotaExhausted || (call.awaiting is ReportFailure
            && call.awaiting->cause != FailureCause::Endpoint),
    ensures
        ({
            let after = step(registry, call, EventModel::Reported { has_available: false });
            let note = if call.awaiting is ReportFailure && call.awaiting->cause
                == FailureCause::Model {
                unsupported()
            } else {
                used_up()
            };
            &&& after.awaiting is Fail
            &&& after.last_error == Some(
                ErrorModel::Message(heading(call.kind) + note + ": "@ + call.failure),
            )
        }),
{
}

/// A credential that is excluded stays so until all available ones are; they are all
/// admitted again then.
pub proof fn law_exclusions_hold(
    registry: ProviderModel,
    call: CallModel,
    event: EventModel,
    credential_id: u64,
)
    requires
        call.failed_ids.contains(credential_id),
    ensures
        ({
            let after = step(registry, call, event);
            if call.awaiting is AskExcluded && event == (EventModel::Excluded { all: true }) {
                after.failed_ids == Seq::<u64>::empty()
            } else {
                after.failed_ids.contains(credential_id)
            }
        }),
{
    let at = call.failed_ids.index_of(credential_id);
    assert(call.failed_ids[at] == credential_id);
    let after = step(registry, call, event);
    if !(call.awaiting is AskExcluded && event == (EventModel::Excluded { all: true })) {
        assert(after.failed_ids.len() >= call.failed_ids.len() && after.failed_ids[at]
            == credential_id);
    }
}

/// How many of a row of events tell that a request was sent, or could not be.
pub open spec fn sends(events: Seq<EventModel>) -> nat
    decreases events.len(),
{
    if events.len() == 0 {
        0
    } else {
        let last: nat = match events.last() {
            EventModel::SendFailed => 1,
            EventModel::Responded { .. } => 1,
            _ => 0,
        };
        sends(events.drop_last()) + last
    }
}

/// Whether the present try may have sent its request.
spec fn under_way(call: CallModel) -> bool {
    match call.awaiting {
        CallAction::CountCredentials => false,
        CallAction::AskExcluded => false,
        CallAction::Acquire => false,
        CallAction::Send { .. } => false,
        CallAction::ReturnOutside => call.attempt < call.max_retries,
        CallAction::Fail => call.attempt < call.max_retries,
        _ => true,
    }
}

proof fn lemma_sends(registry: ProviderModel, call: CallModel, events: Seq<EventModel>)
    requires
        sound(call),
        call.awaiting is AskExcluded,
        call.attempt == 0,
        all_answer(registry, call, events),
    ensures
        ({
            let after = run(registry, call, events);
            &&& after.attempt <= after.max_retries
            &&& after.awaiting is Succeed ==> after.attempt < after.max_retries
            &&& sends(events) <= after.attempt + (if under_way(after) {
                1int
            } else {
                0int
            })
        }),
    decreases events.len(),
{
    if events.len() > 0 {
        lemma_sends(registry, call, events.drop_last());
        lemma_run(registry, call, events.drop_last());
    }
}

/// A request is sent no more often than the budget of its call allows.
pub proof fn law_sends_keep_the_budget(
    registry: ProviderModel,
    call: CallModel,
    events: Seq<EventModel>,
)
    requires
        sound(call),
        call.awaiting is AskExcluded,
        call.attempt == 0,
        all_answer(registry, call, events),
    ensures
        sends(events) <= call.max_retries,
{
    lemma_sends(registry, call, events);
    lemma_run(registry, call, events);
}

/// How many of a row of events tell that a request was sent with a credential, or could not
/// be.
pub open spec fn sends_with(
    registry: ProviderModel,
    call: CallModel,
    events: Seq<EventModel>,
    credential_id: u64,
) -> nat
    decreases events.len(),
{
    if events.len() == 0 {
        0
    } else {
        let front = events.drop_last();
        let awaiting = run(registry, call, front).awaiting;
        let last: nat = if sending_with(awaiting, credential_id) && (events.last() is SendFailed
            || events.last() is Responded) {
            1
        } else {
            0
        };
        sends_with(registry, call, front, credential_id) + last
    }
}

/// Whether an action is to send the request with a credential.
pub open spec fn sending_with(awaiting: CallAction, credential_id: u64) -> bool {
    awaiting is Send && credential_of(awaiting) == credential_id
}

/// A step forgets no try, and only a new try with a credential leads to sending with it.
proof fn lemma_step_tries(
    registry: ProviderModel,
    call: CallModel,
    event: EventModel,
    credential_id: u64,
)
    requires
        answers(call.awaiting, event),
    ensures
        ({
            let after = step(registry, call, event);
            &&& tries(after.tried, credential_id) >= tries(call.tried, credential_id)
            &&& sending_with(after.awaiting, credential_id) ==> event is Acquired && tries(
                after.tried,
                credential_id,
            ) == tries(call.tried, credential_id) + 1
        }),
{
    match event {
        EventModel::Acquired { credential_id: given, .. } => {
            assert(call.tried.push(given).drop_last() == call.tried);
        },
        _ => {
            let after = step(registry, call, event);
            assert(after.tried == call.tried && !(after.awaiting is Send));
        },
    }
}

/// Every request that was sent with a credential is one of its tries.
proof fn lemma_sends_are_tries(
    registry: ProviderModel,
    call: CallModel,
    events: Seq<EventModel>,
    credential_id: u64,
)
    requires
        sound(call),
        call.awaiting is AskExcluded,
        all_answer(registry, call, events),
    ensures
        ({
            let after = run(registry, call, events);
            sends_with(registry, call, events, credential_id) + (if sending_with(
                after.awaiting,
                credential_id,
            ) {
                1int
            } else {
                0int
            }) <= tries(after.tried, credential_id)
        }),
    decreases events.len(),
{
    if events.len() > 0 {
        let front = events.drop_last();
        let before = run(registry, call, front);
        lemma_sends_are_tries(registry, call, front, credential_id);
        lemma_step_tries(registry, before, events.last(), credential_id);
        let after = step(registry, before, events.last());
        assert(run(registry, call, events) == after);
        if events.last() is Acquired {
            assert(!sending_with(before.awaiting, credential_id));
        }
    }
}

/// In one call no credential is tried more than three times, so a request is sent at most
/// three times with it.
pub proof fn law_credential_keeps_its_limit(
    registry: ProviderModel,
    call: CallModel,
    events: Seq<EventModel>,
    credential_id: u64,
)
    requires
        sound(call),
        call.awaiting is AskExcluded,
        call.attempt == 0,
        all_answer(registry, call, events),
    ensures
        sends_with(registry, call, events, credential_id) <= MAX_RETRIES_PER_CREDENTIAL,
{
    lemma_sends_are_tries(registry, call, events, credential_id);
    lemma_run(registry, call, events);
}

/// A credential that has had its tries stays out for the rest of the call: the next try
/// always does without it, and where the pool hands it out all the same, nothing is sent
/// with it.
pub proof fn law_spent_credentials_stay_out(
    registry: ProviderModel,
    call: CallModel,
    event: EventModel,
    credential_id: u64,
)
    requires
        sound(call),
        tries(call.tried, credential_id) >= MAX_RETRIES_PER_CREDENTIAL,
    ensures
        excluded_ids(call).contains(credential_id),
        ({
            let after = step(registry, call, event);
            &&& tries(after.tried, credential_id) >= MAX_RETRIES_PER_CREDENTIAL
            &&& excluded_ids(after).contains(credential_id)
            &&& answers(call.awaiting, event) ==> !sending_with(after.awaiting, credential_id)
        }),
{
    let after = step(registry, call, event);
    if answers(call.awaiting, event) {
        lemma_step_tries(registry, call, event, credential_id);
        law_calls_stay_sound(registry, call, event);
    }
    lemma_excluded(call, credential_id);
    lemma_excluded(after, credential_id);
}

proof fn lemma_excluded(call: CallModel, id: u64)
    requires
        tries(call.tried, id) >= MAX_RETRIES_PER_CREDENTIAL,
    ensures
        excluded_ids(call).contains(id),
{
    lemma_spent(call.tried, id);
    let spent = spent_ids(call.tried);
    let at = spent.index_of(id);
    assert(excluded_ids(call)[call.failed_ids.len() + at] == id);
}

/// Where only credentials are left that have had their tries, the call ends with its last
/// error.
pub proof fn law_spent_pool_ends_the_call(registry: ProviderModel, call: CallModel)
    requires
        call.awaiting is AskExcluded,
        call.failed_ids.len() == 0,
        spent_ids(call.tried).len() > 0,
    ensures
        ({
            let after = step(registry, call, EventModel::Excluded { all: true });
            match call.last_error {
                Some(ErrorModel::Outside) => after.awaiting is ReturnOutside && after.last_error
                    == call.last_error,
                Some(ErrorModel::Message(_)) => after.awaiting is Fail && after.last_error
                    == call.last_error,
                None => after.awaiting is Fail,
            }
        }),
{
}

/// How often a credential was tried is how often it stands among the tries.
pub proof fn law_tries_are_counted(tried: Seq<u64>, id: u64)
    ensures
        tries(tried, id) == tried.to_multiset().count(id),
    decreases tried.len(),
{
    broadcast use vstd::multiset::group_multiset_axioms;
    broadcast use vstd::seq_lib::group_to_multiset_ensures;

    if tried.len() > 0 {
        law_tries_are_counted(tried.drop_last(), id);
        assert(tried == tried.drop_last().push(tried.last()));
        assert(tried.to_multiset() =~= tried.drop_last().to_multiset().insert(tried.last()));
    }
}

/// Whether a call that was in one state is over with a try in another: the next try is
/// counted; while the budget allows it, the pool is asked again, with the error kept for
/// later; else the call ends with the error, and where it saw none, with the words that it
/// was tried as often as it may be. What the call is about stays, and so does what it
/// tried, read and refreshed.
pub open spec fn is_over_with_try(before: CallModel, after: CallModel, error: Option<ErrorModel>) -> bool {
    &&& after.attempt == before.attempt + 1
    &&& if before.attempt + 1 < before.max_retries {
        after.awaiting is AskExcluded && after.last_error == error
    } else {
        match error {
            Some(ErrorModel::Outside) => after.awaiting is ReturnOutside && after.last_error
                == error,
            Some(ErrorModel::Message(_)) => after.awaiting is Fail && after.last_error == error,
            None => after.awaiting is Fail && after.last_error == Some(
                ErrorModel::Message(
                    heading(before.kind) + "：已达到最大重试次数（"@ + text::decimal(
                        before.max_retries as nat,
                    ) + "次）"@,
                ),
            ),
        }
    }
    &&& after.kind == before.kind
    &&& after.model == before.model
    &&& after.session_id == before.session_id
    &&& after.max_retries == before.max_retries
    &&& after.tried == before.tried
    &&& after.refreshed == before.refreshed
    &&& after.status == before.status
    &&& after.retry_after == before.retry_after
}

/// Whether a list of credentials is another with one credential in it: at its end, unless it
/// was there.
pub open spec fn holds_also(before: Seq<u64>, after: Seq<u64>, id: u64) -> bool {
    if exists|i: int| 0 <= i < before.len() && before[i] == id {
        after == before
    } else {
        after == before.push(id)
    }
}

/// How the words of a call begin: they tell a streaming call, a plain one and an MCP call
/// apart.
pub proof fn law_headings_are_exact(kind: CallKind)
    ensures
        kind == (CallKind::Api { stream: true }) ==> heading(kind) == "流式 API 请求失败"@,
        kind == (CallKind::Api { stream: false }) ==> heading(kind) == "非流式 API 请求失败"@,
        kind is Mcp ==> heading(kind) == "MCP 请求失败"@,
        used_up() == "（所有凭据已用尽）"@,
        unsupported() == "（所有凭据均不支持该模型或已不可用）"@,
{
}

/// A call stays what it is: no event changes its kind, its model or its session, and its
/// budget is set by the count of the credentials alone. An event that answers nothing
/// changes nothing.
pub proof fn law_calls_stay_what_they_are(registry: ProviderModel, call: CallModel, event: EventModel)
    ensures
        ({
            let after = step(registry, call, event);
            &&& after.kind == call.kind
            &&& after.model == call.model
            &&& after.session_id == call.session_id
            &&& !(event is Counted) ==> after.max_retries == call.max_retries
            &&& ended(call) ==> after == call
        }),
{
    match event {
        EventModel::Body { .. } => {},
        EventModel::Reported { .. } => {},
        EventModel::Acquired { .. } => {},
        EventModel::Excluded { .. } => {},
        _ => {},
    }
}

/// A call begins with nothing tried, excluded, refreshed or seen, and counts the
/// credentials first. Its budget is three tries for each credential, brought within bounds:
/// at least one try and one for each available credential, at most 64, or one for each
/// available credential where they are more.
pub proof fn law_the_count_sets_the_budget(
    registry: ProviderModel,
    kind: CallKind,
    model: Option<Seq<char>>,
    session_id: Option<Seq<char>>,
    total: usize,
    available: usize,
)
    ensures
        ({
            let call = started(kind, model, session_id);
            let after = step(registry, call, EventModel::Counted { total, available });
            let n = after.max_retries;
            &&& call.awaiting is CountCredentials
            &&& call.kind == kind && call.model == model && call.session_id == session_id
            &&& call.attempt == 0 && call.last_error is None
            &&& call.tried.len() == 0 && call.failed_ids.len() == 0 && call.refreshed.len() == 0
            &&& after == (CallModel { max_retries: n, awaiting: CallAction::AskExcluded, ..call })
            &&& n >= 1 && n >= available
            &&& n <= 64 || n == available
            &&& n == 3 * total || (n > 3 * total && (n == 1 || n == available)) || (n < 3 * total
                && (n == 64 || n == available) && n >= 64)
        }),
{
}

/// A try asks for a credential that is not excluded. Where all available ones are, those
/// excluded for now are admitted again, unless some have had their three tries: those are
/// asked for no more, and where nothing else was excluded, the call ends.
pub proof fn law_exclusions_are_asked_for(registry: ProviderModel, call: CallModel, all: bool)
    requires
        call.awaiting is AskExcluded,
    ensures
        ({
            let after = step(registry, call, EventModel::Excluded { all });
            let spent = exists|id: u64| #[trigger] call.tried.to_multiset().count(id) >= 3;
            &&& !all ==> after == (CallModel { awaiting: CallAction::Acquire, ..call })
            &&& all && !spent ==> after == (CallModel {
                failed_ids: Seq::empty(),
                awaiting: CallAction::Acquire,
                ..call
            })
            &&& all && spent && call.failed_ids.len() > 0 ==> after == (CallModel {
                failed_ids: Seq::empty(),
                ..call
            })
            &&& all && spent && call.failed_ids.len() == 0 ==> after == (match call.last_error {
                Some(ErrorModel::Outside) => CallModel {
                    awaiting: CallAction::ReturnOutside,
                    ..call
                },
                Some(ErrorModel::Message(_)) => CallModel { awaiting: CallAction::Fail, ..call },
                None => CallModel {
                    last_error: Some(
                        ErrorModel::Message(
                            heading(call.kind) + "：已达到最大重试次数（"@ + text::decimal(
                                call.max_retries as nat,
                            ) + "次）"@,
                        ),
                    ),
                    awaiting: CallAction::Fail,
                    ..call
                },
            })
        }),
{
    let spent = spent_ids(call.tried);
    assert forall|id: u64| #[trigger] call.tried.to_multiset().count(id) >= 3 <==> spent.contains(
        id,
    ) by {
        law_tries_are_counted(call.tried, id);
        lemma_spent(call.tried, id);
    }
    if spent.len() > 0 {
        assert(spent.contains(spent[0]));
        assert(call.tried.to_multiset().count(spent[0]) >= 3);
    }
}

/// A credential that was handed out is tried with the endpoint that it names, or with the
/// default one, at the first place where that is registered. One without an endpoint is
/// reported, and one that has had its three tries is passed over.
pub proof fn law_credentials_are_tried_at_their_endpoint(
    registry: ProviderModel,
    call: CallModel,
    credential_id: u64,
    endpoint: Option<Seq<char>>,
)
    requires
        sound(call),
        call.awaiting is Acquire,
        registry.endpoints.len() <= usize::MAX,
    ensures
        ({
            let after = step(registry, call, EventModel::Acquired { credential_id, endpoint });
            let spent = call.tried.to_multiset().count(credential_id) >= 3;
            let name = if endpoint is Some {
                endpoint->0
            } else {
                registry.default_endpoint
            };
            &&& spent ==> is_over_with_try(call, after, call.last_error) && after.failed_ids
                == call.failed_ids && after.failure == call.failure
            &&& forall|at: int|
                !spent && 0 <= at < registry.endpoints.len() && #[trigger] registry.endpoints[at]
                    == name && (forall|k: int|
                    0 <= k < at ==> #[trigger] registry.endpoints[k] != name) ==> after == (
                CallModel {
                    tried: call.tried.push(credential_id),
                    awaiting: CallAction::Send { credential_id, endpoint: at as usize },
                    ..call
                })
            &&& !spent && !registry.endpoints.contains(name) ==> after == (CallModel {
                tried: call.tried.push(credential_id),
                last_error: Some(ErrorModel::Message("未知端点: "@ + name)),
                awaiting: CallAction::ReportFailure {
                    credential_id,
                    cause: FailureCause::Endpoint,
                },
                ..call
            })
        }),
{
    law_tries_are_counted(call.tried, credential_id);
    let name = if endpoint is Some {
        endpoint->0
    } else {
        registry.default_endpoint
    };
    provider::law_endpoints_are_found_in_order(registry, endpoint);
}

/// Where no credential comes, a call ends at once if all are put aside for a while, else
/// goes on with the error from outside; where no client can be built, it ends.
pub proof fn law_a_missing_credential_is_an_error(
    registry: ProviderModel,
    call: CallModel,
    cooling_down: bool,
)
    requires
        sound(call),
    ensures
        call.awaiting is Acquire ==> {
            let after = step(registry, call, EventModel::NotAcquired { cooling_down });
            if cooling_down {
                after == (CallModel {
                    last_error: Some(ErrorModel::Outside),
                    awaiting: CallAction::ReturnOutside,
                    ..call
                })
            } else {
                is_over_with_try(call, after, Some(ErrorModel::Outside)) && after.failed_ids
                    == call.failed_ids && after.failure == call.failure
            }
        },
        call.awaiting is Send ==> step(registry, call, EventModel::ClientFailed) == (CallModel {
            last_error: Some(ErrorModel::Outside),
            awaiting: CallAction::ReturnOutside,
            ..call
        }),
{
}

/// A request that could not be sent is tried again after a wait while the budget allows it,
/// whatever the kind of the call; the last one ends the call with that error.
pub proof fn law_network_errors_are_retried(registry: ProviderModel, call: CallModel)
    requires
        sound(call),
        call.awaiting is Send,
    ensures
        ({
            let after = step(registry, call, EventModel::SendFailed);
            &&& call.attempt + 1 < call.max_retries ==> after == (CallModel {
                last_error: Some(ErrorModel::Outside),
                awaiting: CallAction::Sleep { attempt: call.attempt },
                ..call
            })
            &&& call.attempt + 1 >= call.max_retries ==> is_over_with_try(
                call,
                after,
                Some(ErrorModel::Outside),
            ) && after.failed_ids == call.failed_ids && after.failure == call.failure
        }),
{
}

/// A response with a status from 200 to 299 is the call's success with the credential that
/// it was sent with; the body of any other is read, for that credential and endpoint.
pub proof fn law_responses_are_told_by_their_status(
    registry: ProviderModel,
    call: CallModel,
    credential_id: u64,
    endpoint: usize,
    status: u16,
    retry_after: Option<Seq<char>>,
)
    requires
        call.awaiting == (CallAction::Send { credential_id, endpoint }),
        100 <= status <= 999,
    ensures
        ({
            let after = step(registry, call, EventModel::Responded { status, retry_after });
            &&& 200 <= status <= 299 ==> after == (CallModel {
                status,
                awaiting: CallAction::Succeed { credential_id },
                ..call
            })
            &&& !(200 <= status <= 299) ==> after == (CallModel {
                status,
                retry_after: provider::retry_after(retry_after),
                awaiting: CallAction::ReadBody { credential_id, endpoint },
                ..call
            })
        }),
{
}

/// A body is judged for the credential that the request was sent with, by what it holds as
/// a JSON document and how its status is shown.
pub proof fn law_bodies_are_judged(
    registry: ProviderModel,
    call: CallModel,
    credential_id: u64,
    endpoint: usize,
    body: Seq<char>,
    monthly_limit: bool,
    token_invalid: bool,
)
    requires
        call.awaiting == (CallAction::ReadBody { credential_id, endpoint }),
    ensures
        step(registry, call, EventModel::Body { body, monthly_limit, token_invalid }) == judged(
            call,
            credential_id,
            body,
            json::parsed_json(body),
            status_line(call.status),
            monthly_limit,
            token_invalid,
        ),
{
}

/// Transient responses are retried, by calls of every kind, streaming or not: a status of
/// 408, of 500 and above, or below 400 leads to a wait and another try while the budget
/// allows it. For an API call the credential is excluded for now; an MCP call excludes none.
pub proof fn law_transient_responses_are_retried(
    call: CallModel,
    credential_id: u64,
    body: Seq<char>,
    parsed: Option<JsonModel>,
    line: Seq<char>,
    monthly_limit: bool,
    token_invalid: bool,
)
    requires
        call.attempt < call.max_retries,
        call.status == 408 || call.status >= 500 || call.status < 400,
    ensures
        ({
            let after = judged(
                call,
                credential_id,
                body,
                parsed,
                line,
                monthly_limit,
                token_invalid,
            );
            let error = Some(
                ErrorModel::Message(heading(call.kind) + ": "@ + (line + " "@ + body)),
            );
            &&& call.attempt + 1 < call.max_retries ==> after == (CallModel {
                failure: line + " "@ + body,
                failed_ids: after.failed_ids,
                last_error: error,
                awaiting: CallAction::Sleep { attempt: call.attempt },
                ..call
            })
            &&& call.attempt + 1 >= call.max_retries ==> is_over_with_try(call, after, error)
                && after.failure == line + " "@ + body
            &&& call.kind is Api ==> holds_also(call.failed_ids, after.failed_ids, credential_id)
            &&& call.kind is Mcp ==> after.failed_ids == call.failed_ids
        }),
{
    assert(heading(call.kind) + Seq::<char>::empty() =~= heading(call.kind));
    lemma_holds_also(call.failed_ids, credential_id);
}

proof fn lemma_holds_also(ids: Seq<u64>, id: u64)
    ensures
        holds_also(ids, with_id(ids, id), id),
{
    if ids.contains(id) {
        let i = ids.index_of(id);
        assert(ids[i] == id);
    }
}

/// A request that is refused for what it is ends the call at once, by calls of every kind:
/// a status of 400, unless an API call learns that the credential may not use the model;
/// one of 402, unless the quota is used up; any other from 400 to 499 but 401, 403, 408 and
/// 429. No credential is excluded, tried again or refreshed.
pub proof fn law_refused_requests_end_the_call(
    call: CallModel,
    credential_id: u64,
    body: Seq<char>,
    parsed: Option<JsonModel>,
    line: Seq<char>,
    monthly_limit: bool,
    token_invalid: bool,
)
    requires
        400 <= call.status <= 499,
        call.status == 400 ==> call.kind is Mcp || !provider::invalid_model(body),
        call.status == 402 ==> !monthly_limit,
        call.status != 401,
        call.status != 403,
        call.status != 408,
        call.status != 429,
    ensures
        judged(call, credential_id, body, parsed, line, monthly_limit, token_invalid) == (
        CallModel {
            failure: line + " "@ + body,
            last_error: Some(
                ErrorModel::Message(heading(call.kind) + ": "@ + (line + " "@ + body)),
            ),
            awaiting: CallAction::Fail,
            ..call
        }),
{
    assert(heading(call.kind) + Seq::<char>::empty() =~= heading(call.kind));
}

/// A response that faults the credential has it reported, and nothing else changes: a used
/// up quota by a status of 402; a model that an API call may not use by one of 400; a
/// refused token by one of 401 or 403, once its refresh was tried or where the endpoint
/// does not say that the token is invalid. An invalid token is refreshed first.
pub proof fn law_faulty_credentials_are_reported(
    call: CallModel,
    credential_id: u64,
    body: Seq<char>,
    parsed: Option<JsonModel>,
    line: Seq<char>,
    monthly_limit: bool,
    token_invalid: bool,
)
    ensures
        ({
            let after = judged(
                call,
                credential_id,
                body,
                parsed,
                line,
                monthly_limit,
                token_invalid,
            );
            let failure = line + " "@ + body;
            let refreshed = exists|i: int|
                0 <= i < call.refreshed.len() && call.refreshed[i] == credential_id;
            &&& call.status == 402 && monthly_limit ==> after == (CallModel {
                failure,
                awaiting: CallAction::ReportQuotaExhausted { credential_id },
                ..call
            })
            &&& call.status == 400 && call.kind is Api && provider::invalid_model(body) ==> after
                == (CallModel {
                failure,
                awaiting: CallAction::ReportFailure { credential_id, cause: FailureCause::Model },
                ..call
            })
            &&& (call.status == 401 || call.status == 403) && token_invalid && !refreshed ==> after
                == (CallModel {
                failure,
                refreshed: call.refreshed.push(credential_id),
                awaiting: CallAction::ForceRefresh { credential_id },
                ..call
            })
            &&& (call.status == 401 || call.status == 403) && (!token_invalid || refreshed)
                ==> after == (CallModel {
                failure,
                awaiting: CallAction::ReportFailure { credential_id, cause: FailureCause::Token },
                ..call
            })
        }),
{
    if call.refreshed.contains(credential_id) {
        let i = call.refreshed.index_of(credential_id);
        assert(call.refreshed[i] == credential_id);
    }
}

/// A rate limit has the credential put aside, for as long as the response asks within 60
/// and 300 seconds, or for 60 where it does not say; where the model lacks capacity, the
/// credential is excluded for now and the next one is tried at once.
pub proof fn law_rate_limits_put_credentials_aside(
    call: CallModel,
    credential_id: u64,
    body: Seq<char>,
    parsed: Option<JsonModel>,
    line: Seq<char>,
    monthly_limit: bool,
    token_invalid: bool,
)
    requires
        call.attempt < call.max_retries,
        call.status == 429,
    ensures
        ({
            let after = judged(
                call,
                credential_id,
                body,
                parsed,
                line,
                monthly_limit,
                token_invalid,
            );
            let failure = line + " "@ + body;
            let secs: nat = match call.retry_after {
                Some(secs) => if secs < 60 {
                    60
                } else if secs > 300 {
                    300
                } else {
                    secs
                },
                None => 60,
            };
            &&& !provider::lacks_capacity(body, parsed) ==> after == (CallModel {
                failure,
                awaiting: CallAction::SetCooldown { credential_id, secs: secs as u64 },
                ..call
            })
            &&& provider::lacks_capacity(body, parsed) ==> is_over_with_try(
                call,
                after,
                Some(ErrorModel::Message(heading(call.kind) + ": "@ + failure)),
            ) && after.failure == failure && holds_also(
                call.failed_ids,
                after.failed_ids,
                credential_id,
            )
        }),
{
    assert(heading(call.kind) + Seq::<char>::empty() =~= heading(call.kind));
    lemma_holds_also(call.failed_ids, credential_id);
}

/// A credential that was put aside is excluded for now, and the next one is tried at once;
/// after a wait the call is tried again.
pub proof fn law_the_next_try_follows(registry: ProviderModel, call: CallModel)
    requires
        sound(call),
    ensures
        call.awaiting is SetCooldown ==> {
            let after = step(registry, call, EventModel::CooldownSet);
            &&& is_over_with_try(
                call,
                after,
                Some(ErrorModel::Message(heading(call.kind) + ": "@ + call.failure)),
            )
            &&& holds_also(
                call.failed_ids,
                after.failed_ids,
                call.awaiting->SetCooldown_credential_id,
            )
            &&& after.failure == call.failure
        },
        call.awaiting is Sleep ==> {
            let after = step(registry, call, EventModel::Slept);
            &&& is_over_with_try(call, after, call.last_error)
            &&& after.failed_ids == call.failed_ids
            &&& after.failure == call.failure
        },
{
    assert(heading(call.kind) + Seq::<char>::empty() =~= heading(call.kind));
    lemma_holds_also(call.failed_ids, credential_of(call.awaiting));
}

/// A token that was refreshed is tried at once; one that was not has its credential
/// reported.
pub proof fn law_refreshed_tokens_are_tried(
    registry: ProviderModel,
    call: CallModel,
    credential_id: u64,
    ok: bool,
)
    requires
        sound(call),
        call.awaiting == (CallAction::ForceRefresh { credential_id }),
    ensures
        ({
            let after = step(registry, call, EventModel::Refreshed { ok });
            &&& ok ==> is_over_with_try(call, after, call.last_error) && after.failed_ids
                == call.failed_ids && after.failure == call.failure
            &&& !ok ==> after == (CallModel {
                awaiting: CallAction::ReportFailure { credential_id, cause: FailureCause::Token },
                ..call
            })
        }),
{
}

/// After a report the next credential is tried, as long as the pool has one; else the call
/// ends with the last response and says what the pool lacks. An API call excludes a
/// credential whose quota is used up or whose token was refused; one that may not use the
/// model, or has no endpoint, is excluded by no call.
pub proof fn law_reports_lead_to_the_next_credential(
    registry: ProviderModel,
    call: CallModel,
    credential_id: u64,
    has_available: bool,
)
    requires
        sound(call),
        call.awaiting == (CallAction::ReportQuotaExhausted { credential_id }) || (
        call.awaiting is ReportFailure && call.awaiting->ReportFailure_credential_id
            == credential_id),
    ensures
        ({
            let after = step(registry, call, EventModel::Reported { has_available });
            let cause = call.awaiting->cause;
            let endpoint = call.awaiting is ReportFailure && cause == FailureCause::Endpoint;
            let model = call.awaiting is ReportFailure && cause == FailureCause::Model;
            &&& after.failure == call.failure
            &&& endpoint ==> is_over_with_try(call, after, call.last_error)
            &&& !endpoint && has_available ==> is_over_with_try(
                call,
                after,
                Some(ErrorModel::Message(heading(call.kind) + ": "@ + call.failure)),
            )
            &&& !endpoint && !has_available ==> after == (CallModel {
                failed_ids: after.failed_ids,
                last_error: Some(
                    ErrorModel::Message(
                        heading(call.kind) + (if model {
                            unsupported()
                        } else {
                            used_up()
                        }) + ": "@ + call.failure,
                    ),
                ),
                awaiting: CallAction::Fail,
                ..call
            })
            &&& endpoint || model || call.kind is Mcp ==> after.failed_ids == call.failed_ids
            &&& !endpoint && !model && call.kind is Api ==> holds_also(
                call.failed_ids,
                after.failed_ids,
                credential_id,
            )
        }),
{
    assert(heading(call.kind) + Seq::<char>::empty() =~= heading(call.kind));
    lemma_holds_also(call.failed_ids, credential_id);
}

/// Streaming and plain API calls take the same steps: from the same state and event they
/// come to the same state, but for the words that their errors begin with.
pub proof fn law_streams_take_the_same_steps(
    registry: ProviderModel,
    stream: CallModel,
    plain: CallModel,
    event: EventModel,
)
    requires
        stream.kind == (CallKind::Api { stream: true }),
        plain.kind == (CallKind::Api { stream: false }),
        stream.last_error is Some == plain.last_error is Some,
        stream.last_error is Some ==> stream.last_error->0 is Outside == plain.last_error->0 is Outside,
        plain == (CallModel { kind: plain.kind, last_error: plain.last_error, ..stream }),
    ensures
        ({
            let a = step(registry, stream, event);
            let b = step(registry, plain, event);
            &&& b == (CallModel { kind: plain.kind, last_error: b.last_error, ..a })
            &&& a.last_error is Some == b.last_error is Some
            &&& a.last_error is Some ==> a.last_error->0 is Outside == b.last_error->0 is Outside
        }),
{
    match event {
        EventModel::Body { .. } => {},
        EventModel::Reported { .. } => {},
        EventModel::Acquired { .. } => {},
        EventModel::Excluded { .. } => {},
        _ => {},
    }
}

/// The credentials that the next try does without are those excluded for now and those
/// that were tried three times.
pub proof fn law_excluded_are_the_failed_and_the_spent(call: CallModel, id: u64)
    ensures
        excluded_ids(call).contains(id) <==> call.failed_ids.contains(id)
            || call.tried.to_multiset().count(id) >= 3,
{
    law_tries_are_counted(call.tried, id);
    lemma_spent(call.tried, id);
    let spent = spent_ids(call.tried);
    if call.failed_ids.contains(id) {
        let i = call.failed_ids.index_of(id);
        assert(excluded_ids(call)[i] == id);
    }
    if spent.contains(id) {
        let i = spent.index_of(id);
        assert(excluded_ids(call)[call.failed_ids.len() + i] == id);
    }
    if excluded_ids(call).contains(id) {
        let i = excluded_ids(call).index_of(id);
        if i < call.failed_ids.len() {
            assert(call.failed_ids[i] == id);
        } else {
            assert(spent[i - call.failed_ids.len()] == id);
        }
    }
}

/// An event is seen as it is, with all that it tells.
pub proof fn law_events_are_seen_whole(event: CallEvent)
    ensures
        event matches CallEvent::Counted { total, available } ==> event@ == (EventModel::Counted {
            total,
            available,
        }),
        event matches CallEvent::Excluded { all } ==> event@ == (EventModel::Excluded { all }),
        event matches CallEvent::Acquired { credential_id, endpoint } ==> event@ == (
        EventModel::Acquired { credential_id, endpoint: text::optional_text(endpoint) }),
        event matches CallEvent::NotAcquired { cooling_down } ==> event@ == (
        EventModel::NotAcquired { cooling_down }),
        event is ClientFailed ==> event@ is ClientFailed,
        event is SendFailed ==> event@ is SendFailed,
        event matches CallEvent::Responded { status, retry_after } ==> event@ == (
        EventModel::Responded { status, retry_after: text::optional_text(retry_after) }),
        event matches CallEvent::Body { body, monthly_limit, token_invalid } ==> event@ == (
        EventModel::Body { body: body@, monthly_limit, token_invalid }),
        event matches CallEvent::Reported { has_available } ==> event@ == (EventModel::Reported {
            has_available,
        }),
        event matches CallEvent::Refreshed { ok } ==> event@ == (EventModel::Refreshed { ok }),
        event is CooldownSet ==> event@ is CooldownSet,
        event is Slept ==> event@ is Slept,
{
}

/// An event that tells of another action than the one that the call asked for changes
/// nothing.
pub proof fn law_stray_events_change_nothing(
    registry: ProviderModel,
    call: CallModel,
    event: EventModel,
)
    requires
        event is Counted ==> !(call.awaiting is CountCredentials),
        event is Excluded ==> !(call.awaiting is AskExcluded),
        event is Acquired ==> !(call.awaiting is Acquire),
        event is NotAcquired ==> !(call.awaiting is Acquire),
        event is ClientFailed ==> !(call.awaiting is Send),
        event is SendFailed ==> !(call.awaiting is Send),
        event is Responded ==> !(call.awaiting is Send),
        event is Body ==> !(call.awaiting is ReadBody),
        event is Reported ==> !(call.awaiting is ReportQuotaExhausted) && !(
        call.awaiting is ReportFailure),
        event is Refreshed ==> !(call.awaiting is ForceRefresh),
        event is CooldownSet ==> !(call.awaiting is SetCooldown),
        event is Slept ==> !(call.awaiting is Sleep),
    ensures
        step(registry, call, event) == call,
{
}

}
