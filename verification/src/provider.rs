//! The provider: its endpoints and its clients, what it reads in requests and responses,
//! how long it waits, and what it meters.

use vstd::prelude::*;

use crate::json;
use crate::json::{JsonModel, JsonValue, as_text};
use crate::numbers;
use crate::text;
use crate::text::{
    contains, joined, parse_unsigned, same, to_ascii_lowercase, to_ascii_uppercase, trim,
};

verus! {

/// The most times that a call is tried with one credential.
pub const MAX_RETRIES_PER_CREDENTIAL: usize = 3;

/// How often a call is tried in all, unless there are more credentials to try.
pub const MAX_TOTAL_RETRIES: usize = 64;

/// The shortest time, in seconds, for which a rate limit puts a credential aside.
pub const DEFAULT_RATE_LIMIT_COOLDOWN_SECS: u64 = 60;

/// The longest time, in seconds, for which a rate limit puts a credential aside.
pub const MAX_RATE_LIMIT_COOLDOWN_SECS: u64 = 300;

/// The registry of endpoints and of clients.
///
/// An endpoint is known by its place in the registry, a client by the proxy that it goes
/// through, or by none.
#[derive(Debug)]
pub struct KiroProvider {
    endpoints: Vec<String>,
    default_endpoint: String,
    clients: Vec<Option<String>>,
}

/// What a provider holds.
pub struct ProviderModel {
    pub endpoints: Seq<Seq<char>>,
    pub default_endpoint: Seq<char>,
    pub clients: Seq<Option<Seq<char>>>,
}

/// The characters of a list of texts.
pub open spec fn texts_view(texts: Seq<String>) -> Seq<Seq<char>> {
    texts.map_values(|text: String| text@)
}

/// The characters of a list of optional texts.
pub open spec fn proxies_view(proxies: Seq<Option<String>>) -> Seq<Option<Seq<char>>> {
    proxies.map_values(|proxy: Option<String>| text::optional_text(proxy))
}

impl View for KiroProvider {
    type V = ProviderModel;

    closed spec fn view(&self) -> ProviderModel {
        ProviderModel {
            endpoints: texts_view(self.endpoints@),
            default_endpoint: self.default_endpoint@,
            clients: proxies_view(self.clients@),
        }
    }
}

/// The name of the endpoint that a credential uses: its own, or the default.
pub open spec fn endpoint_name(provider: ProviderModel, endpoint: Option<Seq<char>>) -> Seq<char> {
    match endpoint {
        Some(name) => name,
        None => provider.default_endpoint,
    }
}

/// The first place of a name in a list.
pub open spec fn place_of(names: Seq<Seq<char>>, name: Seq<char>) -> Option<nat>
    decreases names.len(),
{
    if names.len() == 0 {
        None
    } else {
        match place_of(names.drop_last(), name) {
            Some(at) => Some(at),
            None => if names.last() == name {
                Some((names.len() - 1) as nat)
            } else {
                None
            },
        }
    }
}

/// A name has a place in a list where the list contains it, and that place holds it.
proof fn lemma_place(names: Seq<Seq<char>>, name: Seq<char>)
    ensures
        match place_of(names, name) {
            Some(at) => at < names.len() && names[at as int] == name,
            None => !names.contains(name),
        },
    decreases names.len(),
{
    if names.len() > 0 {
        let front = names.drop_last();
        lemma_place(front, name);
        if place_of(names, name) is None {
            assert forall|i: int| 0 <= i < names.len() implies names[i] != name by {
                if i < front.len() {
                    assert(front[i] == names[i]);
                    assert(front.contains(front[i]));
                }
            }
        }
    }
}

/// A place found in the first part of a list is the place in the whole list.
proof fn lemma_place_in_front(names: Seq<Seq<char>>, name: Seq<char>, n: int)
    requires
        0 <= n <= names.len(),
        place_of(names.take(n), name) is Some,
    ensures
        place_of(names, name) == place_of(names.take(n), name),
    decreases names.len(),
{
    if n == names.len() {
        assert(names.take(n) == names);
    } else {
        assert(names.drop_last().take(n) == names.take(n));
        lemma_place_in_front(names.drop_last(), name, n);
    }
}

/// Where the endpoint that a credential uses is registered.
pub open spec fn endpoint_place(provider: ProviderModel, endpoint: Option<Seq<char>>) -> Option<
    nat,
> {
    place_of(provider.endpoints, endpoint_name(provider, endpoint))
}

/// A credential that names no endpoint of its own always finds one.
pub proof fn law_default_endpoint_is_found(provider: KiroProvider)
    requires
        provider.valid(),
    ensures
        endpoint_place(provider@, None) is Some,
{
    lemma_place(provider@.endpoints, provider@.default_endpoint);
}

/// The complaint about an endpoint that is not registered.
pub open spec fn unknown_endpoint(name: Seq<char>) -> Seq<char> {
    "未知端点: "@ + name
}

impl KiroProvider {
    /// Whether the default endpoint is registered, and no proxy has two clients.
    pub open spec fn valid(&self) -> bool {
        &&& self@.endpoints.contains(self@.default_endpoint)
        &&& self@.clients.no_duplicates()
    }

    /// A provider with endpoints, one of which is the default, and a client for the global
    /// proxy.
    pub fn with_proxy(
        proxy: Option<String>,
        endpoints: Vec<String>,
        default_endpoint: String,
    ) -> (provider: KiroProvider)
        requires
            texts_view(endpoints@).contains(default_endpoint@),
        ensures
            provider.valid(),
            provider@ == (ProviderModel {
                endpoints: texts_view(endpoints@),
                default_endpoint: default_endpoint@,
                clients: seq![text::optional_text(proxy)],
            }),
    {
        let mut clients: Vec<Option<String>> = Vec::new();
        clients.push(proxy);
        let provider = KiroProvider { endpoints, default_endpoint, clients };
        proof {
            assert(provider@.clients =~= seq![text::optional_text(proxy)]);
        }
        provider
    }

    /// Finds the endpoint that a credential uses; an error where it is not registered.
    pub fn endpoint_for(&self, endpoint: Option<&str>) -> (found: Result<usize, String>)
        ensures
            match found {
                Ok(at) => {
                    &&& endpoint_place(self@, json::borrowed_text(endpoint)) == Some(at as nat)
                    &&& at < self@.endpoints.len()
                },
                Err(complaint) => {
                    &&& endpoint_place(self@, json::borrowed_text(endpoint)) is None
                    &&& complaint@ == unknown_endpoint(
                        endpoint_name(self@, json::borrowed_text(endpoint)),
                    )
                },
            },
    {
        let name: &str = match endpoint {
            Some(name) => name,
            None => self.default_endpoint.as_str(),
        };
        let ghost names = self@.endpoints;
        let mut i: usize = 0;
        proof {
            assert(names.take(0) == Seq::<Seq<char>>::empty());
        }
        while i < self.endpoints.len()
            invariant
                i <= self.endpoints.len(),
                names == self@.endpoints,
                name@ == endpoint_name(self@, json::borrowed_text(endpoint)),
                place_of(names.take(i as int), name@) is None,
            decreases self.endpoints.len() - i,
        {
            proof {
                assert(names[i as int] == self.endpoints@[i as int]@);
                assert(names.take(i + 1).drop_last() == names.take(i as int));
                assert(names.take(i + 1).last() == names[i as int]);
            }
            if same(self.endpoints[i].as_str(), name) {
                proof {
                    lemma_place_in_front(names, name@, i + 1);
                }
                return Ok(i);
            }
            i += 1;
        }
        proof {
            assert(names.take(i as int) == names);
        }
        Err(joined("未知端点: ", name))
    }

    /// Finds the client for a proxy, where there is one already.
    pub fn client_for(&self, proxy: Option<&str>) -> (found: Option<usize>)
        ensures
            match found {
                Some(at) => at < self@.clients.len() && self@.clients[at as int]
                    == json::borrowed_text(proxy),
                None => !self@.clients.contains(json::borrowed_text(proxy)),
            },
    {
        let mut i: usize = 0;
        while i < self.clients.len()
            invariant
                i <= self.clients.len(),
                forall|k: int|
                    0 <= k < i ==> #[trigger] self@.clients[k] != json::borrowed_text(proxy),
            decreases self.clients.len() - i,
        {
            proof {
                assert(self@.clients[i as int] == text::optional_text(self.clients@[i as int]));
            }
            let equal: bool = match (&self.clients[i], proxy) {
                (Some(known), Some(proxy)) => same(known.as_str(), proxy),
                (None, None) => true,
                _ => false,
            };
            if equal {
                return Some(i);
            }
            i += 1;
        }
        None
    }

    /// Keeps the client that was built for a proxy, and says where.
    pub fn keep_client(&mut self, proxy: Option<String>) -> (at: usize)
        requires
            old(self).valid(),
            !old(self)@.clients.contains(text::optional_text(proxy)),
        ensures
            final(self).valid(),
            at == old(self)@.clients.len(),
            final(self)@ == (ProviderModel {
                clients: old(self)@.clients.push(text::optional_text(proxy)),
                ..old(self)@
            }),
    {
        let ghost before = self@.clients;
        let at: usize = self.clients.len();
        self.clients.push(proxy);
        proof {
            assert(self@.clients =~= before.push(text::optional_text(proxy)));
            assert forall|i: int, j: int|
                0 <= i < self@.clients.len() && 0 <= j < self@.clients.len() && i
                    != j implies self@.clients[i] != self@.clients[j] by {
                if i < before.len() {
                    assert(before.contains(before[i]));
                }
                if j < before.len() {
                    assert(before.contains(before[j]));
                }
            }
        }
        at
    }
}

/// The most times that a call is tried: three times for each credential, within 64; but
/// once for each available credential in any case, and at least once.
pub open spec fn max_retries(total: int, available: int) -> int {
    let floor = numbers::larger(available, 1);
    numbers::smaller(
        numbers::larger(MAX_RETRIES_PER_CREDENTIAL * total, floor),
        numbers::larger(MAX_TOTAL_RETRIES as int, floor),
    )
}

/// The budget of a call is at least one try, and one for every available credential; and
/// no more than 64 tries, unless more credentials are available.
pub proof fn law_budget_covers_every_credential(total: int, available: int)
    requires
        0 <= total,
        0 <= available,
    ensures
        max_retries(total, available) >= 1,
        max_retries(total, available) >= available,
        max_retries(total, available) <= numbers::larger(MAX_TOTAL_RETRIES as int, available),
{
}

/// Where a request names its model.
pub open spec fn model_in(request: JsonModel) -> Option<Seq<char>> {
    match json::member(request, "conversationState"@) {
        Some(state) => match json::member(state, "currentMessage"@) {
            Some(message) => match json::member(message, "userInputMessage"@) {
                Some(input) => json::text_of(json::member(input, "modelId"@)),
                None => None,
            },
            None => None,
        },
        None => None,
    }
}

/// Where a request names its session.
pub open spec fn session_in(request: JsonModel) -> Option<Seq<char>> {
    match json::member(request, "conversationState"@) {
        Some(state) => json::text_of(json::member(state, "conversationId"@)),
        None => None,
    }
}

/// The model of a request; none where the request is no JSON document.
pub open spec fn request_model(request: Option<JsonModel>) -> Option<Seq<char>> {
    match request {
        Some(request) => model_in(request),
        None => None,
    }
}

/// The session of a request; none where the request is no JSON document.
pub open spec fn request_session(request: Option<JsonModel>) -> Option<Seq<char>> {
    match request {
        Some(request) => session_in(request),
        None => None,
    }
}

/// A text of its own.
fn owned(text: Option<&str>) -> (copy: Option<String>)
    ensures
        text::optional_text(copy) == json::borrowed_text(text),
{
    match text {
        Some(text) => Some(text.to_owned()),
        None => None,
    }
}

/// Reads the model that a request names.
pub fn model_of(request: &JsonValue) -> (model: Option<String>)
    ensures
        text::optional_text(model) == model_in(request@),
{
    match request.get("conversationState") {
        Some(state) => match state.get("currentMessage") {
            Some(message) => match message.get("userInputMessage") {
                Some(input) => owned(as_text(input.get("modelId"))),
                None => None,
            },
            None => None,
        },
        None => None,
    }
}

/// Reads the session that a request names.
pub fn session_of(request: &JsonValue) -> (session: Option<String>)
    ensures
        text::optional_text(session) == session_in(request@),
{
    match request.get("conversationState") {
        Some(state) => owned(as_text(state.get("conversationId"))),
        None => None,
    }
}

/// Whether a response says that the credential may not use the model.
pub open spec fn invalid_model(body: Seq<char>) -> bool {
    let lowered = text::ascii_lowered(body);
    text::holds(lowered, "invalid_model_id"@) || text::holds(lowered, "invalid model"@)
}

/// The time, in seconds, for which a rate limit puts a credential aside.
pub open spec fn clamped(secs: nat) -> nat {
    if secs < DEFAULT_RATE_LIMIT_COOLDOWN_SECS {
        DEFAULT_RATE_LIMIT_COOLDOWN_SECS as nat
    } else if secs > MAX_RATE_LIMIT_COOLDOWN_SECS {
        MAX_RATE_LIMIT_COOLDOWN_SECS as nat
    } else {
        secs
    }
}

/// The seconds that a `retry-after` header asks for, as far as they are granted; none
/// where the header is no number.
pub open spec fn retry_after(header: Option<Seq<char>>) -> Option<nat> {
    match header {
        Some(header) => match text::unsigned_number(text::trimmed(header), u64::MAX as nat) {
            Some(secs) => Some(clamped(secs)),
            None => None,
        },
        None => None,
    }
}

/// Whether a text speaks of a model without capacity.
pub open spec fn capacity_text(body: Seq<char>) -> bool {
    text::holds(text::ascii_uppered(body), "INSUFFICIENT_MODEL_CAPACITY"@)
}

/// Whether a reason is given, and speaks of a model without capacity.
pub open spec fn capacity_reason(reason: Option<Seq<char>>) -> bool {
    match reason {
        Some(reason) => capacity_text(reason),
        None => false,
    }
}

/// Whether a response says that the model is without capacity: in its text, or, where it
/// is a JSON document, in its reason or in that of its error.
pub open spec fn lacks_capacity(body: Seq<char>, parsed: Option<JsonModel>) -> bool {
    ||| capacity_text(body)
    ||| match parsed {
        Some(document) => {
            ||| capacity_reason(json::text_of(json::member(document, "reason"@)))
            ||| match json::member(document, "error"@) {
                Some(error) => capacity_reason(json::text_of(json::member(error, "reason"@))),
                None => false,
            }
        },
        None => false,
    }
}

/// For how many seconds a rate limit puts a credential aside: not at all where it is the
/// model that lacks capacity, else as the response asks, or for the shortest time.
pub open spec fn cooldown(
    body: Seq<char>,
    parsed: Option<JsonModel>,
    retry_after: Option<nat>,
) -> Option<nat> {
    if lacks_capacity(body, parsed) {
        None
    } else {
        match retry_after {
            Some(secs) => Some(clamped(secs)),
            None => Some(DEFAULT_RATE_LIMIT_COOLDOWN_SECS as nat),
        }
    }
}

/// A rate limit puts a credential aside for 60 to 300 seconds, or not at all; and not at
/// all only where the model lacks capacity.
pub proof fn law_cooldown_is_bounded(
    body: Seq<char>,
    parsed: Option<JsonModel>,
    retry_after: Option<nat>,
)
    ensures
        match cooldown(body, parsed, retry_after) {
            Some(secs) => DEFAULT_RATE_LIMIT_COOLDOWN_SECS <= secs <= MAX_RATE_LIMIT_COOLDOWN_SECS,
            None => lacks_capacity(body, parsed),
        },
{
}

/// How long, in milliseconds, a call waits before it is tried again, but for a random
/// part: 200 after the first try, twice as long after each further one, within 2000.
pub open spec fn backoff(attempt: nat) -> nat
    decreases attempt,
{
    if attempt == 0 {
        200
    } else if 2 * backoff((attempt - 1) as nat) >= 2000 {
        2000
    } else {
        2 * backoff((attempt - 1) as nat)
    }
}

/// The most that chance adds to a wait: a quarter.
pub open spec fn most_jitter(attempt: nat) -> nat {
    backoff(attempt) / 4
}

proof fn lemma_backoff(attempt: nat)
    ensures
        attempt >= 4 ==> backoff(attempt) == 2000,
        200 <= backoff(attempt) <= 2000,
    decreases attempt,
{
    if attempt > 0 {
        lemma_backoff((attempt - 1) as nat);
        if attempt == 4 {
            reveal_with_fuel(backoff, 5);
        }
    }
}

/// Waits grow from try to try, and are between 200 and 2500 milliseconds with what chance
/// adds.
pub proof fn law_waits_grow(attempt: nat)
    ensures
        200 <= backoff(attempt) <= backoff(attempt + 1),
        backoff(attempt) + most_jitter(attempt) <= 2500,
{
    lemma_backoff(attempt);
    lemma_backoff(attempt + 1);
}

/// Calls `fastrand::u64` on the range from 0 to `most`, which picks a number from that
/// range; the range is never empty. Which number is left to chance.
#[verifier::external_body]
fn random_up_to(most: u64) -> (n: u64)
    ensures
        n <= most,
{
    fastrand::u64(0..=most)
}

/// The seconds of an optional time.
pub open spec fn optional_secs(secs: Option<u64>) -> Option<nat> {
    match secs {
        Some(secs) => Some(secs as nat),
        None => None,
    }
}

/// Whether a text speaks of a model without capacity.
fn speaks_of_capacity(text: &str) -> (b: bool)
    ensures
        b == capacity_text(text@),
{
    contains(to_ascii_uppercase(text).as_str(), "INSUFFICIENT_MODEL_CAPACITY")
}

/// Whether a reason is given, and speaks of a model without capacity.
fn reason_speaks_of_capacity(reason: Option<&str>) -> (b: bool)
    ensures
        b == capacity_reason(json::borrowed_text(reason)),
{
    match reason {
        Some(reason) => speaks_of_capacity(reason),
        None => false,
    }
}

impl KiroProvider {
    /// How often a call is tried.
    pub fn compute_max_retries(total_credentials: usize, available: usize) -> (n: usize)
        ensures
            n == max_retries(total_credentials as int, available as int),
    {
        let floor: usize = if available >= 1 {
            available
        } else {
            1
        };
        let most: usize = if MAX_TOTAL_RETRIES >= floor {
            MAX_TOTAL_RETRIES
        } else {
            floor
        };
        if total_credentials > most / MAX_RETRIES_PER_CREDENTIAL {
            return most;
        }
        let budget: usize = total_credentials * MAX_RETRIES_PER_CREDENTIAL;
        if budget >= floor {
            budget
        } else {
            floor
        }
    }

    /// Reads the model that a request names.
    pub fn extract_model_from_request(request_body: &str) -> (model: Option<String>)
        ensures
            text::optional_text(model) == request_model(json::parsed_json(request_body@)),
    {
        match JsonValue::parse(request_body) {
            Some(request) => model_of(&request),
            None => None,
        }
    }

    /// Reads the session that a request names.
    pub fn extract_session_id_from_request(request_body: &str) -> (session: Option<String>)
        ensures
            text::optional_text(session) == request_session(json::parsed_json(request_body@)),
    {
        match JsonValue::parse(request_body) {
            Some(request) => session_of(&request),
            None => None,
        }
    }

    /// Whether a response says that the credential may not use the model.
    pub fn is_invalid_model_id(body: &str) -> (b: bool)
        ensures
            b == invalid_model(body@),
    {
        let lowered: String = to_ascii_lowercase(body);
        contains(lowered.as_str(), "invalid_model_id") || contains(lowered.as_str(), "invalid model")
    }

    /// Reads the seconds that a `retry-after` header asks for, as far as they are granted.
    pub fn parse_retry_after(header: Option<&str>) -> (secs: Option<u64>)
        ensures
            optional_secs(secs) == retry_after(json::borrowed_text(header)),
    {
        match header {
            Some(header) => match parse_unsigned(trim(header), u64::MAX) {
                Some(secs) => Some(Self::clamp_rate_limit_cooldown(secs)),
                None => None,
            },
            None => None,
        }
    }

    /// Brings a time, in seconds, within the limits of a cooldown.
    pub fn clamp_rate_limit_cooldown(secs: u64) -> (granted: u64)
        ensures
            granted == clamped(secs as nat),
    {
        if secs < DEFAULT_RATE_LIMIT_COOLDOWN_SECS {
            DEFAULT_RATE_LIMIT_COOLDOWN_SECS
        } else if secs > MAX_RATE_LIMIT_COOLDOWN_SECS {
            MAX_RATE_LIMIT_COOLDOWN_SECS
        } else {
            secs
        }
    }

    /// For how many seconds a rate limit puts a credential aside, given what the response
    /// holds as a JSON document.
    pub fn cooldown_for(
        body: &str,
        parsed: Option<&JsonValue>,
        retry_after: Option<u64>,
    ) -> (secs: Option<u64>)
        ensures
            optional_secs(secs) == cooldown(
                body@,
                json::borrowed_model(parsed),
                optional_secs(retry_after),
            ),
    {
        if Self::lacks_model_capacity(body, parsed) {
            return None;
        }
        match retry_after {
            Some(secs) => Some(Self::clamp_rate_limit_cooldown(secs)),
            None => Some(DEFAULT_RATE_LIMIT_COOLDOWN_SECS),
        }
    }

    /// For how many seconds a rate limit puts a credential aside.
    pub fn classify_429_cooldown(body: &str, retry_after: Option<u64>) -> (secs: Option<u64>)
        ensures
            optional_secs(secs) == cooldown(
                body@,
                json::parsed_json(body@),
                optional_secs(retry_after),
            ),
    {
        let parsed: Option<JsonValue> = JsonValue::parse(body);
        Self::cooldown_for(body, parsed.as_ref(), retry_after)
    }

    /// Whether a response says that the model is without capacity, given what the response
    /// holds as a JSON document.
    pub fn lacks_model_capacity(body: &str, parsed: Option<&JsonValue>) -> (b: bool)
        ensures
            b == lacks_capacity(body@, json::borrowed_model(parsed)),
    {
        if speaks_of_capacity(body) {
            return true;
        }
        match parsed {
            Some(document) => {
                if reason_speaks_of_capacity(as_text(document.get("reason"))) {
                    return true;
                }
                match document.get("error") {
                    Some(error) => reason_speaks_of_capacity(as_text(error.get("reason"))),
                    None => false,
                }
            },
            None => false,
        }
    }

    /// Whether a response says that the model is without capacity.
    pub fn is_insufficient_model_capacity(body: &str) -> (b: bool)
        ensures
            b == lacks_capacity(body@, json::parsed_json(body@)),
    {
        let parsed: Option<JsonValue> = JsonValue::parse(body);
        Self::lacks_model_capacity(body, parsed.as_ref())
    }

    /// How long a call waits before it is tried again, but for a random part.
    pub fn backoff_for(attempt: usize) -> (millis: u64)
        ensures
            millis == backoff(attempt as nat),
    {
        proof {
            lemma_backoff(attempt as nat);
            reveal_with_fuel(backoff, 5);
        }
        if attempt == 0 {
            200
        } else if attempt == 1 {
            400
        } else if attempt == 2 {
            800
        } else if attempt == 3 {
            1600
        } else {
            2000
        }
    }

    /// How long a call waits before it is tried again, in milliseconds, given what chance
    /// adds.
    pub fn delay_with_jitter(attempt: usize, jitter: u64) -> (millis: u64)
        ensures
            millis == numbers::smaller(backoff(attempt as nat) + jitter, u64::MAX as int),
    {
        proof {
            lemma_backoff(attempt as nat);
        }
        let wait: u64 = Self::backoff_for(attempt);
        if jitter > u64::MAX - wait {
            u64::MAX
        } else {
            wait + jitter
        }
    }

    /// How long a call waits before it is tried again, in milliseconds: the backoff, and up
    /// to a quarter of it by chance.
    pub fn retry_delay(attempt: usize) -> (millis: u64)
        ensures
            backoff(attempt as nat) <= millis <= backoff(attempt as nat) + most_jitter(
                attempt as nat,
            ),
    {
        proof {
            lemma_backoff(attempt as nat);
        }
        let jitter: u64 = random_up_to(Self::backoff_for(attempt) / 4);
        Self::delay_with_jitter(attempt, jitter)
    }
}

/// The endpoint of a credential is the one that it names, or the default one where it names
/// none, and is found at the first place where that name is registered; it is not found
/// only where the name is registered nowhere.
pub proof fn law_endpoints_are_found_in_order(provider: ProviderModel, endpoint: Option<Seq<char>>)
    ensures
        ({
            let name = if endpoint is Some {
                endpoint->0
            } else {
                provider.default_endpoint
            };
            &&& endpoint_name(provider, endpoint) == name
            &&& unknown_endpoint(name) == "未知端点: "@ + name
            &&& endpoint_place(provider, endpoint) is None <==> !provider.endpoints.contains(name)
            &&& forall|at: int|
                0 <= at < provider.endpoints.len() && #[trigger] provider.endpoints[at] == name && (
                forall|k: int| 0 <= k < at ==> #[trigger] provider.endpoints[k] != name)
                    ==> endpoint_place(provider, endpoint) == Some(at as nat)
        }),
{
    let name = endpoint_name(provider, endpoint);
    let names = provider.endpoints;
    lemma_place(names, name);
    lemma_first_place(names, name);
    if let Some(at) = place_of(names, name) {
        assert(names.contains(names[at as int]));
    }
    assert forall|at: int|
        0 <= at < names.len() && #[trigger] names[at] == name && (forall|k: int|
            0 <= k < at ==> #[trigger] names[k] != name) implies place_of(names, name) == Some(
        at as nat,
    ) by {
        assert(names.contains(names[at]));
        let found = place_of(names, name)->0 as int;
        if found < at {
            assert(names[found] == name);
        }
    }
}

/// No earlier place holds the name.
proof fn lemma_first_place(names: Seq<Seq<char>>, name: Seq<char>)
    ensures
        place_of(names, name) is Some ==> forall|k: int|
            0 <= k < place_of(names, name)->0 ==> #[trigger] names[k] != name,
    decreases names.len(),
{
    if names.len() > 0 {
        let front = names.drop_last();
        lemma_first_place(front, name);
        lemma_place(front, name);
        if place_of(names, name) is Some {
            assert forall|k: int| 0 <= k < place_of(names, name)->0 implies #[trigger] names[k]
                != name by {
                assert(front[k] == names[k]);
                assert(front.contains(front[k]));
            }
        }
    }
}

/// Whether part of a text is another text.
pub open spec fn has_part(text: Seq<char>, part: Seq<char>) -> bool {
    exists|at: int|
        0 <= at <= text.len() - part.len() && #[trigger] text.subrange(at, at + part.len()) == part
}

/// A response says that a credential may not use the model where it has `invalid_model_id`
/// or `invalid model` in it, in whatever case.
pub proof fn law_invalid_models_are_recognised(body: Seq<char>)
    ensures
        ({
            let lowered = text::ascii_lowered(body);
            invalid_model(body) <==> has_part(lowered, "invalid_model_id"@) || has_part(
                lowered,
                "invalid model"@,
            )
        }),
{
    text::law_searching_is_exact(text::ascii_lowered(body), "invalid_model_id"@);
    text::law_searching_is_exact(text::ascii_lowered(body), "invalid model"@);
}

/// A response says that the model lacks capacity where its text, or as a JSON object its
/// `reason` or the `reason` of its `error`, has `INSUFFICIENT_MODEL_CAPACITY` in it, in
/// whatever case.
pub proof fn law_lack_of_capacity_is_recognised(body: Seq<char>, parsed: Option<JsonModel>)
    ensures
        ({
            let mark = "INSUFFICIENT_MODEL_CAPACITY"@;
            let at_top = exists|reason: Seq<char>|
                parsed is Some && parsed->0 is Object && parsed->0->Object_0.contains_key("reason"@)
                    && parsed->0->Object_0["reason"@] == JsonModel::Text(reason)
                    && #[trigger] has_part(text::ascii_uppered(reason), mark);
            let in_error = exists|reason: Seq<char>|
                parsed is Some && parsed->0 is Object && parsed->0->Object_0.contains_key("error"@)
                    && parsed->0->Object_0["error"@] is Object
                    && parsed->0->Object_0["error"@]->Object_0.contains_key("reason"@)
                    && parsed->0->Object_0["error"@]->Object_0["reason"@] == JsonModel::Text(reason)
                    && #[trigger] has_part(text::ascii_uppered(reason), mark);
            lacks_capacity(body, parsed) <==> has_part(text::ascii_uppered(body), mark) || at_top
                || in_error
        }),
{
    let mark = "INSUFFICIENT_MODEL_CAPACITY"@;
    assert forall|some: Seq<char>| #[trigger] capacity_text(some) <==> has_part(
        text::ascii_uppered(some),
        mark,
    ) by {
        text::law_searching_is_exact(text::ascii_uppered(some), mark);
    }
    assert(capacity_text(body) <==> has_part(text::ascii_uppered(body), mark));
    if let Some(document) = parsed {
        if let Some(reason) = json::text_of(json::member(document, "reason"@)) {
            assert(capacity_text(reason) <==> has_part(text::ascii_uppered(reason), mark));
        }
        if let Some(error) = json::member(document, "error"@) {
            if let Some(reason) = json::text_of(json::member(error, "reason"@)) {
                assert(capacity_text(reason) <==> has_part(text::ascii_uppered(reason), mark));
            }
        }
    }
}

/// The seconds that are granted are those asked for, or the nearest of 60 and 300 where
/// fewer than 60 or more than 300 are asked for. A header counts where, without the white
/// space around it, it is an unsigned number that 64 bits hold.
pub proof fn law_waiting_times_are_granted(header: Seq<char>, secs: nat)
    ensures
        60 <= secs <= 300 ==> clamped(secs) == secs,
        secs < 60 ==> clamped(secs) == 60,
        secs > 300 ==> clamped(secs) == 300,
        retry_after(None) is None,
        ({
            let asked = text::unsigned_number(text::trimmed(header), 0xffff_ffff_ffff_ffff);
            &&& asked is Some ==> retry_after(Some(header)) == Some(clamped(asked->0))
            &&& asked is None ==> retry_after(Some(header)) is None
        }),
{
}

/// A credential is put aside for as long as is granted, for 60 seconds where nothing is
/// asked for, and not at all exactly where the model lacks capacity.
pub proof fn law_cooldowns_are_exact(
    body: Seq<char>,
    parsed: Option<JsonModel>,
    retry_after: Option<nat>,
)
    ensures
        cooldown(body, parsed, retry_after) is None <==> lacks_capacity(body, parsed),
        !lacks_capacity(body, parsed) && retry_after is Some ==> cooldown(body, parsed, retry_after)
            == Some(clamped(retry_after->0)),
        !lacks_capacity(body, parsed) && retry_after is None ==> cooldown(body, parsed, retry_after)
            == Some(60nat),
{
}

/// The first wait is 200 milliseconds, and each further one is twice the one before, but
/// never more than 2000; chance adds a quarter at most, rounded down.
pub proof fn law_waits_double(attempt: nat)
    ensures
        backoff(0) == 200,
        backoff(attempt) <= 1000 ==> backoff(attempt + 1) == 2 * backoff(attempt),
        backoff(attempt) > 1000 ==> backoff(attempt + 1) == 2000,
        4 * most_jitter(attempt) <= backoff(attempt) < 4 * (most_jitter(attempt) + 1),
{
}

/// A call is tried three times for each credential, brought within bounds: at least once and
/// once for each available credential, at most 64 times, or once for each available
/// credential where they are more.
pub proof fn law_budgets_are_exact(total: int, available: int)
    requires
        total >= 0,
        available >= 0,
    ensures
        ({
            let n = max_retries(total, available);
            &&& n >= 1 && n >= available
            &&& n <= 64 || n == available
            &&& n == 3 * total || (n > 3 * total && (n == 1 || n == available)) || (n < 3 * total
                && (n == 64 || n == available) && n >= 64)
        }),
{
}

/// A request names its model under `conversationState`, `currentMessage`,
/// `userInputMessage` and `modelId`, and its session under `conversationState` and
/// `conversationId`, as texts; in no other way.
pub proof fn law_requests_name_model_and_session(request: JsonModel, name: Seq<char>)
    ensures
        session_in(request) == Some(name) <==> json::member(request, "conversationState"@) is Some
            && json::member(
            json::member(request, "conversationState"@)->0,
            "conversationId"@,
        ) == Some(JsonModel::Text(name)),
        model_in(request) == Some(name) <==> {
            let state = json::member(request, "conversationState"@);
            let message = json::member(state->0, "currentMessage"@);
            let input = json::member(message->0, "userInputMessage"@);
            &&& state is Some
            &&& message is Some
            &&& input is Some
            &&& json::member(input->0, "modelId"@) == Some(JsonModel::Text(name))
        },
        request_model(None) is None,
        request_session(None) is None,
        request_model(Some(request)) == model_in(request),
        request_session(Some(request)) == session_in(request),
{
}

/// Lists of names and of proxies are seen as they are, each at its place; so are optional
/// seconds.
pub proof fn law_registries_are_seen_whole(
    texts: Seq<String>,
    proxies: Seq<Option<String>>,
    secs: u64,
)
    ensures
        texts_view(texts).len() == texts.len(),
        forall|i: int| 0 <= i < texts.len() ==> #[trigger] texts_view(texts)[i] == texts[i]@,
        proxies_view(proxies).len() == proxies.len(),
        forall|i: int|
            0 <= i < proxies.len() ==> match proxies[i] {
                Some(proxy) => #[trigger] proxies_view(proxies)[i] == Some(proxy@),
                None => proxies_view(proxies)[i] is None,
            },
        optional_secs(Some(secs)) == Some(secs as nat),
        optional_secs(None) is None,
{
}

}
