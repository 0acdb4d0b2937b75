//! The errors of the admin service, and how they are answered.

use vstd::prelude::*;

use crate::text;
use crate::text::{joined, write_decimal};

verus! {

/// Why a token could not be refreshed, in words.
#[derive(Debug)]
pub struct RefreshError {
    pub message: String,
}

/// Why the configuration could not be stored, in words.
#[derive(Debug)]
pub struct ConfigError {
    pub message: String,
}

/// What can go wrong in the pool of credentials.
#[derive(Debug)]
pub enum AdminPoolError {
    NotFound(u64),
    DuplicateRefreshToken,
    DuplicateApiKey,
    TruncatedRefreshToken(usize),
    EmptyRefreshToken,
    EmptyApiKey,
    MissingRefreshToken,
    MissingApiKey,
    NotDisabled(u64),
    ApiKeyNotRefreshable,
    Refresh(RefreshError),
    UpstreamHttp { status: u16, body: String },
    Network(String),
    Config(ConfigError),
    DisabledByInvalidConfig(u64),
}

/// What can go wrong in the admin service.
#[derive(Debug)]
pub enum AdminServiceError {
    /// There is no such credential.
    NotFound { id: u64 },
    /// The upstream could not be reached.
    UpstreamError(String),
    /// A token could not be refreshed.
    RefreshError(RefreshError),
    /// The upstream answered with a status that is no success.
    UpstreamHttp { status: u16, body: String },
    /// The service is in a state that it should not be in.
    InternalError(String),
    /// The configuration could not be stored.
    ConfigError(ConfigError),
    /// A credential is disabled since its configuration is invalid.
    DisabledByInvalidConfig(u64),
    /// There is a credential with the same refresh token.
    DuplicateRefreshToken,
    /// There is a credential with the same API key.
    DuplicateApiKey,
    /// A refresh token was cut off; this is its length.
    TruncatedRefreshToken(usize),
    /// A refresh token is empty.
    EmptyRefreshToken,
    /// A refresh token is missing.
    MissingRefreshToken,
    /// An API key is empty.
    EmptyApiKey,
    /// An API key is missing.
    MissingApiKey,
    /// A credential must be disabled before it is removed.
    NotDisabled(u64),
    /// A credential with an API key has no token to refresh.
    ApiKeyNotRefreshable,
    /// A request has invalid parameters.
    InvalidRequest(String),
}

/// The answer to a request that failed.
#[derive(Debug)]
pub struct AdminErrorResponse {
    /// The kind of the error, which callers can rely on.
    pub error_type: String,
    /// The error in words.
    pub message: String,
}

impl AdminErrorResponse {
    /// An answer of a kind and in words.
    pub fn new(error_type: &str, message: String) -> (response: AdminErrorResponse)
        ensures
            response.error_type@ == error_type@,
            response.message == message,
    {
        AdminErrorResponse { error_type: error_type.to_owned(), message }
    }
}

/// A text between two others.
fn around(before: &str, middle: &str, after: &str) -> (text: String)
    ensures
        text@ == before@ + middle@ + after@,
{
    let text: String = joined(before, middle);
    joined(text.as_str(), after)
}

/// An error in words.
pub open spec fn message_of(error: AdminServiceError) -> Seq<char> {
    match error {
        AdminServiceError::NotFound { id } => "凭据不存在: "@ + text::decimal(id as nat),
        AdminServiceError::UpstreamError(message) => "上游服务错误: "@ + message@,
        AdminServiceError::RefreshError(error) => "Token 刷新失败: "@ + error.message@,
        AdminServiceError::UpstreamHttp { status, body } => {
            "上游 HTTP "@ + text::decimal(status as nat) + ": "@ + body@
        },
        AdminServiceError::InternalError(message) => "内部错误: "@ + message@,
        AdminServiceError::ConfigError(error) => "配置持久化失败: "@ + error.message@,
        AdminServiceError::DisabledByInvalidConfig(id) => {
            "凭据 #"@ + text::decimal(id as nat) + " 因配置无效被禁用，请修正配置后重启服务"@
        },
        AdminServiceError::DuplicateRefreshToken => "凭据已存在（refreshToken 重复）"@,
        AdminServiceError::DuplicateApiKey => "凭据已存在（kiroApiKey 重复）"@,
        AdminServiceError::TruncatedRefreshToken(length) => {
            "refreshToken 已被截断（长度: "@ + text::decimal(length as nat)
                + " 字符）。这通常是 Kiro IDE 为了防止凭证被第三方工具使用而故意截断的。"@
        },
        AdminServiceError::EmptyRefreshToken => "refreshToken 为空"@,
        AdminServiceError::MissingRefreshToken => "缺少 refreshToken"@,
        AdminServiceError::EmptyApiKey => "kiroApiKey 为空"@,
        AdminServiceError::MissingApiKey => "缺少 kiroApiKey"@,
        AdminServiceError::NotDisabled(id) => {
            "只能删除已禁用的凭据（请先禁用凭据 #"@ + text::decimal(id as nat) + "）"@
        },
        AdminServiceError::ApiKeyNotRefreshable => "API Key 凭据不支持刷新 Token"@,
        AdminServiceError::InvalidRequest(message) => "请求无效: "@ + message@,
    }
}

/// The kind of an error, which callers can rely on.
pub open spec fn type_of(error: AdminServiceError) -> Seq<char> {
    match error {
        AdminServiceError::NotFound { .. } => "not_found"@,
        AdminServiceError::UpstreamError(_) => "upstream_error"@,
        AdminServiceError::RefreshError(_) => "refresh_error"@,
        AdminServiceError::UpstreamHttp { .. } => "upstream_http_error"@,
        AdminServiceError::InternalError(_) => "internal_error"@,
        AdminServiceError::ConfigError(_) => "config_error"@,
        AdminServiceError::DisabledByInvalidConfig(_) => "disabled_by_invalid_config"@,
        AdminServiceError::DuplicateRefreshToken => "duplicate_refresh_token"@,
        AdminServiceError::DuplicateApiKey => "duplicate_api_key"@,
        AdminServiceError::TruncatedRefreshToken(_) => "truncated_refresh_token"@,
        AdminServiceError::EmptyRefreshToken => "empty_refresh_token"@,
        AdminServiceError::MissingRefreshToken => "missing_refresh_token"@,
        AdminServiceError::EmptyApiKey => "empty_api_key"@,
        AdminServiceError::MissingApiKey => "missing_api_key"@,
        AdminServiceError::NotDisabled(_) => "not_disabled"@,
        AdminServiceError::ApiKeyNotRefreshable => "api_key_not_refreshable"@,
        AdminServiceError::InvalidRequest(_) => "invalid_request"@,
    }
}

/// The HTTP status for an error.
pub open spec fn status_of(error: AdminServiceError) -> u16 {
    match error {
        AdminServiceError::NotFound { .. } => 404,
        AdminServiceError::UpstreamError(_)
        | AdminServiceError::RefreshError(_)
        | AdminServiceError::UpstreamHttp { .. } => 502,
        AdminServiceError::InternalError(_)
        | AdminServiceError::ConfigError(_)
        | AdminServiceError::DisabledByInvalidConfig(_) => 500,
        _ => 400,
    }
}

impl AdminServiceError {
    /// The error in words.
    pub fn message(&self) -> (message: String)
        ensures
            message@ == message_of(*self),
    {
        match self {
            AdminServiceError::NotFound { id } => joined("凭据不存在: ", write_decimal(*id as u64).as_str()),
            AdminServiceError::UpstreamError(message) => joined("上游服务错误: ", message.as_str()),
            AdminServiceError::RefreshError(error) => joined("Token 刷新失败: ", error.message.as_str()),
            AdminServiceError::UpstreamHttp { status, body } => {
                let status: String = write_decimal(*status as u64);
                joined(around("上游 HTTP ", status.as_str(), ": ").as_str(), body.as_str())
            },
            AdminServiceError::InternalError(message) => joined("内部错误: ", message.as_str()),
            AdminServiceError::ConfigError(error) => joined("配置持久化失败: ", error.message.as_str()),
            AdminServiceError::DisabledByInvalidConfig(id) => {
                let id: String = write_decimal(*id as u64);
                around("凭据 #", id.as_str(), " 因配置无效被禁用，请修正配置后重启服务")
            },
            AdminServiceError::DuplicateRefreshToken => "凭据已存在（refreshToken 重复）".to_owned(),
            AdminServiceError::DuplicateApiKey => "凭据已存在（kiroApiKey 重复）".to_owned(),
            AdminServiceError::TruncatedRefreshToken(length) => {
                let length: String = write_decimal(*length as u64);
                around("refreshToken 已被截断（长度: ", length.as_str(), " 字符）。这通常是 Kiro IDE 为了防止凭证被第三方工具使用而故意截断的。")
            },
            AdminServiceError::EmptyRefreshToken => "refreshToken 为空".to_owned(),
            AdminServiceError::MissingRefreshToken => "缺少 refreshToken".to_owned(),
            AdminServiceError::EmptyApiKey => "kiroApiKey 为空".to_owned(),
            AdminServiceError::MissingApiKey => "缺少 kiroApiKey".to_owned(),
            AdminServiceError::NotDisabled(id) => {
                let id: String = write_decimal(*id as u64);
                around("只能删除已禁用的凭据（请先禁用凭据 #", id.as_str(), "）")
            },
            AdminServiceError::ApiKeyNotRefreshable => "API Key 凭据不支持刷新 Token".to_owned(),
            AdminServiceError::InvalidRequest(message) => joined("请求无效: ", message.as_str()),
        }
    }

    /// The HTTP status for the error.
    pub fn status_code(&self) -> (status: u16)
        ensures
            status == status_of(*self),
    {
        match self {
            AdminServiceError::NotFound { .. } => 404,
            AdminServiceError::UpstreamError(_)
            | AdminServiceError::RefreshError(_)
            | AdminServiceError::UpstreamHttp { .. } => 502,
            AdminServiceError::InternalError(_)
            | AdminServiceError::ConfigError(_)
            | AdminServiceError::DisabledByInvalidConfig(_) => 500,
            AdminServiceError::DuplicateRefreshToken
            | AdminServiceError::DuplicateApiKey
            | AdminServiceError::TruncatedRefreshToken(_)
            | AdminServiceError::EmptyRefreshToken
            | AdminServiceError::MissingRefreshToken
            | AdminServiceError::EmptyApiKey
            | AdminServiceError::MissingApiKey
            | AdminServiceError::NotDisabled(_)
            | AdminServiceError::ApiKeyNotRefreshable
            | AdminServiceError::InvalidRequest(_) => 400,
        }
    }

    /// The kind of the error, which callers can rely on.
    fn error_type(&self) -> (name: &'static str)
        ensures
            name@ == type_of(*self),
    {
        match self {
            AdminServiceError::NotFound { .. } => "not_found",
            AdminServiceError::UpstreamError(_) => "upstream_error",
            AdminServiceError::RefreshError(_) => "refresh_error",
            AdminServiceError::UpstreamHttp { .. } => "upstream_http_error",
            AdminServiceError::InternalError(_) => "internal_error",
            AdminServiceError::ConfigError(_) => "config_error",
            AdminServiceError::DisabledByInvalidConfig(_) => "disabled_by_invalid_config",
            AdminServiceError::DuplicateRefreshToken => "duplicate_refresh_token",
            AdminServiceError::DuplicateApiKey => "duplicate_api_key",
            AdminServiceError::TruncatedRefreshToken(_) => "truncated_refresh_token",
            AdminServiceError::EmptyRefreshToken => "empty_refresh_token",
            AdminServiceError::MissingRefreshToken => "missing_refresh_token",
            AdminServiceError::EmptyApiKey => "empty_api_key",
            AdminServiceError::MissingApiKey => "missing_api_key",
            AdminServiceError::NotDisabled(_) => "not_disabled",
            AdminServiceError::ApiKeyNotRefreshable => "api_key_not_refreshable",
            AdminServiceError::InvalidRequest(_) => "invalid_request",
        }
    }

    /// The answer for the error.
    pub fn into_response(self) -> (response: AdminErrorResponse)
        ensures
            response.error_type@ == type_of(self),
            response.message@ == message_of(self),
    {
        let message: String = self.message();
        AdminErrorResponse::new(self.error_type(), message)
    }
}

/// The error of the service that an error of the pool is.
pub open spec fn service_error(error: AdminPoolError) -> AdminServiceError {
    match error {
        AdminPoolError::NotFound(id) => AdminServiceError::NotFound { id },
        AdminPoolError::DuplicateRefreshToken => AdminServiceError::DuplicateRefreshToken,
        AdminPoolError::DuplicateApiKey => AdminServiceError::DuplicateApiKey,
        AdminPoolError::TruncatedRefreshToken(length) => {
            AdminServiceError::TruncatedRefreshToken(length)
        },
        AdminPoolError::EmptyRefreshToken => AdminServiceError::EmptyRefreshToken,
        AdminPoolError::EmptyApiKey => AdminServiceError::EmptyApiKey,
        AdminPoolError::MissingRefreshToken => AdminServiceError::MissingRefreshToken,
        AdminPoolError::MissingApiKey => AdminServiceError::MissingApiKey,
        AdminPoolError::NotDisabled(id) => AdminServiceError::NotDisabled(id),
        AdminPoolError::ApiKeyNotRefreshable => AdminServiceError::ApiKeyNotRefreshable,
        AdminPoolError::Refresh(error) => AdminServiceError::RefreshError(error),
        AdminPoolError::UpstreamHttp { status, body } => {
            AdminServiceError::UpstreamHttp { status, body }
        },
        AdminPoolError::Network(message) => AdminServiceError::UpstreamError(message),
        AdminPoolError::Config(error) => AdminServiceError::ConfigError(error),
        AdminPoolError::DisabledByInvalidConfig(id) => {
            AdminServiceError::DisabledByInvalidConfig(id)
        },
    }
}

impl vstd::std_specs::convert::FromSpecImpl<AdminPoolError> for AdminServiceError {
    open spec fn obeys_from_spec() -> bool {
        true
    }

    open spec fn from_spec(error: AdminPoolError) -> AdminServiceError {
        service_error(error)
    }
}

impl From<AdminPoolError> for AdminServiceError {
    /// Each error of the pool is one error of the service.
    fn from(error: AdminPoolError) -> (service: AdminServiceError) {
        match error {
            AdminPoolError::NotFound(id) => AdminServiceError::NotFound { id },
            AdminPoolError::DuplicateRefreshToken => AdminServiceError::DuplicateRefreshToken,
            AdminPoolError::DuplicateApiKey => AdminServiceError::DuplicateApiKey,
            AdminPoolError::TruncatedRefreshToken(length) => {
                AdminServiceError::TruncatedRefreshToken(length)
            },
            AdminPoolError::EmptyRefreshToken => AdminServiceError::EmptyRefreshToken,
            AdminPoolError::EmptyApiKey => AdminServiceError::EmptyApiKey,
            AdminPoolError::MissingRefreshToken => AdminServiceError::MissingRefreshToken,
            AdminPoolError::MissingApiKey => AdminServiceError::MissingApiKey,
            AdminPoolError::NotDisabled(id) => AdminServiceError::NotDisabled(id),
            AdminPoolError::ApiKeyNotRefreshable => AdminServiceError::ApiKeyNotRefreshable,
            AdminPoolError::Refresh(error) => AdminServiceError::RefreshError(error),
            AdminPoolError::UpstreamHttp { status, body } => {
                AdminServiceError::UpstreamHttp { status, body }
            },
            AdminPoolError::Network(message) => AdminServiceError::UpstreamError(message),
            AdminPoolError::Config(error) => AdminServiceError::ConfigError(error),
            AdminPoolError::DisabledByInvalidConfig(id) => {
                AdminServiceError::DisabledByInvalidConfig(id)
            },
        }
    }
}

/// Which error of the service an error is, by its place in the list.
pub open spec fn variant_of(error: AdminServiceError) -> nat {
    match error {
        AdminServiceError::NotFound { .. } => 0,
        AdminServiceError::UpstreamError(_) => 1,
        AdminServiceError::RefreshError(_) => 2,
        AdminServiceError::UpstreamHttp { .. } => 3,
        AdminServiceError::InternalError(_) => 4,
        AdminServiceError::ConfigError(_) => 5,
        AdminServiceError::DisabledByInvalidConfig(_) => 6,
        AdminServiceError::DuplicateRefreshToken => 7,
        AdminServiceError::DuplicateApiKey => 8,
        AdminServiceError::TruncatedRefreshToken(_) => 9,
        AdminServiceError::EmptyRefreshToken => 10,
        AdminServiceError::MissingRefreshToken => 11,
        AdminServiceError::EmptyApiKey => 12,
        AdminServiceError::MissingApiKey => 13,
        AdminServiceError::NotDisabled(_) => 14,
        AdminServiceError::ApiKeyNotRefreshable => 15,
        AdminServiceError::InvalidRequest(_) => 16,
    }
}

/// Errors of the pool stay apart: two that become the same error of the service are the
/// same.
pub proof fn law_pool_errors_stay_apart(a: AdminPoolError, b: AdminPoolError)
    requires
        service_error(a) == service_error(b),
    ensures
        a == b,
{
}

/// An error that is the caller's is answered as one, and one that is not, is not: the
/// status is from 400 to 499 for a credential that is not there or a request that cannot
/// be met, else from 500 to 599.
pub proof fn law_status_tells_whose_fault(error: AdminServiceError)
    ensures
        400 <= status_of(error) < 600,
        status_of(error) >= 500 <==> (error is UpstreamError || error is RefreshError
            || error is UpstreamHttp || error is InternalError || error is ConfigError
            || error is DisabledByInvalidConfig),
{
}

/// The length and the first letter of the kind of an error.
spec fn mark_of(error: AdminServiceError) -> (nat, char) {
    match error {
        AdminServiceError::NotFound { .. } => (9, 'n'),
        AdminServiceError::UpstreamError(_) => (14, 'u'),
        AdminServiceError::RefreshError(_) => (13, 'r'),
        AdminServiceError::UpstreamHttp { .. } => (19, 'u'),
        AdminServiceError::InternalError(_) => (14, 'i'),
        AdminServiceError::ConfigError(_) => (12, 'c'),
        AdminServiceError::DisabledByInvalidConfig(_) => (26, 'd'),
        AdminServiceError::DuplicateRefreshToken => (23, 'd'),
        AdminServiceError::DuplicateApiKey => (17, 'd'),
        AdminServiceError::TruncatedRefreshToken(_) => (23, 't'),
        AdminServiceError::EmptyRefreshToken => (19, 'e'),
        AdminServiceError::MissingRefreshToken => (21, 'm'),
        AdminServiceError::EmptyApiKey => (13, 'e'),
        AdminServiceError::MissingApiKey => (15, 'm'),
        AdminServiceError::NotDisabled(_) => (12, 'n'),
        AdminServiceError::ApiKeyNotRefreshable => (23, 'a'),
        AdminServiceError::InvalidRequest(_) => (15, 'i'),
    }
}

proof fn lemma_mark(error: AdminServiceError)
    ensures
        (type_of(error).len(), type_of(error)[0]) == mark_of(error),
{
    reveal_strlit("not_found");
    reveal_strlit("upstream_error");
    reveal_strlit("refresh_error");
    reveal_strlit("upstream_http_error");
    reveal_strlit("internal_error");
    reveal_strlit("config_error");
    reveal_strlit("disabled_by_invalid_config");
    reveal_strlit("duplicate_refresh_token");
    reveal_strlit("duplicate_api_key");
    reveal_strlit("truncated_refresh_token");
    reveal_strlit("empty_refresh_token");
    reveal_strlit("missing_refresh_token");
    reveal_strlit("empty_api_key");
    reveal_strlit("missing_api_key");
    reveal_strlit("not_disabled");
    reveal_strlit("api_key_not_refreshable");
    reveal_strlit("invalid_request");
}

/// The kind of an error tells which error it is.
pub proof fn law_type_tells_the_error(a: AdminServiceError, b: AdminServiceError)
    requires
        type_of(a) == type_of(b),
    ensures
        variant_of(a) == variant_of(b),
{
    lemma_mark(a);
    lemma_mark(b);
}

/// The status for each error: 404 for a credential that is not there; 502 for what the
/// upstream failed at; 500 for what the service failed at; 400 for all else, which the
/// caller can mend.
pub proof fn law_statuses_are_exact(error: AdminServiceError)
    ensures
        status_of(error) == 404 <==> error is NotFound,
        status_of(error) == 502 <==> error is UpstreamError || error is RefreshError
            || error is UpstreamHttp,
        status_of(error) == 500 <==> error is InternalError || error is ConfigError
            || error is DisabledByInvalidConfig,
        status_of(error) == 404 || status_of(error) == 502 || status_of(error) == 500 || status_of(
            error,
        ) == 400,
{
}

/// The words for an error end with what the error carries, behind words that depend on
/// nothing but which error it is; where more words follow, these do not either.
pub proof fn law_words_carry_the_error(a: AdminServiceError, b: AdminServiceError)
    requires
        variant_of(a) == variant_of(b),
    ensures
        a matches AdminServiceError::NotFound { id } ==> message_of(a) == "凭据不存在: "@
            + text::decimal(id as nat),
        a matches AdminServiceError::UpstreamError(words) ==> message_of(a) == "上游服务错误: "@ + words@,
        a matches AdminServiceError::RefreshError(error) ==> message_of(a) == "Token 刷新失败: "@
            + error.message@,
        a matches AdminServiceError::UpstreamHttp { status, body } ==> message_of(a) == "上游 HTTP "@
            + text::decimal(status as nat) + ": "@ + body@,
        a matches AdminServiceError::InternalError(words) ==> message_of(a) == "内部错误: "@ + words@,
        a matches AdminServiceError::ConfigError(error) ==> message_of(a) == "配置持久化失败: "@
            + error.message@,
        a matches AdminServiceError::InvalidRequest(words) ==> message_of(a) == "请求无效: "@ + words@,
        a matches AdminServiceError::DisabledByInvalidConfig(id) ==> message_of(a) == "凭据 #"@
            + text::decimal(id as nat) + " 因配置无效被禁用，请修正配置后重启服务"@,
        a matches AdminServiceError::NotDisabled(id) ==> message_of(a)
            == "只能删除已禁用的凭据（请先禁用凭据 #"@ + text::decimal(id as nat) + "）"@,
        a matches AdminServiceError::TruncatedRefreshToken(length) ==> message_of(a)
            == "refreshToken 已被截断（长度: "@ + text::decimal(length as nat)
            + " 字符）。这通常是 Kiro IDE 为了防止凭证被第三方工具使用而故意截断的。"@,
        a is DuplicateRefreshToken || a is DuplicateApiKey || a is EmptyRefreshToken
            || a is MissingRefreshToken || a is EmptyApiKey || a is MissingApiKey
            || a is ApiKeyNotRefreshable ==> message_of(a) == message_of(b),
        type_of(a) == type_of(b),
        status_of(a) == status_of(b),
{
}

/// An error of the pool becomes the error of the service that carries the same: the same
/// credential, length, status and words.
pub proof fn law_pool_errors_carry_over(error: AdminPoolError)
    ensures
        error matches AdminPoolError::NotFound(id) ==> service_error(error) == (
        AdminServiceError::NotFound { id }),
        error matches AdminPoolError::NotDisabled(id) ==> service_error(error)
            == AdminServiceError::NotDisabled(id),
        error matches AdminPoolError::DisabledByInvalidConfig(id) ==> service_error(error)
            == AdminServiceError::DisabledByInvalidConfig(id),
        error matches AdminPoolError::TruncatedRefreshToken(length) ==> service_error(error)
            == AdminServiceError::TruncatedRefreshToken(length),
        error matches AdminPoolError::Refresh(cause) ==> service_error(error)
            == AdminServiceError::RefreshError(cause),
        error matches AdminPoolError::Config(cause) ==> service_error(error)
            == AdminServiceError::ConfigError(cause),
        error matches AdminPoolError::Network(words) ==> service_error(error)
            == AdminServiceError::UpstreamError(words),
        error matches AdminPoolError::UpstreamHttp { status, body } ==> service_error(error) == (
        AdminServiceError::UpstreamHttp { status, body }),
        error is DuplicateRefreshToken <==> service_error(error) is DuplicateRefreshToken,
        error is DuplicateApiKey <==> service_error(error) is DuplicateApiKey,
        error is EmptyRefreshToken <==> service_error(error) is EmptyRefreshToken,
        error is EmptyApiKey <==> service_error(error) is EmptyApiKey,
        error is MissingRefreshToken <==> service_error(error) is MissingRefreshToken,
        error is MissingApiKey <==> service_error(error) is MissingApiKey,
        error is ApiKeyNotRefreshable <==> service_error(error) is ApiKeyNotRefreshable,
{
}

}
