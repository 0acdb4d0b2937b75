use kiro_rs::admin::{AdminPoolError, AdminServiceError, ConfigError, RefreshError};

fn all() -> Vec<(AdminServiceError, u16, &'static str, &'static str)> {
    vec![
        (AdminServiceError::NotFound { id: 7 }, 404, "not_found", "凭据不存在: 7"),
        (
            AdminServiceError::UpstreamError("超时".to_string()),
            502,
            "upstream_error",
            "上游服务错误: 超时",
        ),
        (
            AdminServiceError::RefreshError(RefreshError { message: "x".to_string() }),
            502,
            "refresh_error",
            "Token 刷新失败: x",
        ),
        (
            AdminServiceError::UpstreamHttp { status: 503, body: "down".to_string() },
            502,
            "upstream_http_error",
            "上游 HTTP 503: down",
        ),
        (
            AdminServiceError::InternalError("y".to_string()),
            500,
            "internal_error",
            "内部错误: y",
        ),
        (
            AdminServiceError::ConfigError(ConfigError { message: "z".to_string() }),
            500,
            "config_error",
            "配置持久化失败: z",
        ),
        (
            AdminServiceError::DisabledByInvalidConfig(3),
            500,
            "disabled_by_invalid_config",
            "凭据 #3 因配置无效被禁用，请修正配置后重启服务",
        ),
        (
            AdminServiceError::DuplicateRefreshToken,
            400,
            "duplicate_refresh_token",
            "凭据已存在（refreshToken 重复）",
        ),
        (
            AdminServiceError::DuplicateApiKey,
            400,
            "duplicate_api_key",
            "凭据已存在（kiroApiKey 重复）",
        ),
        (
            AdminServiceError::TruncatedRefreshToken(12),
            400,
            "truncated_refresh_token",
            "refreshToken 已被截断（长度: 12 字符）。\
             这通常是 Kiro IDE 为了防止凭证被第三方工具使用而故意截断的。",
        ),
        (
            AdminServiceError::EmptyRefreshToken,
            400,
            "empty_refresh_token",
            "refreshToken 为空",
        ),
        (
            AdminServiceError::MissingRefreshToken,
            400,
            "missing_refresh_token",
            "缺少 refreshToken",
        ),
        (AdminServiceError::EmptyApiKey, 400, "empty_api_key", "kiroApiKey 为空"),
        (AdminServiceError::MissingApiKey, 400, "missing_api_key", "缺少 kiroApiKey"),
        (
            AdminServiceError::NotDisabled(4),
            400,
            "not_disabled",
            "只能删除已禁用的凭据（请先禁用凭据 #4）",
        ),
        (
            AdminServiceError::ApiKeyNotRefreshable,
            400,
            "api_key_not_refreshable",
            "API Key 凭据不支持刷新 Token",
        ),
        (
            AdminServiceError::InvalidRequest("w".to_string()),
            400,
            "invalid_request",
            "请求无效: w",
        ),
    ]
}

#[test]
fn errors_are_answered_with_status_kind_and_words() {
    for (error, status, kind, message) in all() {
        assert_eq!(error.status_code(), status);
        assert_eq!(error.message(), message);
        let response = error.into_response();
        assert_eq!(response.error_type, kind);
        assert_eq!(response.message, message);
    }
}

#[test]
fn kinds_are_distinct() {
    let mut kinds: Vec<String> =
        all().into_iter().map(|(error, ..)| error.into_response().error_type).collect();
    kinds.sort();
    kinds.dedup();
    assert_eq!(kinds.len(), 17);
}

#[test]
fn pool_errors_become_service_errors() {
    let refresh = || RefreshError { message: "r".to_string() };
    let config = || ConfigError { message: "c".to_string() };
    let http = (429, "b".to_string());
    let pairs: Vec<(AdminPoolError, &str, &str)> = vec![
        (AdminPoolError::NotFound(1), "not_found", "凭据不存在: 1"),
        (
            AdminPoolError::DuplicateRefreshToken,
            "duplicate_refresh_token",
            "凭据已存在（refreshToken 重复）",
        ),
        (AdminPoolError::DuplicateApiKey, "duplicate_api_key", "凭据已存在（kiroApiKey 重复）"),
        (
            AdminPoolError::TruncatedRefreshToken(2),
            "truncated_refresh_token",
            "refreshToken 已被截断（长度: 2 字符）。\
             这通常是 Kiro IDE 为了防止凭证被第三方工具使用而故意截断的。",
        ),
        (AdminPoolError::EmptyRefreshToken, "empty_refresh_token", "refreshToken 为空"),
        (AdminPoolError::EmptyApiKey, "empty_api_key", "kiroApiKey 为空"),
        (AdminPoolError::MissingRefreshToken, "missing_refresh_token", "缺少 refreshToken"),
        (AdminPoolError::MissingApiKey, "missing_api_key", "缺少 kiroApiKey"),
        (
            AdminPoolError::NotDisabled(3),
            "not_disabled",
            "只能删除已禁用的凭据（请先禁用凭据 #3）",
        ),
        (
            AdminPoolError::ApiKeyNotRefreshable,
            "api_key_not_refreshable",
            "API Key 凭据不支持刷新 Token",
        ),
        (AdminPoolError::Refresh(refresh()), "refresh_error", "Token 刷新失败: r"),
        (
            AdminPoolError::UpstreamHttp { status: http.0, body: http.1 },
            "upstream_http_error",
            "上游 HTTP 429: b",
        ),
        (AdminPoolError::Network("n".to_string()), "upstream_error", "上游服务错误: n"),
        (AdminPoolError::Config(config()), "config_error", "配置持久化失败: c"),
        (
            AdminPoolError::DisabledByInvalidConfig(4),
            "disabled_by_invalid_config",
            "凭据 #4 因配置无效被禁用，请修正配置后重启服务",
        ),
    ];
    for (error, kind, message) in pairs {
        let response = AdminServiceError::from(error).into_response();
        assert_eq!((response.error_type.as_str(), response.message.as_str()), (kind, message));
    }
}
