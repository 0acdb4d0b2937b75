//! What a request is billed for.

use vstd::prelude::*;

use crate::json::{JsonModel, JsonValue, with_member};
use crate::numbers;
use crate::profile;
use crate::text;
use crate::text::write_signed;
use crate::tracker;
use crate::tracker::{PromptCacheUsage, Table, UsageModel};

verus! {

/// What an optional usage holds.
pub open spec fn optional_usage(usage: Option<&PromptCacheUsage>) -> Option<UsageModel> {
    match usage {
        Some(usage) => Some(usage@),
        None => None,
    }
}

/// The input tokens that are billed at the full price: those neither written to nor read
/// from the cache.
pub open spec fn billed(input_tokens: int, cache: Option<UsageModel>) -> int {
    match cache {
        Some(usage) => numbers::larger(input_tokens - usage.creation - usage.read, 0),
        None => input_tokens,
    }
}

/// Whether the tokens that are billed can be counted.
pub open spec fn billable(input_tokens: int, cache: Option<UsageModel>) -> bool {
    match cache {
        Some(usage) => {
            &&& i32::MIN <= input_tokens - usage.creation <= i32::MAX
            &&& i32::MIN <= input_tokens - usage.creation - usage.read <= i32::MAX
        },
        None => true,
    }
}

/// The input tokens that are billed at the full price.
pub fn billed_input_tokens(input_tokens: i32, cache: Option<&PromptCacheUsage>) -> (tokens: i32)
    requires
        billable(input_tokens as int, optional_usage(cache)),
    ensures
        tokens == billed(input_tokens as int, optional_usage(cache)),
{
    match cache {
        Some(usage) => {
            let rest: i32 = input_tokens - usage.cache_creation_input_tokens
                - usage.cache_read_input_tokens;
            if rest > 0 {
                rest
            } else {
                0
            }
        },
        None => input_tokens,
    }
}

/// A number as a value.
pub open spec fn number(n: int) -> JsonModel {
    JsonModel::Number(text::signed_decimal(n))
}

/// The usage that a response reports.
pub open spec fn usage_value(
    input_tokens: int,
    output_tokens: int,
    cache: Option<UsageModel>,
) -> JsonModel {
    let plain = map![
        "input_tokens"@ => number(billed(input_tokens, cache)),
        "output_tokens"@ => number(output_tokens),
    ];
    match cache {
        Some(usage) => JsonModel::Object(
            plain.insert("cache_creation_input_tokens"@, number(usage.creation)).insert(
                "cache_read_input_tokens"@,
                number(usage.read),
            ).insert(
                "cache_creation"@,
                JsonModel::Object(
                    map![
                        "ephemeral_5m_input_tokens"@ => number(usage.creation_5m),
                        "ephemeral_1h_input_tokens"@ => number(usage.creation_1h),
                    ],
                ),
            ),
        ),
        None => JsonModel::Object(plain),
    }
}

/// A number as a value.
fn number_value(n: i32) -> (json: JsonValue)
    ensures
        json@ == number(n as int),
{
    JsonValue::Number(write_signed(n))
}

/// Builds the usage that a response reports; the parts on the cache are there only where
/// the cache was used.
pub fn build_usage_json(
    input_tokens: i32,
    output_tokens: i32,
    cache: Option<&PromptCacheUsage>,
) -> (json: JsonValue)
    requires
        billable(input_tokens as int, optional_usage(cache)),
    ensures
        json@ == usage_value(input_tokens as int, output_tokens as int, optional_usage(cache)),
{
    let input: JsonValue = number_value(billed_input_tokens(input_tokens, cache));
    let members = with_member(Vec::new(), "input_tokens", input);
    let members = with_member(members, "output_tokens", number_value(output_tokens));
    match cache {
        Some(usage) => {
            let lives = with_member(
                Vec::new(),
                "ephemeral_5m_input_tokens",
                number_value(usage.cache_creation_5m_input_tokens),
            );
            let lives = with_member(
                lives,
                "ephemeral_1h_input_tokens",
                number_value(usage.cache_creation_1h_input_tokens),
            );
            let members = with_member(
                members,
                "cache_creation_input_tokens",
                number_value(usage.cache_creation_input_tokens),
            );
            let members = with_member(
                members,
                "cache_read_input_tokens",
                number_value(usage.cache_read_input_tokens),
            );
            let members = with_member(members, "cache_creation", JsonValue::Object(lives));
            JsonValue::Object(members)
        },
        None => JsonValue::Object(members),
    }
}

/// A bill covers every input token once: of a request whose tokens are those of its
/// profile, the tokens billed at the full price, written and read add up to the total,
/// and at least 15 percent are billed at the full price.
pub proof fn law_bill_covers_input(
    profile: profile::ProfileModel,
    table: Table,
    account_id: u64,
    now: nat,
)
    requires
        profile::countable(profile),
    ensures
        ({
            let usage = tracker::computed_usage(profile, table, account_id, now);
            let rest = billed(profile.total_input_tokens, Some(usage));
            &&& rest + usage.creation + usage.read == profile.total_input_tokens
            &&& 20 * rest >= 3 * profile.total_input_tokens
        }),
{
    tracker::law_usage_adds_up(profile, table, account_id, now);
}

/// The tokens that are billed at the full price are those neither written nor read, and
/// none where more are written and read than there are; without a cache, all.
pub proof fn law_billing_is_exact(input_tokens: int, usage: UsageModel)
    ensures
        billed(input_tokens, None) == input_tokens,
        input_tokens >= usage.creation + usage.read ==> billed(input_tokens, Some(usage))
            + usage.creation + usage.read == input_tokens,
        input_tokens < usage.creation + usage.read ==> billed(input_tokens, Some(usage)) == 0,
{
}

/// A response reports the tokens billed, the output, and, where the cache was used, what was
/// written, read, and written for each life: these numbers in decimal under these names,
/// and nothing else.
pub proof fn law_reports_hold_the_usage(
    input_tokens: int,
    output_tokens: int,
    usage: UsageModel,
    key: Seq<char>,
)
    ensures
        crate::json::member(usage_value(input_tokens, output_tokens, None), key) == (if key
            == "input_tokens"@ {
            Some(JsonModel::Number(text::signed_decimal(billed(input_tokens, None))))
        } else if key == "output_tokens"@ {
            Some(JsonModel::Number(text::signed_decimal(output_tokens)))
        } else {
            None
        }),
        crate::json::member(usage_value(input_tokens, output_tokens, Some(usage)), key) == (if key
            == "input_tokens"@ {
            Some(JsonModel::Number(text::signed_decimal(billed(input_tokens, Some(usage)))))
        } else if key == "output_tokens"@ {
            Some(JsonModel::Number(text::signed_decimal(output_tokens)))
        } else if key == "cache_creation_input_tokens"@ {
            Some(JsonModel::Number(text::signed_decimal(usage.creation)))
        } else if key == "cache_read_input_tokens"@ {
            Some(JsonModel::Number(text::signed_decimal(usage.read)))
        } else if key == "cache_creation"@ {
            Some(usage_value(input_tokens, output_tokens, Some(usage))->Object_0["cache_creation"@])
        } else {
            None
        }),
        crate::json::member(
            usage_value(input_tokens, output_tokens, Some(usage))->Object_0["cache_creation"@],
            key,
        ) == (if key == "ephemeral_5m_input_tokens"@ {
            Some(JsonModel::Number(text::signed_decimal(usage.creation_5m)))
        } else if key == "ephemeral_1h_input_tokens"@ {
            Some(JsonModel::Number(text::signed_decimal(usage.creation_1h)))
        } else {
            None
        }),
{
    reveal_strlit("input_tokens");
    reveal_strlit("output_tokens");
    reveal_strlit("cache_creation_input_tokens");
    reveal_strlit("cache_read_input_tokens");
    reveal_strlit("cache_creation");
    reveal_strlit("ephemeral_5m_input_tokens");
    reveal_strlit("ephemeral_1h_input_tokens");
    assert("ephemeral_5m_input_tokens"@[10] == '5' && "ephemeral_1h_input_tokens"@[10] == '1');
    assert("input_tokens"@.len() == 12 && "output_tokens"@.len() == 13);
    assert("cache_creation_input_tokens"@.len() == 27 && "cache_read_input_tokens"@.len() == 23);
    assert("cache_creation"@.len() == 14);
}

/// An optional usage is seen as it is.
pub proof fn law_optional_usages_are_seen_whole(usage: &PromptCacheUsage)
    ensures
        optional_usage(Some(usage)) == Some(usage@),
        optional_usage(None) is None,
{
}

}
