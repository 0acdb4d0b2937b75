//! What the upstream reports on tokens.

use vstd::prelude::*;

verus! {

/// The tokens that the upstream reports.
#[derive(Debug, Clone, Copy, PartialEq, Eq, Structural)]
pub struct TokenUsage {
    /// Input tokens that were not read from the prompt cache.
    pub uncached_input_tokens: i32,
    pub output_tokens: i32,
    pub total_tokens: i32,
    /// Input tokens that were read from the prompt cache.
    pub cache_read_input_tokens: i32,
    /// Input tokens that were written to the prompt cache.
    pub cache_write_input_tokens: i32,
}

impl Default for TokenUsage {
    /// No tokens.
    fn default() -> (usage: TokenUsage)
        ensures
            usage == (TokenUsage {
                uncached_input_tokens: 0,
                output_tokens: 0,
                total_tokens: 0,
                cache_read_input_tokens: 0,
                cache_write_input_tokens: 0,
            }),
    {
        TokenUsage {
            uncached_input_tokens: 0,
            output_tokens: 0,
            total_tokens: 0,
            cache_read_input_tokens: 0,
            cache_write_input_tokens: 0,
        }
    }
}

/// An event that may report tokens.
#[derive(Debug, Clone, Copy, PartialEq, Eq, Structural)]
pub struct MetadataEvent {
    pub token_usage: Option<TokenUsage>,
}

impl Default for MetadataEvent {
    /// An event that reports no tokens.
    fn default() -> (event: MetadataEvent)
        ensures
            event.token_usage is None,
    {
        MetadataEvent { token_usage: None }
    }
}

impl MetadataEvent {
    /// The input tokens as Anthropic counts them: with those read from the cache, without
    /// those written to it. None where the event reports no tokens.
    pub fn anthropic_input_tokens(&self) -> (tokens: Option<i32>)
        requires
            match self.token_usage {
                Some(usage) => i32::MIN <= usage.uncached_input_tokens
                    + usage.cache_read_input_tokens <= i32::MAX,
                None => true,
            },
        ensures
            match tokens {
                Some(tokens) => self.token_usage is Some && tokens
                    == self.token_usage->0.uncached_input_tokens
                    + self.token_usage->0.cache_read_input_tokens,
                None => self.token_usage is None,
            },
    {
        match self.token_usage {
            Some(usage) => Some(usage.uncached_input_tokens + usage.cache_read_input_tokens),
            None => None,
        }
    }
}

}
