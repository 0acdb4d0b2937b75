//! The caching profile of a request: the prefixes that can be cached, and their size.

use vstd::prelude::*;

use crate::blocks;
use crate::blocks::{BlockModel, CacheableBlock, MessageModel, RequestModel};
use crate::fingerprint;
use crate::fingerprint::{fingerprint, write_hash_chunk};
use crate::numbers;
use crate::numbers::{max_of, min_of};
use crate::text;
use crate::text::{contains, to_lowercase};
use crate::ttl::{DEFAULT_PROMPT_CACHE_TTL, LONGEST_SPAN, ONE_HOUR};

verus! {

/// The fewest tokens that a prefix must have to be cached.
pub const DEFAULT_MIN_CACHEABLE_TOKENS: i32 = 1024;

/// The fewest tokens that a prefix must have to be cached by an Opus model.
pub const OPUS_MIN_CACHEABLE_TOKENS: i32 = 4096;

/// The end of a prefix that can be cached: the fingerprint of the prefix, the tokens in
/// it, and its life in nanoseconds.
#[derive(Debug)]
pub struct PromptCacheBreakpoint {
    pub fingerprint: [u8; 32],
    pub cumulative_tokens: i32,
    pub ttl: u128,
}

/// The caching profile of a request.
#[derive(Debug)]
pub struct PromptCacheProfile {
    pub breakpoints: Vec<PromptCacheBreakpoint>,
    pub total_input_tokens: i32,
    pub model: String,
    /// The number of tokens that the model's context window holds.
    pub context_window: i32,
}

/// A breakpoint, over its fingerprint as a sequence.
pub struct BreakpointModel {
    pub fingerprint: Seq<u8>,
    pub cumulative_tokens: int,
    pub ttl: nat,
}

/// A profile, over sequences.
pub struct ProfileModel {
    pub breakpoints: Seq<BreakpointModel>,
    pub total_input_tokens: int,
    pub model: Seq<char>,
    pub context_window: int,
}

impl View for PromptCacheBreakpoint {
    type V = BreakpointModel;

    open spec fn view(&self) -> BreakpointModel {
        BreakpointModel {
            fingerprint: self.fingerprint@,
            cumulative_tokens: self.cumulative_tokens as int,
            ttl: self.ttl as nat,
        }
    }
}

/// What a row of breakpoints holds.
pub open spec fn breakpoints_view(breakpoints: Seq<PromptCacheBreakpoint>) -> Seq<BreakpointModel> {
    breakpoints.map_values(|breakpoint: PromptCacheBreakpoint| breakpoint@)
}

impl View for PromptCacheProfile {
    type V = ProfileModel;

    open spec fn view(&self) -> ProfileModel {
        ProfileModel {
            breakpoints: breakpoints_view(self.breakpoints@),
            total_input_tokens: self.total_input_tokens as int,
            model: self.model@,
            context_window: self.context_window as int,
        }
    }
}

/// The fewest tokens that a prefix must have to be cached by a model, given by its name
/// in lower case.
pub open spec fn min_tokens_for(lowered: Seq<char>) -> int {
    if text::holds(lowered, "opus"@) {
        OPUS_MIN_CACHEABLE_TOKENS as int
    } else {
        DEFAULT_MIN_CACHEABLE_TOKENS as int
    }
}

/// The fewest tokens that a prefix must have to be cached by a model.
pub open spec fn min_cacheable(model: Seq<char>) -> int {
    min_tokens_for(text::lowercase(model))
}

/// The fewest tokens for a model, given by its name in lower case.
pub fn min_cacheable_tokens_for_lowered(lowered: &str) -> (tokens: i32)
    ensures
        tokens == min_tokens_for(lowered@),
{
    if contains(lowered, "opus") {
        OPUS_MIN_CACHEABLE_TOKENS
    } else {
        DEFAULT_MIN_CACHEABLE_TOKENS
    }
}

/// The fewest tokens that a prefix must have to be cached by a model.
pub fn min_cacheable_tokens_for_model(model: &str) -> (tokens: i32)
    ensures
        tokens == min_cacheable(model@),
{
    let lowered: String = to_lowercase(model);
    min_cacheable_tokens_for_lowered(lowered.as_str())
}

/// The most tokens that a profile counts: the context window, never taken for smaller than
/// the smallest prefix that can be cached.
pub open spec fn window_cap(context_window: int) -> int {
    numbers::larger(context_window, DEFAULT_MIN_CACHEABLE_TOKENS as int)
}

/// The most tokens that a profile counts for a model with the given context window.
pub fn context_window_for_model(context_window: i32) -> (cap: i32)
    ensures
        cap == window_cap(context_window as int),
{
    max_of(context_window, DEFAULT_MIN_CACHEABLE_TOKENS)
}

/// Breakpoints with no more tokens than `cap`.
pub open spec fn capped_breakpoints(breakpoints: Seq<BreakpointModel>, cap: int) -> Seq<
    BreakpointModel,
> {
    breakpoints.map_values(
        |breakpoint: BreakpointModel|
            BreakpointModel {
                cumulative_tokens: numbers::smaller(breakpoint.cumulative_tokens, cap),
                ..breakpoint
            },
    )
}

/// A profile with no more tokens than the context window holds.
pub open spec fn capped(profile: ProfileModel) -> ProfileModel {
    let cap = window_cap(profile.context_window);
    ProfileModel {
        breakpoints: capped_breakpoints(profile.breakpoints, cap),
        total_input_tokens: numbers::smaller(profile.total_input_tokens, cap),
        ..profile
    }
}

/// A profile whose total is raised to an estimate, within the context window.
pub open spec fn raised(profile: ProfileModel, estimated: int) -> ProfileModel {
    capped(
        ProfileModel {
            total_input_tokens: numbers::larger(
                profile.total_input_tokens,
                numbers::smaller(numbers::larger(estimated, 0), window_cap(profile.context_window)),
            ),
            ..profile
        },
    )
}

/// A profile that the tracker can count with: a total that is no debt, and lives that a
/// clock can hold.
pub open spec fn countable(profile: ProfileModel) -> bool {
    &&& profile.total_input_tokens >= 0
    &&& forall|i: int|
        0 <= i < profile.breakpoints.len() ==> (#[trigger] profile.breakpoints[i]).ttl
            <= LONGEST_SPAN
}

proof fn lemma_capped_countable(profile: ProfileModel)
    requires
        countable(profile),
    ensures
        countable(capped(profile)),
{
    let shown = capped(profile).breakpoints;
    assert forall|i: int| 0 <= i < shown.len() implies (#[trigger] shown[i]).ttl
        <= LONGEST_SPAN by {
        assert(profile.breakpoints[i].ttl <= LONGEST_SPAN);
    }
}

impl PromptCacheProfile {
    /// Raises the total to an outside estimate, but not beyond the context window.
    pub fn raise_total_input_tokens(&mut self, estimated: i32)
        ensures
            final(self)@ == raised(old(self)@, estimated as int),
            countable(old(self)@) ==> countable(final(self)@),
    {
        let at_most: i32 = min_of(max_of(estimated, 0), context_window_for_model(self.context_window));
        if at_most > self.total_input_tokens {
            self.total_input_tokens = at_most;
        }
        self.cap_to_context_window();
    }

    /// Cuts the total and the breakpoints down to the context window.
    pub fn cap_to_context_window(&mut self)
        ensures
            final(self)@ == capped(old(self)@),
            countable(old(self)@) ==> countable(final(self)@),
    {
        let cap: i32 = context_window_for_model(self.context_window);
        let ghost start = breakpoints_view(self.breakpoints@);
        let ghost old_self = *self;
        self.total_input_tokens = min_of(self.total_input_tokens, cap);
        let mut i: usize = 0;
        while i < self.breakpoints.len()
            invariant
                i <= self.breakpoints.len(),
                self.breakpoints.len() == start.len(),
                self.total_input_tokens == numbers::smaller(
                    old_self.total_input_tokens as int,
                    cap as int,
                ),
                self.model == old_self.model,
                self.context_window == old_self.context_window,
                forall|k: int|
                    0 <= k < start.len() ==> (#[trigger] self.breakpoints@[k])@ == (if k < i {
                        capped_breakpoints(start, cap as int)[k]
                    } else {
                        start[k]
                    }),
            decreases self.breakpoints.len() - i,
        {
            let tokens: i32 = min_of(self.breakpoints[i].cumulative_tokens, cap);
            let ghost before = self.breakpoints@;
            proof {
                assert(before[i as int]@ == start[i as int]);
            }
            self.breakpoints[i].cumulative_tokens = tokens;
            proof {
                assert forall|k: int| 0 <= k < start.len() implies (#[trigger] self.breakpoints@[k])@
                    == (if k < i + 1 {
                    capped_breakpoints(start, cap as int)[k]
                } else {
                    start[k]
                }) by {
                    if k != i {
                        assert(self.breakpoints@[k] == before[k]);
                    }
                }
            }
            i += 1;
        }
        proof {
            assert(breakpoints_view(self.breakpoints@) == capped_breakpoints(start, cap as int));
            if countable(old_self@) {
                lemma_capped_countable(old_self@);
            }
        }
    }
}

/// The texts of a row of blocks.
pub open spec fn texts(blocks: Seq<BlockModel>) -> Seq<Seq<char>> {
    blocks.map_values(|block: BlockModel| block.canonical)
}

/// The tokens in a row of blocks.
pub open spec fn total_tokens(blocks: Seq<BlockModel>) -> int
    decreases blocks.len(),
{
    if blocks.len() == 0 {
        0
    } else {
        total_tokens(blocks.drop_last()) + blocks.last().tokens
    }
}

/// The life that the last explicit breakpoint of a row of blocks gives; none where there
/// is none.
pub open spec fn active_ttl(blocks: Seq<BlockModel>) -> nat
    decreases blocks.len(),
{
    if blocks.len() == 0 {
        0
    } else if blocks.last().ttl > 0 {
        blocks.last().ttl
    } else {
        active_ttl(blocks.drop_last())
    }
}

/// The life of the prefix that a row of blocks is: that of an explicit breakpoint at its
/// end; at the end of a message, that of the last explicit breakpoint before; else none.
pub open spec fn prefix_ttl(blocks: Seq<BlockModel>) -> nat {
    if blocks.len() == 0 {
        0
    } else if blocks.last().ttl > 0 {
        blocks.last().ttl
    } else if blocks.last().is_message_end {
        active_ttl(blocks.drop_last())
    } else {
        0
    }
}

/// The breakpoint at the end of a row of blocks.
pub open spec fn breakpoint_at_end(blocks: Seq<BlockModel>) -> BreakpointModel {
    BreakpointModel {
        fingerprint: fingerprint::fingerprint_of(texts(blocks)),
        cumulative_tokens: total_tokens(blocks),
        ttl: prefix_ttl(blocks),
    }
}

/// The breakpoints in a row of blocks: one for each prefix with a life.
pub open spec fn breakpoints_of(blocks: Seq<BlockModel>) -> Seq<BreakpointModel>
    decreases blocks.len(),
{
    if blocks.len() == 0 {
        Seq::empty()
    } else if prefix_ttl(blocks) > 0 {
        breakpoints_of(blocks.drop_last()).push(breakpoint_at_end(blocks))
    } else {
        breakpoints_of(blocks.drop_last())
    }
}

/// The profile of a row of blocks; none where there is no breakpoint.
pub open spec fn profile_of(blocks: Seq<BlockModel>, model: Seq<char>, context_window: int) -> Option<
    ProfileModel,
> {
    if breakpoints_of(blocks).len() == 0 {
        None
    } else {
        Some(
            capped(
                ProfileModel {
                    breakpoints: breakpoints_of(blocks),
                    total_input_tokens: total_tokens(blocks),
                    model,
                    context_window,
                },
            ),
        )
    }
}

/// What an optional profile holds.
pub open spec fn optional_profile(profile: Option<PromptCacheProfile>) -> Option<ProfileModel> {
    match profile {
        Some(profile) => Some(profile@),
        None => None,
    }
}

/// Whether the tokens of each block and of all blocks can be counted.
pub open spec fn tokens_fit(blocks: Seq<BlockModel>) -> bool {
    &&& forall|i: int| 0 <= i < blocks.len() ==> (#[trigger] blocks[i]).tokens >= 0
    &&& total_tokens(blocks) <= i32::MAX
}

/// No part of a row of blocks has more tokens than the whole.
proof fn lemma_tokens_grow(blocks: Seq<BlockModel>, n: int)
    requires
        0 <= n <= blocks.len(),
        forall|i: int| 0 <= i < blocks.len() ==> (#[trigger] blocks[i]).tokens >= 0,
    ensures
        0 <= total_tokens(blocks.take(n)) <= total_tokens(blocks),
    decreases blocks.len(),
{
    if n == blocks.len() {
        assert(blocks.take(n) == blocks);
        if n > 0 {
            let front = blocks.drop_last();
            assert forall|i: int| 0 <= i < front.len() implies (#[trigger] front[i]).tokens >= 0 by {
                assert(front[i] == blocks[i]);
            }
            lemma_tokens_grow(front, front.len() as int);
            assert(front.take(front.len() as int) == front);
            assert(blocks[blocks.len() - 1].tokens >= 0);
        }
    } else {
        let front = blocks.drop_last();
        assert(front.take(n) == blocks.take(n));
        assert forall|i: int| 0 <= i < front.len() implies (#[trigger] front[i]).tokens >= 0 by {
            assert(front[i] == blocks[i]);
        }
        lemma_tokens_grow(front, n);
        assert(blocks[blocks.len() - 1].tokens >= 0);
    }
}

/// Adds up the tokens of a row of blocks; none where the sum is too large.
pub fn count_tokens(row: &Vec<CacheableBlock>) -> (tokens: Option<i32>)
    requires
        blocks::all_sound(blocks::blocks_view(row@)),
    ensures
        match tokens {
            Some(tokens) => tokens == total_tokens(blocks::blocks_view(row@)),
            None => total_tokens(blocks::blocks_view(row@)) > i32::MAX,
        },
{
    let ghost models = blocks::blocks_view(row@);
    let mut sum: i32 = 0;
    let mut i: usize = 0;
    proof {
        assert(models.take(0) == Seq::<BlockModel>::empty());
        assert forall|k: int| 0 <= k < models.len() implies (#[trigger] models[k]).tokens >= 0 by {
            assert(blocks::sound(models[k]));
        }
    }
    while i < row.len()
        invariant
            i <= row.len(),
            models == blocks::blocks_view(row@),
            forall|k: int| 0 <= k < models.len() ==> (#[trigger] models[k]).tokens >= 0,
            0 <= sum,
            sum == total_tokens(models.take(i as int)),
        decreases row.len() - i,
    {
        proof {
            assert(models.take(i + 1).drop_last() == models.take(i as int));
            assert(models.take(i + 1).last() == models[i as int]);
            assert(models[i as int] == row@[i as int]@);
            lemma_tokens_grow(models, i + 1);
        }
        if row[i].tokens > i32::MAX - sum {
            return None;
        }
        sum = sum + row[i].tokens;
        i += 1;
    }
    proof {
        assert(models.take(i as int) == models);
    }
    Some(sum)
}

/// Builds the profile of a row of blocks.
pub fn profile_from_blocks(
    blocks: &Vec<CacheableBlock>,
    model: &str,
    context_window: i32,
) -> (profile: Option<PromptCacheProfile>)
    requires
        tokens_fit(blocks::blocks_view(blocks@)),
    ensures
        optional_profile(profile) == profile_of(
            blocks::blocks_view(blocks@),
            model@,
            context_window as int,
        ),
{
    let ghost models = blocks::blocks_view(blocks@);
    let mut hashed: Vec<u8> = Vec::new();
    let mut breakpoints: Vec<PromptCacheBreakpoint> = Vec::new();
    let mut cumulative_tokens: i32 = 0;
    let mut active: u128 = 0;
    let mut i: usize = 0;
    proof {
        assert(models.take(0) == Seq::<BlockModel>::empty());
        assert(texts(models.take(0)) == Seq::<Seq<char>>::empty());
        assert(breakpoints_view(breakpoints@) == Seq::<BreakpointModel>::empty());
    }
    while i < blocks.len()
        invariant
            i <= blocks.len(),
            models == blocks::blocks_view(blocks@),
            tokens_fit(models),
            hashed@ == fingerprint::frames(texts(models.take(i as int))),
            cumulative_tokens == total_tokens(models.take(i as int)),
            active == active_ttl(models.take(i as int)),
            breakpoints_view(breakpoints@) == breakpoints_of(models.take(i as int)),
        decreases blocks.len() - i,
    {
        let block: &CacheableBlock = &blocks[i];
        let ghost now = models.take(i + 1);
        let ghost before = breakpoints_view(breakpoints@);
        proof {
            assert(now.drop_last() == models.take(i as int));
            assert(now.last() == models[i as int]);
            assert(models[i as int] == block@);
            assert(texts(now).drop_last() == texts(models.take(i as int)));
            assert(texts(now).last() == block.canonical@);
            lemma_tokens_grow(models, i + 1);
            lemma_tokens_grow(models, i as int);
        }
        write_hash_chunk(&mut hashed, block.canonical.as_str());
        cumulative_tokens = cumulative_tokens + block.tokens;
        let ttl: u128 = if block.ttl > 0 {
            active = block.ttl;
            block.ttl
        } else if block.is_message_end {
            active
        } else {
            0
        };
        proof {
            assert(ttl == prefix_ttl(now));
        }
        if ttl > 0 {
            breakpoints.push(
                PromptCacheBreakpoint { fingerprint: fingerprint(&hashed), cumulative_tokens, ttl },
            );
            proof {
                assert(breakpoints_view(breakpoints@) == before.push(breakpoint_at_end(now)));
            }
        }
        i += 1;
    }
    proof {
        assert(models.take(i as int) == models);
    }
    if breakpoints.len() == 0 {
        return None;
    }
    let mut profile = PromptCacheProfile {
        breakpoints,
        total_input_tokens: cumulative_tokens,
        model: model.to_owned(),
        context_window,
    };
    profile.cap_to_context_window();
    Some(profile)
}

/// Whether the tokens of a row of breakpoints never go down.
pub open spec fn ascending(breakpoints: Seq<BreakpointModel>) -> bool {
    forall|i: int, j: int|
        0 <= i <= j < breakpoints.len() ==> (#[trigger] breakpoints[i]).cumulative_tokens <= (
        #[trigger] breakpoints[j]).cumulative_tokens
}

/// Whether a breakpoint has from none to `most` tokens, and lives for five minutes or for
/// one hour.
pub open spec fn within(breakpoint: BreakpointModel, most: int) -> bool {
    &&& 0 <= breakpoint.cumulative_tokens <= most
    &&& breakpoint.ttl == DEFAULT_PROMPT_CACHE_TTL || breakpoint.ttl == ONE_HOUR
}

proof fn lemma_active_ttl(row: Seq<BlockModel>)
    requires
        blocks::all_sound(row),
    ensures
        active_ttl(row) == 0 || active_ttl(row) == DEFAULT_PROMPT_CACHE_TTL || active_ttl(row)
            == ONE_HOUR,
    decreases row.len(),
{
    if row.len() > 0 {
        let front = row.drop_last();
        assert forall|i: int| 0 <= i < front.len() implies blocks::sound(#[trigger] front[i]) by {
            assert(front[i] == row[i]);
        }
        lemma_active_ttl(front);
        assert(blocks::sound(row[row.len() - 1]));
    }
}

/// The breakpoints of a row of blocks have ever more tokens, never more than the row has,
/// and each lives for five minutes or for one hour.
pub proof fn law_breakpoints_ascend(row: Seq<BlockModel>)
    requires
        blocks::all_sound(row),
    ensures
        total_tokens(row) >= 0,
        ascending(breakpoints_of(row)),
        forall|i: int|
            0 <= i < breakpoints_of(row).len() ==> within(
                #[trigger] breakpoints_of(row)[i],
                total_tokens(row),
            ),
    decreases row.len(),
{
    if row.len() > 0 {
        let front = row.drop_last();
        assert forall|i: int| 0 <= i < front.len() implies blocks::sound(#[trigger] front[i]) by {
            assert(front[i] == row[i]);
        }
        law_breakpoints_ascend(front);
        lemma_active_ttl(front);
        assert(blocks::sound(row[row.len() - 1]));
        let earlier = breakpoints_of(front);
        let all = breakpoints_of(row);
        assert forall|i: int| 0 <= i < all.len() implies within(
            #[trigger] all[i],
            total_tokens(row),
        ) by {
            if i < earlier.len() {
                assert(all[i] == earlier[i]);
                assert(within(earlier[i], total_tokens(front)));
            }
        }
        assert forall|i: int, j: int| 0 <= i <= j < all.len() implies (
        #[trigger] all[i]).cumulative_tokens <= (#[trigger] all[j]).cumulative_tokens by {
            if i < earlier.len() {
                assert(all[i] == earlier[i]);
                assert(within(earlier[i], total_tokens(front)));
            }
            if j < earlier.len() {
                assert(all[j] == earlier[j]);
            }
        }
    }
}

/// The profile of a request can be counted with, and its breakpoints have ever more
/// tokens.
pub proof fn law_profile_is_sound(row: Seq<BlockModel>, model: Seq<char>, context_window: int)
    requires
        blocks::all_sound(row),
        profile_of(row, model, context_window) is Some,
    ensures
        countable(profile_of(row, model, context_window)->0),
        ascending(profile_of(row, model, context_window)->0.breakpoints),
        0 <= profile_of(row, model, context_window)->0.total_input_tokens <= window_cap(
            context_window,
        ),
{
    law_breakpoints_ascend(row);
    let cap = window_cap(context_window);
    let all = breakpoints_of(row);
    let shown = profile_of(row, model, context_window)->0.breakpoints;
    assert forall|i: int| 0 <= i < shown.len() implies (#[trigger] shown[i]).ttl
        <= LONGEST_SPAN by {
        assert(within(all[i], total_tokens(row)));
    }
    assert forall|i: int, j: int| 0 <= i <= j < shown.len() implies (
    #[trigger] shown[i]).cumulative_tokens <= (#[trigger] shown[j]).cumulative_tokens by {
        assert(all[i].cumulative_tokens <= all[j].cumulative_tokens);
    }
}

/// Whether a row of breakpoints begins with another.
pub open spec fn extends(longer: Seq<BreakpointModel>, shorter: Seq<BreakpointModel>) -> bool {
    shorter.len() <= longer.len() && longer.take(shorter.len() as int) == shorter
}

proof fn lemma_breakpoints_extend(row: Seq<BlockModel>, rest: Seq<BlockModel>)
    ensures
        extends(breakpoints_of(row + rest), breakpoints_of(row)),
    decreases rest.len(),
{
    if rest.len() == 0 {
        assert(row + rest == row);
        assert(breakpoints_of(row).take(breakpoints_of(row).len() as int) == breakpoints_of(row));
    } else {
        lemma_breakpoints_extend(row, rest.drop_last());
        assert((row + rest).drop_last() == row + rest.drop_last());
        let n = breakpoints_of(row).len() as int;
        assert(breakpoints_of(row + rest).take(n) == breakpoints_of(row + rest.drop_last()).take(n));
    }
}

/// The profile of a conversation that goes on begins with the breakpoints that the profile
/// had before, fingerprints, tokens and lives alike.
pub proof fn law_conversation_extends_profile(
    request: RequestModel,
    front: Seq<MessageModel>,
    rest: Seq<MessageModel>,
    context_window: int,
)
    requires
        profile_of(
            blocks::flattened(RequestModel { messages: front, ..request }),
            request.model,
            context_window,
        ) is Some,
    ensures
        ({
            let before = profile_of(
                blocks::flattened(RequestModel { messages: front, ..request }),
                request.model,
                context_window,
            );
            let after = profile_of(
                blocks::flattened(RequestModel { messages: front + rest, ..request }),
                request.model,
                context_window,
            );
            after is Some && extends(after->0.breakpoints, before->0.breakpoints)
        }),
{
    let row = blocks::flattened(RequestModel { messages: front, ..request });
    let more = blocks::conversation_blocks(rest, request.measures);
    blocks::law_conversation_grows(request, front, rest);
    lemma_breakpoints_extend(row, more);
    let cap = window_cap(context_window);
    let n = breakpoints_of(row).len() as int;
    assert(capped_breakpoints(breakpoints_of(row + more), cap).take(n) == capped_breakpoints(
        breakpoints_of(row + more).take(n),
        cap,
    ));
}

/// A profile that fits into the context window is left as it is.
pub proof fn law_capping_is_final(profile: ProfileModel)
    ensures
        capped(capped(profile)) == capped(profile),
        capped(profile).total_input_tokens <= window_cap(profile.context_window),
        forall|i: int|
            0 <= i < capped(profile).breakpoints.len() ==> (
            #[trigger] capped(profile).breakpoints[i]).cumulative_tokens <= window_cap(
                profile.context_window,
            ),
{
    assert(capped(capped(profile)).breakpoints =~= capped(profile).breakpoints);
}

/// Two estimates raise a profile as the larger of them does.
pub proof fn law_larger_estimate_wins(profile: ProfileModel, a: int, b: int)
    ensures
        raised(raised(profile, a), b) == raised(profile, numbers::larger(a, b)),
{
    assert(raised(raised(profile, a), b).breakpoints =~= raised(
        profile,
        numbers::larger(a, b),
    ).breakpoints);
}

/// An estimate never lowers the total of a profile that fits into the context window, and
/// leaves its breakpoints as they are.
pub proof fn law_raising_keeps_breakpoints(profile: ProfileModel, estimated: int)
    requires
        capped(profile) == profile,
    ensures
        raised(profile, estimated).breakpoints == profile.breakpoints,
        profile.total_input_tokens <= raised(profile, estimated).total_input_tokens <= window_cap(
            profile.context_window,
        ),
{
}

/// Whether no breakpoint has more tokens than the total.
pub open spec fn covers_breakpoints(profile: ProfileModel) -> bool {
    forall|i: int|
        0 <= i < profile.breakpoints.len() ==> (
        #[trigger] profile.breakpoints[i]).cumulative_tokens <= profile.total_input_tokens
}

/// The total of a request's profile is never less than the tokens up to a breakpoint, and
/// no estimate makes it so.
pub proof fn law_total_covers_breakpoints(
    row: Seq<BlockModel>,
    model: Seq<char>,
    context_window: int,
    estimated: int,
)
    requires
        blocks::all_sound(row),
        profile_of(row, model, context_window) is Some,
    ensures
        covers_breakpoints(profile_of(row, model, context_window)->0),
        covers_breakpoints(raised(profile_of(row, model, context_window)->0, estimated)),
{
    law_breakpoints_ascend(row);
    let profile = profile_of(row, model, context_window)->0;
    assert forall|i: int| 0 <= i < profile.breakpoints.len() implies (
    #[trigger] profile.breakpoints[i]).cumulative_tokens <= profile.total_input_tokens by {
        assert(within(breakpoints_of(row)[i], total_tokens(row)));
    }
    let higher = raised(profile, estimated);
    assert forall|i: int| 0 <= i < higher.breakpoints.len() implies (
    #[trigger] higher.breakpoints[i]).cumulative_tokens <= higher.total_input_tokens by {
        assert(profile.breakpoints[i].cumulative_tokens <= profile.total_input_tokens);
    }
}

/// Billing headers never break a hit: two requests that are equal once all billing headers
/// are removed from their system prompts have the same profile, or both have none.
pub proof fn law_billing_headers_keep_the_profile(
    a: RequestModel,
    b: RequestModel,
    context_window: int,
)
    requires
        blocks::unbilled(a) == blocks::unbilled(b),
    ensures
        profile_of(blocks::flattened(a), a.model, context_window) == profile_of(
            blocks::flattened(b),
            b.model,
            context_window,
        ),
        total_tokens(blocks::flattened(a)) == total_tokens(blocks::flattened(b)),
{
    blocks::law_billing_headers_never_matter(a, b);
    assert(blocks::unbilled(a).model == a.model && blocks::unbilled(b).model == b.model);
}

/// Whether the prefix that ends with a block can be cached: the block has a life of its
/// own, or it ends a message and some block before it has one.
pub open spec fn ends_prefix(row: Seq<BlockModel>, at: int) -> bool {
    &&& 0 <= at < row.len()
    &&& row[at].ttl > 0 || (row[at].is_message_end && exists|i: int|
        0 <= i < at && (#[trigger] row[i]).ttl > 0)
}

/// Whether a block is the last one with a life of its own, up to and with another.
pub open spec fn is_last_explicit(row: Seq<BlockModel>, explicit: int, at: int) -> bool {
    &&& 0 <= explicit <= at < row.len()
    &&& row[explicit].ttl > 0
    &&& forall|j: int| explicit < j <= at ==> (#[trigger] row[j]).ttl == 0
}

/// The bytes that a row of blocks is hashed over: for each block the number of bytes in its
/// text, in decimal, a zero byte, the text, a zero byte.
pub open spec fn hashed(row: Seq<BlockModel>) -> Seq<u8> {
    row.fold_left(
        Seq::<u8>::empty(),
        |bytes: Seq<u8>, block: BlockModel|
            bytes + vstd::utf8::encode_utf8(
                text::decimal(vstd::utf8::encode_utf8(block.canonical).len()),
            ) + seq![0u8] + vstd::utf8::encode_utf8(block.canonical) + seq![0u8],
    )
}

/// The tokens of a row of blocks, added up.
pub open spec fn added_up(row: Seq<BlockModel>) -> int {
    row.fold_left(0int, |sum: int, block: BlockModel| sum + block.tokens)
}

proof fn lemma_hashed(row: Seq<BlockModel>)
    ensures
        fingerprint::frames(texts(row)) == hashed(row),
        total_tokens(row) == added_up(row),
    decreases row.len(),
{
    if row.len() == 0 {
        assert(texts(row) =~= Seq::<Seq<char>>::empty());
    } else {
        lemma_hashed(row.drop_last());
        assert(texts(row).drop_last() =~= texts(row.drop_last()));
        assert(texts(row).last() == row.last().canonical);
        assert(fingerprint::frames(texts(row)) =~= hashed(row));
    }
}

proof fn lemma_active(row: Seq<BlockModel>)
    ensures
        active_ttl(row) > 0 <==> exists|i: int| 0 <= i < row.len() && (#[trigger] row[i]).ttl > 0,
        forall|explicit: int| #[trigger]
            is_last_explicit(row, explicit, row.len() - 1) ==> active_ttl(row) == row[explicit].ttl,
    decreases row.len(),
{
    if row.len() > 0 {
        let front = row.drop_last();
        let n = row.len() - 1;
        lemma_active(front);
        if active_ttl(row) > 0 {
            if row[n].ttl == 0 {
                let i = choose|i: int| 0 <= i < front.len() && (#[trigger] front[i]).ttl > 0;
                assert(row[i].ttl > 0);
            }
        }
        if exists|i: int| 0 <= i < row.len() && (#[trigger] row[i]).ttl > 0 {
            let i = choose|i: int| 0 <= i < row.len() && (#[trigger] row[i]).ttl > 0;
            if i < n {
                assert(front[i].ttl > 0);
            }
        }
        assert forall|explicit: int| #[trigger] is_last_explicit(row, explicit, n) implies active_ttl(
            row,
        ) == row[explicit].ttl by {
            if explicit < n {
                assert(row[n].ttl == 0);
                assert forall|j: int| explicit < j <= n - 1 implies (#[trigger] front[j]).ttl == 0 by {
                    assert(row[j] == front[j]);
                }
                assert(front[explicit] == row[explicit]);
                assert(is_last_explicit(front, explicit, n - 1));
            }
        }
    }
}

/// The life of a prefix is that of the last explicit block in it, wherever that block
/// stands; a prefix has a life exactly where it can be cached.
proof fn lemma_prefix_ttl(row: Seq<BlockModel>)
    requires
        row.len() > 0,
    ensures
        prefix_ttl(row) > 0 <==> ends_prefix(row, row.len() - 1),
        prefix_ttl(row) > 0 ==> forall|explicit: int| #[trigger]
            is_last_explicit(row, explicit, row.len() - 1) ==> prefix_ttl(row) == row[explicit].ttl,
{
    let front = row.drop_last();
    let n = row.len() - 1;
    lemma_active(front);
    lemma_active(row);
    if prefix_ttl(row) > 0 && row[n].ttl == 0 {
        let i = choose|i: int| 0 <= i < front.len() && (#[trigger] front[i]).ttl > 0;
        assert(row[i].ttl > 0);
    }
    if ends_prefix(row, n) && row[n].ttl == 0 {
        let i = choose|i: int| 0 <= i < n && (#[trigger] row[i]).ttl > 0;
        assert(front[i].ttl > 0);
    }
}

/// The breakpoints of a row of blocks are those of its prefixes that can be cached, each
/// once and in order. After a block with a life of its own, each block that ends a message
/// is one, whether or not the explicit block ends a message itself. The life of a
/// breakpoint is that of the last explicit block up to it, its tokens are those of the
/// prefix added up, and its fingerprint is the digest of the prefix's texts.
pub proof fn law_breakpoints_are_exact(row: Seq<BlockModel>) -> (ends: Seq<int>)
    ensures
        ends.len() == breakpoints_of(row).len(),
        forall|k: int, l: int|
            0 <= k < l < ends.len() ==> #[trigger] ends[k] < #[trigger] ends[l],
        forall|at: int| #[trigger] ends_prefix(row, at) <==> ends.contains(at),
        forall|k: int|
            0 <= k < ends.len() ==> {
                let at = #[trigger] ends[k];
                let breakpoint = breakpoints_of(row)[k];
                &&& 0 <= at < row.len()
                &&& breakpoint.cumulative_tokens == added_up(row.take(at + 1))
                &&& breakpoint.fingerprint == fingerprint::sha256_digest(hashed(row.take(at + 1)))
                &&& forall|explicit: int| #[trigger]
                    is_last_explicit(row, explicit, at) ==> breakpoint.ttl == row[explicit].ttl
                &&& breakpoint.ttl > 0
            },
    decreases row.len(),
{
    if row.len() == 0 {
        let ends: Seq<int> = Seq::empty();
        assert forall|at: int| #[trigger] ends_prefix(row, at) <==> ends.contains(at) by {
        }
        ends
    } else {
        let front = row.drop_last();
        let n = row.len() - 1;
        let before = law_breakpoints_are_exact(front);
        lemma_prefix_ttl(row);
        lemma_hashed(row);
        assert(row.take(n + 1) == row);
        let ends = if ends_prefix(row, n) {
            before.push(n)
        } else {
            before
        };
        assert forall|at: int| 0 <= at < n implies (ends_prefix(row, at) <==> #[trigger] ends_prefix(
            front,
            at,
        )) by {
            lemma_ends_in_front(row, at);
        }
        assert forall|k: int| 0 <= k < before.len() implies 0 <= #[trigger] before[k] < n by {
            assert(0 <= before[k] < front.len());
        }
        assert forall|at: int| #[trigger] ends_prefix(row, at) <==> ends.contains(at) by {
            if ends_prefix(row, at) {
                if at < n {
                    assert(ends_prefix(front, at));
                    assert(before.contains(at));
                    let k = before.index_of(at);
                    assert(ends[k] == at);
                } else {
                    assert(ends[before.len() as int] == n);
                }
            }
            if ends.contains(at) {
                let k = ends.index_of(at);
                if k < before.len() {
                    assert(before[k] == at);
                    assert(before.contains(at));
                    assert(ends_prefix(front, at));
                }
            }
        }
        assert forall|k: int| 0 <= k < ends.len() implies {
            let at = #[trigger] ends[k];
            let breakpoint = breakpoints_of(row)[k];
            &&& 0 <= at < row.len()
            &&& breakpoint.cumulative_tokens == added_up(row.take(at + 1))
            &&& breakpoint.fingerprint == fingerprint::sha256_digest(hashed(row.take(at + 1)))
            &&& forall|explicit: int| #[trigger]
                is_last_explicit(row, explicit, at) ==> breakpoint.ttl == row[explicit].ttl
            &&& breakpoint.ttl > 0
        } by {
            if k < before.len() {
                let at = before[k];
                assert(ends[k] == at);
                assert(breakpoints_of(row)[k] == breakpoints_of(front)[k]);
                assert(front.take(at + 1) == row.take(at + 1));
                assert forall|explicit: int| #[trigger]
                    is_last_explicit(row, explicit, at) implies breakpoints_of(row)[k].ttl
                    == row[explicit].ttl by {
                    assert forall|j: int| explicit < j <= at implies (#[trigger] front[j]).ttl == 0 by {
                        assert(row[j] == front[j]);
                    }
                    assert(front[explicit] == row[explicit]);
                    assert(is_last_explicit(front, explicit, at));
                }
            }
        }
        ends
    }
}

proof fn lemma_ends_in_front(row: Seq<BlockModel>, at: int)
    requires
        0 <= at < row.len() - 1,
    ensures
        ends_prefix(row, at) == ends_prefix(row.drop_last(), at),
{
    let front = row.drop_last();
    if exists|i: int| 0 <= i < at && (#[trigger] row[i]).ttl > 0 {
        let i = choose|i: int| 0 <= i < at && (#[trigger] row[i]).ttl > 0;
        assert(front[i].ttl > 0);
    }
    if exists|i: int| 0 <= i < at && (#[trigger] front[i]).ttl > 0 {
        let i = choose|i: int| 0 <= i < at && (#[trigger] front[i]).ttl > 0;
        assert(row[i].ttl > 0);
    }
}

/// A row of blocks has a profile exactly where some block has a life of its own. The
/// profile names the model and the window, its total is that of the blocks and its
/// breakpoints are theirs, each cut down to the window, which is never taken for smaller
/// than 1024 tokens.
pub proof fn law_profile_is_exact(row: Seq<BlockModel>, model: Seq<char>, context_window: int)
    ensures
        profile_of(row, model, context_window) is Some <==> exists|i: int|
            0 <= i < row.len() && (#[trigger] row[i]).ttl > 0,
        profile_of(row, model, context_window) is Some ==> {
            let profile = profile_of(row, model, context_window)->0;
            let cap = if context_window < 1024 {
                1024
            } else {
                context_window
            };
            &&& profile.model == model
            &&& profile.context_window == context_window
            &&& profile.total_input_tokens == (if added_up(row) <= cap {
                added_up(row)
            } else {
                cap
            })
            &&& profile.breakpoints.len() == breakpoints_of(row).len()
            &&& forall|k: int|
                0 <= k < profile.breakpoints.len() ==> {
                    let exact = breakpoints_of(row)[k];
                    let shown = #[trigger] profile.breakpoints[k];
                    &&& shown.fingerprint == exact.fingerprint
                    &&& shown.ttl == exact.ttl
                    &&& shown.cumulative_tokens == (if exact.cumulative_tokens <= cap {
                        exact.cumulative_tokens
                    } else {
                        cap
                    })
                }
        },
{
    let ends = law_breakpoints_are_exact(row);
    lemma_hashed(row);
    if exists|i: int| 0 <= i < row.len() && (#[trigger] row[i]).ttl > 0 {
        let i = choose|i: int| 0 <= i < row.len() && (#[trigger] row[i]).ttl > 0;
        assert(ends_prefix(row, i));
        assert(ends.contains(i));
    }
    if ends.len() > 0 {
        let at = ends[0];
        assert(ends.contains(at));
        assert(ends_prefix(row, at));
        if row[at].ttl == 0 {
            let i = choose|i: int| 0 <= i < at && (#[trigger] row[i]).ttl > 0;
            assert(row[i].ttl > 0);
        }
    }
}

/// Cutting a profile down to its window takes the smaller of the tokens and the window, of
/// the total and of each breakpoint, and changes nothing else. The window is never taken
/// for smaller than 1024 tokens.
pub proof fn law_cutting_is_exact(profile: ProfileModel)
    ensures
        ({
            let cap = if profile.context_window < 1024 {
                1024
            } else {
                profile.context_window
            };
            let shown = capped(profile);
            &&& window_cap(profile.context_window) == cap
            &&& shown.model == profile.model
            &&& shown.context_window == profile.context_window
            &&& shown.total_input_tokens <= profile.total_input_tokens
            &&& shown.total_input_tokens <= cap
            &&& shown.total_input_tokens == profile.total_input_tokens || shown.total_input_tokens
                == cap
            &&& shown.breakpoints.len() == profile.breakpoints.len()
            &&& forall|i: int|
                0 <= i < profile.breakpoints.len() ==> {
                    let before = profile.breakpoints[i];
                    let after = #[trigger] shown.breakpoints[i];
                    &&& after.fingerprint == before.fingerprint
                    &&& after.ttl == before.ttl
                    &&& after.cumulative_tokens <= before.cumulative_tokens
                    &&& after.cumulative_tokens <= cap
                    &&& after.cumulative_tokens == before.cumulative_tokens
                        || after.cumulative_tokens == cap
                }
        }),
{
}

/// An estimate raises the total as far as the window allows, and never lowers it but to the
/// window: the total becomes the larger of the two within the window. All else is as the
/// window alone has it.
pub proof fn law_raising_is_exact(profile: ProfileModel, estimated: int)
    requires
        profile.total_input_tokens >= 0,
    ensures
        ({
            let cap = if profile.context_window < 1024 {
                1024
            } else {
                profile.context_window
            };
            let shown = raised(profile, estimated);
            &&& shown.total_input_tokens <= cap
            &&& shown.total_input_tokens == cap || (shown.total_input_tokens >= estimated
                && shown.total_input_tokens >= profile.total_input_tokens)
            &&& shown.total_input_tokens <= estimated || shown.total_input_tokens
                <= profile.total_input_tokens
            &&& shown.breakpoints == capped(profile).breakpoints
            &&& shown.model == profile.model
            &&& shown.context_window == profile.context_window
        }),
{
}

/// The tokens of a row of blocks add up: those of two rows together are those of each.
pub proof fn law_tokens_add_up(front: Seq<BlockModel>, block: BlockModel)
    ensures
        total_tokens(Seq::empty()) == 0,
        total_tokens(front.push(block)) == total_tokens(front) + block.tokens,
{
    assert(front.push(block).drop_last() =~= front);
}

/// The threshold goes by the name in lower case: 4096 tokens where `opus` is in it
/// somewhere, else 1024.
pub proof fn law_thresholds_are_exact(lowered: Seq<char>)
    ensures
        (exists|i: int|
            0 <= i <= lowered.len() - 4 && #[trigger] lowered.subrange(i, i + 4) == "opus"@)
            ==> min_tokens_for(lowered) == 4096,
        !(exists|i: int|
            0 <= i <= lowered.len() - 4 && #[trigger] lowered.subrange(i, i + 4) == "opus"@)
            ==> min_tokens_for(lowered) == 1024,
{
    reveal_strlit("opus");
    assert("opus"@.len() == 4);
    text::law_searching_is_exact(lowered, "opus"@);
    if text::holds(lowered, "opus"@) {
        let at = choose|at: int|
            0 <= at <= lowered.len() - "opus"@.len() && #[trigger] lowered.subrange(
                at,
                at + "opus"@.len(),
            ) == "opus"@;
        assert(lowered.subrange(at, at + 4) == "opus"@);
    }
    if exists|i: int|
        0 <= i <= lowered.len() - 4 && #[trigger] lowered.subrange(i, i + 4) == "opus"@ {
        let i = choose|i: int|
            0 <= i <= lowered.len() - 4 && #[trigger] lowered.subrange(i, i + 4) == "opus"@;
        assert(lowered.subrange(i, i + "opus"@.len()) == "opus"@);
    }
}

/// A profile is seen as it is: its total, its model and its window, and each breakpoint at
/// its place, with its fingerprint, tokens and life.
pub proof fn law_profiles_are_seen_whole(profile: PromptCacheProfile)
    ensures
        profile@.total_input_tokens == profile.total_input_tokens,
        profile@.model == profile.model@,
        profile@.context_window == profile.context_window,
        profile@.breakpoints.len() == profile.breakpoints.len(),
        forall|i: int|
            0 <= i < profile.breakpoints.len() ==> {
                let seen = #[trigger] profile@.breakpoints[i];
                &&& seen.fingerprint == profile.breakpoints[i].fingerprint@
                &&& seen.cumulative_tokens == profile.breakpoints[i].cumulative_tokens
                &&& seen.ttl == profile.breakpoints[i].ttl
            },
        optional_profile(Some(profile)) == Some(profile@),
        optional_profile(None) is None,
{
}

}
