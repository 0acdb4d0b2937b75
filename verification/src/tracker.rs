//! The cache tracker: which prefixes an account has cached, and what a request uses of
//! them.

use vstd::prelude::*;

use crate::blocks;
use crate::blocks::{
    CacheableBlock, MessageModel, MessagesRequest, RequestModel, flatten_claude_cache_blocks,
};
use crate::numbers;
use crate::numbers::min_of;
use crate::profile;
use crate::profile::{
    BreakpointModel, ProfileModel, PromptCacheBreakpoint, PromptCacheProfile, count_tokens,
    min_cacheable_tokens_for_model, profile_from_blocks,
};
use crate::text;
use crate::ttl::{LONGEST_SPAN, ONE_HOUR};

verus! {

/// What a request uses of the prompt cache, in tokens.
#[derive(Debug, Clone, Copy, PartialEq, Eq, Structural)]
pub struct PromptCacheUsage {
    pub cache_creation_input_tokens: i32,
    pub cache_read_input_tokens: i32,
    pub cache_creation_5m_input_tokens: i32,
    pub cache_creation_1h_input_tokens: i32,
}

impl Default for PromptCacheUsage {
    /// No use of the cache.
    fn default() -> (usage: PromptCacheUsage)
        ensures
            usage@ == no_usage(),
    {
        PromptCacheUsage {
            cache_creation_input_tokens: 0,
            cache_read_input_tokens: 0,
            cache_creation_5m_input_tokens: 0,
            cache_creation_1h_input_tokens: 0,
        }
    }
}

/// What a request uses of the prompt cache.
pub struct UsageModel {
    pub creation: int,
    pub read: int,
    pub creation_5m: int,
    pub creation_1h: int,
}

impl View for PromptCacheUsage {
    type V = UsageModel;

    open spec fn view(&self) -> UsageModel {
        UsageModel {
            creation: self.cache_creation_input_tokens as int,
            read: self.cache_read_input_tokens as int,
            creation_5m: self.cache_creation_5m_input_tokens as int,
            creation_1h: self.cache_creation_1h_input_tokens as int,
        }
    }
}

/// No use of the cache.
pub open spec fn no_usage() -> UsageModel {
    UsageModel { creation: 0, read: 0, creation_5m: 0, creation_1h: 0 }
}

/// A cached prefix of an account: until when it lives, and for how long each use keeps it
/// alive, in nanoseconds.
#[derive(Debug, Clone, Copy)]
pub struct PromptCacheEntry {
    pub account_id: u64,
    pub fingerprint: [u8; 32],
    pub expires_at: u128,
    pub ttl: u128,
}

/// The times of a cached prefix.
pub struct EntryModel {
    pub expires_at: nat,
    pub ttl: nat,
}

/// The cached prefixes, by account and fingerprint.
pub type Table = Map<(u64, Seq<u8>), EntryModel>;

/// The account and the fingerprint of an entry.
pub open spec fn key_of(entry: PromptCacheEntry) -> (u64, Seq<u8>) {
    (entry.account_id, entry.fingerprint@)
}

/// The times of an entry.
pub open spec fn times_of(entry: PromptCacheEntry) -> EntryModel {
    EntryModel { expires_at: entry.expires_at as nat, ttl: entry.ttl as nat }
}

/// The cached prefixes in a list of entries.
pub open spec fn table_of(entries: Seq<PromptCacheEntry>) -> Table
    decreases entries.len(),
{
    if entries.len() == 0 {
        Map::empty()
    } else {
        table_of(entries.drop_last()).insert(key_of(entries.last()), times_of(entries.last()))
    }
}

/// Whether no prefix of an account is listed twice, and all lives can be counted.
pub open spec fn entries_valid(entries: Seq<PromptCacheEntry>) -> bool {
    &&& forall|i: int, j: int|
        0 <= i < j < entries.len() ==> key_of(#[trigger] entries[i]) != key_of(#[trigger] entries[j])
    &&& forall|i: int| 0 <= i < entries.len() ==> (#[trigger] entries[i]).ttl <= LONGEST_SPAN
}

/// The entries of a list are what its table holds.
proof fn lemma_table(entries: Seq<PromptCacheEntry>)
    requires
        entries_valid(entries),
    ensures
        forall|i: int|
            0 <= i < entries.len() ==> table_of(entries).contains_key(
                key_of(#[trigger] entries[i]),
            ) && table_of(entries)[key_of(entries[i])] == times_of(entries[i]),
        forall|key: (u64, Seq<u8>)| #[trigger]
            table_of(entries).contains_key(key) ==> exists|i: int|
                0 <= i < entries.len() && key_of(#[trigger] entries[i]) == key,
    decreases entries.len(),
{
    if entries.len() > 0 {
        let front = entries.drop_last();
        assert forall|i: int, j: int| 0 <= i < j < front.len() implies key_of(
            #[trigger] front[i],
        ) != key_of(#[trigger] front[j]) by {
            assert(front[i] == entries[i] && front[j] == entries[j]);
        }
        assert forall|i: int| 0 <= i < front.len() implies (#[trigger] front[i]).ttl
            <= LONGEST_SPAN by {
            assert(front[i] == entries[i]);
        }
        lemma_table(front);
        assert forall|i: int| 0 <= i < entries.len() implies table_of(entries).contains_key(
            key_of(#[trigger] entries[i]),
        ) && table_of(entries)[key_of(entries[i])] == times_of(entries[i]) by {
            if i < front.len() {
                assert(front[i] == entries[i]);
                assert(key_of(entries[i]) != key_of(entries[entries.len() - 1]));
            }
        }
        assert forall|key: (u64, Seq<u8>)| #[trigger] table_of(entries).contains_key(
            key,
        ) implies exists|i: int| 0 <= i < entries.len() && key_of(#[trigger] entries[i]) == key by {
            if key == key_of(entries.last()) {
                assert(key_of(entries[entries.len() - 1]) == key);
            } else {
                assert(table_of(front).contains_key(key));
                let i = choose|i: int| 0 <= i < front.len() && key_of(#[trigger] front[i]) == key;
                assert(entries[i] == front[i]);
            }
        }
    }
}

/// The cached prefixes that are alive.
pub open spec fn live(table: Table, now: nat) -> Table {
    Map::new(
        |key: (u64, Seq<u8>)| table.contains_key(key) && table[key].expires_at > now,
        |key: (u64, Seq<u8>)| table[key],
    )
}

/// The most tokens that are reported as cached: 85 percent of the total.
pub open spec fn max_reportable(total_input_tokens: int) -> int {
    numbers::larger(total_input_tokens, 0) * 17 / 20
}

/// The most tokens that are reported as cached. The product of the total and 0.85 in
/// floating point, cut down to an integer, is this integer for every total.
pub fn max_reportable_cache_tokens(total_input_tokens: i32) -> (tokens: i32)
    ensures
        tokens == max_reportable(total_input_tokens as int),
{
    if total_input_tokens <= 0 {
        0
    } else {
        ((total_input_tokens as i64) * 17 / 20) as i32
    }
}

/// The last breakpoint with enough tokens to be cached; -1 where there is none.
pub open spec fn last_qualifying(breakpoints: Seq<BreakpointModel>, min_tokens: int) -> int
    decreases breakpoints.len(),
{
    if breakpoints.len() == 0 {
        -1
    } else if breakpoints.last().cumulative_tokens >= min_tokens {
        breakpoints.len() - 1
    } else {
        last_qualifying(breakpoints.drop_last(), min_tokens)
    }
}

/// The last breakpoint with enough tokens whose prefix is cached for the account; -1 where
/// there is none.
pub open spec fn last_cached(
    breakpoints: Seq<BreakpointModel>,
    min_tokens: int,
    table: Table,
    account_id: u64,
) -> int
    decreases breakpoints.len(),
{
    if breakpoints.len() == 0 {
        -1
    } else if breakpoints.last().cumulative_tokens >= min_tokens && table.contains_key(
        (account_id, breakpoints.last().fingerprint),
    ) {
        breakpoints.len() - 1
    } else {
        last_cached(breakpoints.drop_last(), min_tokens, table, account_id)
    }
}

/// The tokens up to a breakpoint, within the total and a limit.
pub open spec fn tokens_up_to(breakpoint: BreakpointModel, total: int, limit: int) -> int {
    numbers::smaller(numbers::smaller(breakpoint.cumulative_tokens, total), limit)
}

/// The tokens that a request has cached in the end, where prefixes with at least
/// `min_tokens` are cached: those up to its last breakpoint that qualifies, within 85
/// percent of the total.
pub open spec fn cacheable_above(profile: ProfileModel, min_tokens: int) -> int {
    let last = last_qualifying(profile.breakpoints, min_tokens);
    if last < 0 {
        0
    } else {
        tokens_up_to(
            profile.breakpoints[last],
            profile.total_input_tokens,
            max_reportable(profile.total_input_tokens),
        )
    }
}

/// The tokens that a request has cached in the end.
pub open spec fn cacheable_tokens(profile: ProfileModel) -> int {
    cacheable_above(profile, profile::min_cacheable(profile.model))
}

/// How newly cached tokens are split by the life of their breakpoints: the tokens reached,
/// those that live for five minutes, those that live for an hour.
pub struct Split {
    pub reached: int,
    pub five_minutes: int,
    pub one_hour: int,
}

/// Splits the tokens beyond `matched` by the breakpoint that first reaches them, as far as
/// `cap`; only breakpoints that qualify count.
pub open spec fn split_by_life(
    breakpoints: Seq<BreakpointModel>,
    total: int,
    matched: int,
    cap: int,
    min_tokens: int,
) -> Split
    decreases breakpoints.len(),
{
    if breakpoints.len() == 0 {
        Split { reached: matched, five_minutes: 0, one_hour: 0 }
    } else {
        let front = split_by_life(breakpoints.drop_last(), total, matched, cap, min_tokens);
        let breakpoint = breakpoints.last();
        let current = tokens_up_to(breakpoint, total, cap);
        if breakpoint.cumulative_tokens < min_tokens || current <= front.reached {
            front
        } else if breakpoint.ttl >= ONE_HOUR {
            Split {
                reached: current,
                one_hour: front.one_hour + (current - front.reached),
                ..front
            }
        } else {
            Split {
                reached: current,
                five_minutes: front.five_minutes + (current - front.reached),
                ..front
            }
        }
    }
}

/// The tokens that a request reads from the cache of an account, where prefixes with at
/// least `min_tokens` are cached.
pub open spec fn read_above(
    profile: ProfileModel,
    table: Table,
    account_id: u64,
    now: nat,
    min_tokens: int,
) -> int {
    let hit = last_cached(profile.breakpoints, min_tokens, live(table, now), account_id);
    if hit < 0 {
        0
    } else {
        tokens_up_to(
            profile.breakpoints[hit],
            profile.total_input_tokens,
            cacheable_above(profile, min_tokens),
        )
    }
}

/// What a request uses of the cache of an account, where prefixes with at least
/// `min_tokens` are cached. What lies before the last cached breakpoint is read, the rest
/// up to the last breakpoint is created; a request without a breakpoint that qualifies
/// uses nothing.
pub open spec fn usage_above(
    profile: ProfileModel,
    table: Table,
    account_id: u64,
    now: nat,
    min_tokens: int,
) -> UsageModel {
    if last_qualifying(profile.breakpoints, min_tokens) < 0 {
        no_usage()
    } else {
        let cap = cacheable_above(profile, min_tokens);
        let read = read_above(profile, table, account_id, now, min_tokens);
        let split = split_by_life(
            profile.breakpoints,
            profile.total_input_tokens,
            read,
            cap,
            min_tokens,
        );
        UsageModel {
            creation: cap - read,
            read,
            creation_5m: split.five_minutes,
            creation_1h: split.one_hour,
        }
    }
}

/// What a request uses of the cache of an account.
pub open spec fn computed_usage(
    profile: ProfileModel,
    table: Table,
    account_id: u64,
    now: nat,
) -> UsageModel {
    usage_above(profile, table, account_id, now, profile::min_cacheable(profile.model))
}

/// The cached prefixes after a request was counted, where prefixes with at least
/// `min_tokens` are cached: dead ones are gone, and the one that was read lives on.
pub open spec fn table_above(
    profile: ProfileModel,
    table: Table,
    account_id: u64,
    now: nat,
    min_tokens: int,
) -> Table {
    let alive = live(table, now);
    let hit = last_cached(profile.breakpoints, min_tokens, alive, account_id);
    if last_qualifying(profile.breakpoints, min_tokens) < 0 {
        table
    } else if hit < 0 {
        alive
    } else {
        let key = (account_id, profile.breakpoints[hit].fingerprint);
        alive.insert(key, EntryModel { expires_at: now + alive[key].ttl, ttl: alive[key].ttl })
    }
}

/// The cached prefixes after a request was counted.
pub open spec fn computed_table(
    profile: ProfileModel,
    table: Table,
    account_id: u64,
    now: nat,
) -> Table {
    table_above(profile, table, account_id, now, profile::min_cacheable(profile.model))
}

/// The cached prefixes once breakpoints are stored in a table; only those that qualify are.
pub open spec fn stored(
    table: Table,
    breakpoints: Seq<BreakpointModel>,
    min_tokens: int,
    account_id: u64,
    now: nat,
) -> Table
    decreases breakpoints.len(),
{
    if breakpoints.len() == 0 {
        table
    } else {
        let front = stored(table, breakpoints.drop_last(), min_tokens, account_id, now);
        let breakpoint = breakpoints.last();
        if breakpoint.cumulative_tokens < min_tokens {
            front
        } else {
            front.insert(
                (account_id, breakpoint.fingerprint),
                EntryModel { expires_at: now + breakpoint.ttl, ttl: breakpoint.ttl },
            )
        }
    }
}

/// The cached prefixes after a request succeeded, where prefixes with at least
/// `min_tokens` are cached: dead ones are gone, and its breakpoints are stored.
pub open spec fn stored_above(
    profile: ProfileModel,
    table: Table,
    account_id: u64,
    now: nat,
    min_tokens: int,
) -> Table {
    if profile.breakpoints.len() == 0 {
        table
    } else {
        stored(live(table, now), profile.breakpoints, min_tokens, account_id, now)
    }
}

/// The cached prefixes after a request succeeded.
pub open spec fn updated_table(
    profile: ProfileModel,
    table: Table,
    account_id: u64,
    now: nat,
) -> Table {
    stored_above(profile, table, account_id, now, profile::min_cacheable(profile.model))
}

/// Whether two fingerprints are the same.
fn same_fingerprint(a: &[u8; 32], b: &[u8; 32]) -> (same: bool)
    ensures
        same == (a@ == b@),
{
    let mut i: usize = 0;
    while i < 32
        invariant
            i <= 32,
            forall|k: int| 0 <= k < i ==> a@[k] == b@[k],
        decreases 32 - i,
    {
        if a[i] != b[i] {
            return false;
        }
        i += 1;
    }
    proof {
        assert(a@ =~= b@);
    }
    true
}

/// Where an account's prefix is listed.
fn position(entries: &Vec<PromptCacheEntry>, account_id: u64, fingerprint: &[u8; 32]) -> (at: Option<
    usize,
>)
    requires
        entries_valid(entries@),
    ensures
        match at {
            Some(at) => at < entries.len() && key_of(entries@[at as int]) == (
                account_id,
                fingerprint@,
            ) && table_of(entries@).contains_key((account_id, fingerprint@)),
            None => !table_of(entries@).contains_key((account_id, fingerprint@)),
        },
{
    proof {
        lemma_table(entries@);
    }
    let mut i: usize = 0;
    while i < entries.len()
        invariant
            i <= entries.len(),
            entries_valid(entries@),
            forall|k: int|
                0 <= k < i ==> key_of(#[trigger] entries@[k]) != (account_id, fingerprint@),
        decreases entries.len() - i,
    {
        if entries[i].account_id == account_id && same_fingerprint(
            &entries[i].fingerprint,
            fingerprint,
        ) {
            proof {
                lemma_table(entries@);
            }
            return Some(i);
        }
        i += 1;
    }
    None
}

/// Drops the entries that have expired.
pub fn prune_expired(entries: &mut Vec<PromptCacheEntry>, now: u128)
    requires
        entries_valid(old(entries)@),
    ensures
        entries_valid(final(entries)@),
        table_of(final(entries)@) == live(table_of(old(entries)@), now as nat),
        forall|i: int| 0 <= i < final(entries).len() ==> (#[trigger] final(entries)@[i]).expires_at > now,
{
    let ghost all = entries@;
    let mut kept: Vec<PromptCacheEntry> = Vec::new();
    let mut i: usize = 0;
    proof {
        assert(all.take(0) == Seq::<PromptCacheEntry>::empty());
        assert(table_of(kept@) =~= live(table_of(all.take(0)), now as nat));
    }
    while i < entries.len()
        invariant
            i <= entries.len(),
            entries@ == all,
            entries_valid(all),
            entries_valid(kept@),
            table_of(kept@) == live(table_of(all.take(i as int)), now as nat),
            forall|k: int|
                0 <= k < kept.len() ==> exists|j: int| 0 <= j < i && #[trigger] kept@[k] == all[j],
            forall|k: int| 0 <= k < kept.len() ==> (#[trigger] kept@[k]).expires_at > now,
        decreases entries.len() - i,
    {
        let entry: PromptCacheEntry = entries[i];
        let ghost front = table_of(all.take(i as int));
        let ghost before = kept@;
        proof {
            assert(all.take(i + 1).drop_last() == all.take(i as int));
            assert(all.take(i + 1).last() == entry);
            let part = all.take(i as int);
            assert forall|x: int, y: int| 0 <= x < y < part.len() implies key_of(
                #[trigger] part[x],
            ) != key_of(#[trigger] part[y]) by {
                assert(part[x] == all[x] && part[y] == all[y]);
            }
            assert forall|x: int| 0 <= x < part.len() implies (#[trigger] part[x]).ttl
                <= LONGEST_SPAN by {
                assert(part[x] == all[x]);
            }
            lemma_table(part);
            assert(!front.contains_key(key_of(entry))) by {
                if front.contains_key(key_of(entry)) {
                    let j = choose|j: int|
                        0 <= j < part.len() && key_of(#[trigger] part[j]) == key_of(entry);
                    assert(key_of(all[j]) != key_of(all[i as int]));
                }
            }
        }
        if entry.expires_at > now {
            kept.push(entry);
            proof {
                assert(kept@.drop_last() == before);
                assert forall|x: int, y: int| 0 <= x < y < kept.len() implies key_of(
                    #[trigger] kept@[x],
                ) != key_of(#[trigger] kept@[y]) by {
                    if y == kept.len() - 1 {
                        let j = choose|j: int| 0 <= j < i && before[x] == all[j];
                        assert(before[x] == kept@[x]);
                        assert(key_of(all[j]) != key_of(all[i as int]));
                    } else {
                        assert(before[x] == kept@[x] && before[y] == kept@[y]);
                    }
                }
                assert forall|k: int| 0 <= k < kept.len() implies exists|j: int|
                    0 <= j < i + 1 && #[trigger] kept@[k] == all[j] by {
                    if k < before.len() {
                        assert(kept@[k] == before[k]);
                        let j = choose|j: int| 0 <= j < i && before[k] == all[j];
                        assert(kept@[k] == all[j]);
                    } else {
                        assert(kept@[k] == all[i as int]);
                    }
                }
                assert(table_of(kept@) =~= live(table_of(all.take(i + 1)), now as nat));
            }
        } else {
            proof {
                assert(table_of(kept@) =~= live(table_of(all.take(i + 1)), now as nat));
            }
        }
        i += 1;
    }
    proof {
        assert(all.take(i as int) == all);
    }
    *entries = kept;
}

/// New times for a listed prefix take the place of the old ones.
proof fn lemma_replace(entries: Seq<PromptCacheEntry>, at: int, entry: PromptCacheEntry)
    requires
        entries_valid(entries),
        0 <= at < entries.len(),
        key_of(entry) == key_of(entries[at]),
        entry.ttl <= LONGEST_SPAN,
    ensures
        entries_valid(entries.update(at, entry)),
        table_of(entries.update(at, entry)) == table_of(entries).insert(
            key_of(entry),
            times_of(entry),
        ),
{
    let next = entries.update(at, entry);
    assert forall|i: int, j: int| 0 <= i < j < next.len() implies key_of(#[trigger] next[i])
        != key_of(#[trigger] next[j]) by {
        assert(key_of(entries[i]) != key_of(entries[j]));
    }
    lemma_table(entries);
    lemma_table(next);
    let left = table_of(next);
    let right = table_of(entries).insert(key_of(entry), times_of(entry));
    assert forall|key: (u64, Seq<u8>)| left.contains_key(key) <==> right.contains_key(key) by {
        if left.contains_key(key) {
            let i = choose|i: int| 0 <= i < next.len() && key_of(#[trigger] next[i]) == key;
            assert(key_of(entries[i]) == key);
        }
        if right.contains_key(key) && key != key_of(entry) {
            assert(table_of(entries).contains_key(key));
            let i = choose|i: int| 0 <= i < entries.len() && key_of(#[trigger] entries[i]) == key;
            assert(next[i] == entries[i]);
        }
        assert(key_of(next[at]) == key_of(entry));
    }
    assert forall|key: (u64, Seq<u8>)| left.contains_key(key) implies left[key] == right[key] by {
        let i = choose|i: int| 0 <= i < next.len() && key_of(#[trigger] next[i]) == key;
        if i == at {
            assert(next[at] == entry);
        } else {
            assert(next[i] == entries[i]);
            assert(key_of(next[i]) != key_of(next[at]));
        }
    }
    assert(left =~= right);
}

/// A prefix that is not listed yet joins the list.
proof fn lemma_push(entries: Seq<PromptCacheEntry>, entry: PromptCacheEntry)
    requires
        entries_valid(entries),
        !table_of(entries).contains_key(key_of(entry)),
        entry.ttl <= LONGEST_SPAN,
    ensures
        entries_valid(entries.push(entry)),
        table_of(entries.push(entry)) == table_of(entries).insert(key_of(entry), times_of(entry)),
{
    let next = entries.push(entry);
    assert(next.drop_last() == entries);
    lemma_table(entries);
    assert forall|i: int, j: int| 0 <= i < j < next.len() implies key_of(#[trigger] next[i])
        != key_of(#[trigger] next[j]) by {
        if j == entries.len() {
            assert(next[i] == entries[i]);
            assert(table_of(entries).contains_key(key_of(entries[i])));
        } else {
            assert(next[i] == entries[i] && next[j] == entries[j]);
        }
    }
}

/// Splits the tokens beyond `matched` by the life of their breakpoints: five minutes, one
/// hour.
pub fn compute_ttl_breakdown(
    profile: &PromptCacheProfile,
    matched_tokens: i32,
    cap_tokens: i32,
    min_tokens: i32,
) -> (split: (i32, i32))
    requires
        matched_tokens >= 0,
    ensures
        ({
            let expected = split_by_life(
                profile@.breakpoints,
                profile@.total_input_tokens,
                matched_tokens as int,
                cap_tokens as int,
                min_tokens as int,
            );
            split.0 == expected.five_minutes && split.1 == expected.one_hour
        }),
{
    let ghost models = profile@.breakpoints;
    let mut cache_5m: i32 = 0;
    let mut cache_1h: i32 = 0;
    let mut previous: i32 = matched_tokens;
    let mut i: usize = 0;
    proof {
        assert(models.take(0) == Seq::<BreakpointModel>::empty());
    }
    while i < profile.breakpoints.len()
        invariant
            i <= profile.breakpoints.len(),
            models == profile@.breakpoints,
            0 <= matched_tokens <= previous,
            cache_5m >= 0,
            cache_1h >= 0,
            cache_5m + cache_1h == previous - matched_tokens,
            (Split {
                reached: previous as int,
                five_minutes: cache_5m as int,
                one_hour: cache_1h as int,
            }) == split_by_life(
                models.take(i as int),
                profile@.total_input_tokens,
                matched_tokens as int,
                cap_tokens as int,
                min_tokens as int,
            ),
        decreases profile.breakpoints.len() - i,
    {
        let breakpoint: &PromptCacheBreakpoint = &profile.breakpoints[i];
        proof {
            assert(models.take(i + 1).drop_last() == models.take(i as int));
            assert(models.take(i + 1).last() == breakpoint@);
        }
        if breakpoint.cumulative_tokens >= min_tokens {
            let current: i32 = min_of(
                min_of(breakpoint.cumulative_tokens, profile.total_input_tokens),
                cap_tokens,
            );
            if current > previous {
                let delta: i32 = current - previous;
                if breakpoint.ttl >= ONE_HOUR {
                    cache_1h = cache_1h + delta;
                } else {
                    cache_5m = cache_5m + delta;
                }
                previous = current;
            }
        }
        i += 1;
    }
    proof {
        assert(models.take(i as int) == models);
    }
    (cache_5m, cache_1h)
}

/// The split reaches no further than the cap, and adds up to what it reaches.
proof fn lemma_split(
    breakpoints: Seq<BreakpointModel>,
    total: int,
    matched: int,
    cap: int,
    min_tokens: int,
)
    requires
        matched <= cap,
    ensures
        ({
            let split = split_by_life(breakpoints, total, matched, cap, min_tokens);
            &&& split.five_minutes >= 0
            &&& split.one_hour >= 0
            &&& split.five_minutes + split.one_hour == split.reached - matched
            &&& matched <= split.reached <= cap
            &&& last_qualifying(breakpoints, min_tokens) >= 0 ==> split.reached >= tokens_up_to(
                breakpoints[last_qualifying(breakpoints, min_tokens)],
                total,
                cap,
            )
        }),
    decreases breakpoints.len(),
{
    if breakpoints.len() > 0 {
        lemma_split(breakpoints.drop_last(), total, matched, cap, min_tokens);
        lemma_last_qualifying(breakpoints.drop_last(), min_tokens);
    }
}

/// The last breakpoint that qualifies is one of the breakpoints, and qualifies; none
/// after it does.
proof fn lemma_last_qualifying(breakpoints: Seq<BreakpointModel>, min_tokens: int)
    ensures
        -1 <= last_qualifying(breakpoints, min_tokens) < breakpoints.len(),
        last_qualifying(breakpoints, min_tokens) >= 0 ==> breakpoints[last_qualifying(
            breakpoints,
            min_tokens,
        )].cumulative_tokens >= min_tokens,
        forall|i: int|
            last_qualifying(breakpoints, min_tokens) < i < breakpoints.len() ==> (
            #[trigger] breakpoints[i]).cumulative_tokens < min_tokens,
    decreases breakpoints.len(),
{
    if breakpoints.len() > 0 {
        let front = breakpoints.drop_last();
        lemma_last_qualifying(front, min_tokens);
        if breakpoints.last().cumulative_tokens < min_tokens {
            assert forall|i: int|
                last_qualifying(breakpoints, min_tokens) < i < breakpoints.len() implies (
            #[trigger] breakpoints[i]).cumulative_tokens < min_tokens by {
                if i < front.len() {
                    assert(front[i].cumulative_tokens < min_tokens);
                }
            }
        }
    }
}

/// The last cached breakpoint is one of the breakpoints, qualifies and is cached; none
/// after it is both.
proof fn lemma_last_cached(
    breakpoints: Seq<BreakpointModel>,
    min_tokens: int,
    table: Table,
    account_id: u64,
)
    ensures
        ({
            let hit = last_cached(breakpoints, min_tokens, table, account_id);
            &&& -1 <= hit < breakpoints.len()
            &&& hit >= 0 ==> breakpoints[hit].cumulative_tokens >= min_tokens && table.contains_key(
                (account_id, breakpoints[hit].fingerprint),
            )
            &&& forall|i: int|
                hit < i < breakpoints.len() && (#[trigger] breakpoints[i]).cumulative_tokens
                    >= min_tokens ==> !table.contains_key((account_id, breakpoints[i].fingerprint))
        }),
    decreases breakpoints.len(),
{
    if breakpoints.len() > 0 {
        let front = breakpoints.drop_last();
        lemma_last_cached(front, min_tokens, table, account_id);
        let hit = last_cached(breakpoints, min_tokens, table, account_id);
        if hit < breakpoints.len() - 1 {
            assert forall|i: int|
                hit < i < breakpoints.len() && (#[trigger] breakpoints[i]).cumulative_tokens
                    >= min_tokens implies !table.contains_key(
                (account_id, breakpoints[i].fingerprint),
            ) by {
                if i < front.len() {
                    assert(front[i] == breakpoints[i]);
                }
            }
        }
    }
}

/// The last cached breakpoint is known by what it is.
proof fn lemma_is_last_cached(
    breakpoints: Seq<BreakpointModel>,
    min_tokens: int,
    table: Table,
    account_id: u64,
    hit: int,
)
    requires
        -1 <= hit < breakpoints.len(),
        hit >= 0 ==> breakpoints[hit].cumulative_tokens >= min_tokens && table.contains_key(
            (account_id, breakpoints[hit].fingerprint),
        ),
        forall|i: int|
            hit < i < breakpoints.len() && (#[trigger] breakpoints[i]).cumulative_tokens
                >= min_tokens ==> !table.contains_key((account_id, breakpoints[i].fingerprint)),
    ensures
        last_cached(breakpoints, min_tokens, table, account_id) == hit,
{
    lemma_last_cached(breakpoints, min_tokens, table, account_id);
    let found = last_cached(breakpoints, min_tokens, table, account_id);
    if found < hit {
        assert(breakpoints[hit].cumulative_tokens >= min_tokens);
    } else if hit < found {
        assert(breakpoints[found].cumulative_tokens >= min_tokens);
    }
}

/// `std::time::Instant`, a reading of the monotonic clock.
#[verifier::external_type_specification]
#[verifier::external_body]
pub struct ExInstant(std::time::Instant);

/// Calls `std::time::Instant::now`. Nothing is claimed of the result: it is the time.
#[verifier::external_body]
fn instant_now() -> (instant: std::time::Instant) {
    std::time::Instant::now()
}

/// Calls `std::time::Instant::elapsed`, in nanoseconds. The result is the time, so it is
/// only claimed to be a span that a `std::time::Duration` can hold.
#[verifier::external_body]
fn elapsed_nanos(since: &std::time::Instant) -> (nanos: u128)
    ensures
        nanos <= LONGEST_SPAN,
{
    since.elapsed().as_nanos()
}

/// Keeps track of the prefixes that each account has cached.
#[derive(Debug)]
pub struct PromptCacheTracker {
    started: std::time::Instant,
    /// The latest time that was read, in nanoseconds from the start.
    latest: u128,
    entries: Vec<PromptCacheEntry>,
}

impl View for PromptCacheTracker {
    type V = Table;

    /// The cached prefixes. Times count from when the tracker was made.
    closed spec fn view(&self) -> Table {
        table_of(self.entries@)
    }
}

impl Default for PromptCacheTracker {
    /// A tracker of accounts that have cached nothing yet.
    fn default() -> (tracker: PromptCacheTracker)
        ensures
            tracker.valid(),
            tracker.clock() == 0,
            tracker@ == Table::empty(),
    {
        PromptCacheTracker { started: instant_now(), latest: 0, entries: Vec::new() }
    }
}

impl PromptCacheTracker {
    /// Whether no prefix of an account is listed twice, and all times can be counted.
    pub closed spec fn valid(&self) -> bool {
        entries_valid(self.entries@) && self.latest <= LONGEST_SPAN
    }

    /// The latest time that the tracker has read from the clock, in nanoseconds from when
    /// it was made.
    pub closed spec fn clock(&self) -> nat {
        self.latest as nat
    }

    /// The reading of the clock from which the tracker counts its times.
    pub closed spec fn time_base(&self) -> std::time::Instant {
        self.started
    }

    /// A tracker of accounts that have cached nothing yet.
    pub fn new() -> (tracker: PromptCacheTracker)
        ensures
            tracker.valid(),
            tracker.clock() == 0,
            tracker@ == Table::empty(),
    {
        Self::default()
    }

    /// Builds the caching profile of a request; none where the request marks nothing to be
    /// cached.
    pub fn build_claude_profile(&self, req: &MessagesRequest) -> (profile: Option<
        PromptCacheProfile,
    >)
        requires
            profile::total_tokens(blocks::flattened(req@)) <= i32::MAX,
        ensures
            profile::optional_profile(profile) == profile::profile_of(
                blocks::flattened(req@),
                req.model@,
                req.context_window as int,
            ),
            profile is Some ==> profile::countable(profile->0@),
    {
        let row: Vec<CacheableBlock> = flatten_claude_cache_blocks(req);
        proof {
            blocks::law_blocks_are_sound(req@);
            assert forall|i: int| 0 <= i < blocks::flattened(req@).len() implies (
            #[trigger] blocks::flattened(req@)[i]).tokens >= 0 by {
                assert(blocks::sound(blocks::flattened(req@)[i]));
            }
        }
        let profile = profile_from_blocks(&row, req.model.as_str(), req.context_window);
        proof {
            if profile is Some {
                profile::law_profile_is_sound(
                    blocks::flattened(req@),
                    req.model@,
                    req.context_window as int,
                );
            }
        }
        profile
    }

    /// Builds the caching profile of a request whose tokens can be counted; `None` tells
    /// that they are more than can be.
    pub fn profile_if_countable(&self, req: &MessagesRequest) -> (profile: Option<
        Option<PromptCacheProfile>,
    >)
        ensures
            match profile {
                Some(profile) => {
                    &&& profile::total_tokens(blocks::flattened(req@)) <= i32::MAX
                    &&& profile::optional_profile(profile) == profile::profile_of(
                        blocks::flattened(req@),
                        req.model@,
                        req.context_window as int,
                    )
                    &&& profile is Some ==> profile::countable(profile->0@)
                },
                None => profile::total_tokens(blocks::flattened(req@)) > i32::MAX,
            },
    {
        let row: Vec<CacheableBlock> = flatten_claude_cache_blocks(req);
        proof {
            blocks::law_blocks_are_sound(req@);
        }
        match count_tokens(&row) {
            Some(_) => Some(self.build_claude_profile(req)),
            None => None,
        }
    }

    /// Finds what a request uses of the cache of an account at a given time, counted in
    /// nanoseconds from when the tracker was made, where prefixes with at least
    /// `min_tokens` are cached.
    pub fn compute_above(
        &mut self,
        account_id: u64,
        profile: &PromptCacheProfile,
        now: u128,
        min_tokens: i32,
    ) -> (usage: PromptCacheUsage)
        requires
            old(self).valid(),
            profile::countable(profile@),
            now <= LONGEST_SPAN,
            min_tokens >= 0,
        ensures
            final(self).valid(),
            final(self).time_base() == old(self).time_base(),
            final(self).clock() == old(self).clock(),
            usage@ == usage_above(
                profile@,
                old(self)@,
                account_id,
                now as nat,
                min_tokens as int,
            ),
            final(self)@ == table_above(
                profile@,
                old(self)@,
                account_id,
                now as nat,
                min_tokens as int,
            ),
    {
        let ghost models = profile@.breakpoints;
        let ghost table = self@;
        let ghost base = self.started;
        let ghost latest = self.latest;
        let mut last: usize = profile.breakpoints.len();
        proof {
            assert(models.take(last as int) == models);
        }
        while last > 0 && profile.breakpoints[last - 1].cumulative_tokens < min_tokens
            invariant
                last <= profile.breakpoints.len(),
                models == profile@.breakpoints,
                last_qualifying(models.take(last as int), min_tokens as int) == last_qualifying(
                    models,
                    min_tokens as int,
                ),
            decreases last,
        {
            proof {
                assert(models.take(last as int).drop_last() == models.take(last - 1));
                assert(models.take(last as int).last() == profile.breakpoints@[last - 1]@);
            }
            last -= 1;
        }
        if last == 0 {
            return PromptCacheUsage::default();
        }
        proof {
            assert(models.take(last as int).last() == profile.breakpoints@[last - 1]@);
            assert(last_qualifying(models, min_tokens as int) == last - 1);
        }
        let max_cacheable: i32 = max_reportable_cache_tokens(profile.total_input_tokens);
        let last_tokens: i32 = min_of(
            min_of(profile.breakpoints[last - 1].cumulative_tokens, profile.total_input_tokens),
            max_cacheable,
        );
        proof {
            assert(models[last - 1] == profile.breakpoints@[last - 1]@);
            assert(last_tokens == cacheable_above(profile@, min_tokens as int));
            assert(last_tokens >= 0);
        }
        prune_expired(&mut self.entries, now);
        let ghost alive = live(table, now as nat);
        proof {
            assert(self@ == alive);
        }
        let mut matched_tokens: i32 = 0;
        let mut i: usize = profile.breakpoints.len();
        let mut found: bool = false;
        proof {
            assert(models.take(i as int) == models);
        }
        while i > 0 && !found
            invariant
                i <= profile.breakpoints.len(),
                now <= LONGEST_SPAN,
                profile::countable(profile@),
                models == profile@.breakpoints,
                alive == live(table, now as nat),
                self.started == base,
                self.latest == latest,
                entries_valid(self.entries@),
                forall|k: int|
                    0 <= k < self.entries.len() && !found ==> (#[trigger] self.entries@[k]).expires_at
                        > now,
                last_tokens >= 0,
                min_tokens >= 0,
                matched_tokens >= 0,
                !found ==> table_of(self.entries@) == alive && matched_tokens == 0 && last_cached(
                    models.take(i as int),
                    min_tokens as int,
                    alive,
                    account_id,
                ) == last_cached(models, min_tokens as int, alive, account_id),
                found ==> {
                    let hit = last_cached(models, min_tokens as int, alive, account_id);
                    let key = (account_id, models[hit].fingerprint);
                    &&& hit >= 0
                    &&& matched_tokens == tokens_up_to(
                        models[hit],
                        profile@.total_input_tokens,
                        last_tokens as int,
                    )
                    &&& table_of(self.entries@) == alive.insert(
                        key,
                        EntryModel { expires_at: now as nat + alive[key].ttl, ttl: alive[key].ttl },
                    )
                },
            decreases i,
        {
            i -= 1;
            let breakpoint: &PromptCacheBreakpoint = &profile.breakpoints[i];
            let ghost upto = models.take(i + 1);
            proof {
                assert(upto.drop_last() == models.take(i as int));
                assert(upto.last() == breakpoint@);
                assert(models[i as int] == breakpoint@);
            }
            if breakpoint.cumulative_tokens >= min_tokens {
                if let Some(at) = position(&self.entries, account_id, &breakpoint.fingerprint) {
                    let entry: PromptCacheEntry = self.entries[at];
                    proof {
                        lemma_table(self.entries@);
                        assert(entry == self.entries@[at as int]);
                        assert(alive[(account_id, breakpoint.fingerprint@)] == times_of(entry));
                    }
                    let renewed = PromptCacheEntry { expires_at: now + entry.ttl, ..entry };
                    proof {
                        lemma_replace(self.entries@, at as int, renewed);
                    }
                    self.entries.set(at, renewed);
                    matched_tokens = min_of(
                        min_of(breakpoint.cumulative_tokens, profile.total_input_tokens),
                        last_tokens,
                    );
                    found = true;
                    proof {
                        assert(last_cached(upto, min_tokens as int, alive, account_id) == i);
                    }
                }
            }
        }
        proof {
            assert(models.take(0) == Seq::<BreakpointModel>::empty());
        }
        let creation: i32 = last_tokens - matched_tokens;
        let (cache_5m, cache_1h) = compute_ttl_breakdown(
            profile,
            matched_tokens,
            last_tokens,
            min_tokens,
        );
        PromptCacheUsage {
            cache_creation_input_tokens: creation,
            cache_read_input_tokens: matched_tokens,
            cache_creation_5m_input_tokens: cache_5m,
            cache_creation_1h_input_tokens: cache_1h,
        }
    }

    /// Finds what a request uses of the cache of an account at a given time, counted in
    /// nanoseconds from when the tracker was made.
    pub fn compute_at(
        &mut self,
        account_id: u64,
        profile: &PromptCacheProfile,
        now: u128,
    ) -> (usage: PromptCacheUsage)
        requires
            old(self).valid(),
            profile::countable(profile@),
            now <= LONGEST_SPAN,
        ensures
            final(self).valid(),
            final(self).time_base() == old(self).time_base(),
            final(self).clock() == old(self).clock(),
            usage@ == computed_usage(profile@, old(self)@, account_id, now as nat),
            final(self)@ == computed_table(profile@, old(self)@, account_id, now as nat),
    {
        let min_tokens: i32 = min_cacheable_tokens_for_model(profile.model.as_str());
        self.compute_above(account_id, profile, now, min_tokens)
    }

    /// Stores the breakpoints of a request that succeeded at a given time, counted in
    /// nanoseconds from when the tracker was made, where prefixes with at least
    /// `min_tokens` are cached.
    pub fn update_above(
        &mut self,
        account_id: u64,
        profile: &PromptCacheProfile,
        now: u128,
        min_tokens: i32,
    )
        requires
            old(self).valid(),
            profile::countable(profile@),
            now <= LONGEST_SPAN,
        ensures
            final(self).valid(),
            final(self).time_base() == old(self).time_base(),
            final(self).clock() == old(self).clock(),
            final(self)@ == stored_above(
                profile@,
                old(self)@,
                account_id,
                now as nat,
                min_tokens as int,
            ),
    {
        if profile.breakpoints.len() == 0 {
            return;
        }
        let ghost models = profile@.breakpoints;
        let ghost table = self@;
        let ghost base = self.started;
        let ghost latest = self.latest;
        prune_expired(&mut self.entries, now);
        let ghost alive = live(table, now as nat);
        let mut i: usize = 0;
        proof {
            assert(models.take(0) == Seq::<BreakpointModel>::empty());
        }
        while i < profile.breakpoints.len()
            invariant
                i <= profile.breakpoints.len(),
                now <= LONGEST_SPAN,
                profile::countable(profile@),
                models == profile@.breakpoints,
                self.started == base,
                self.latest == latest,
                entries_valid(self.entries@),
                table_of(self.entries@) == stored(
                    alive,
                    models.take(i as int),
                    min_tokens as int,
                    account_id,
                    now as nat,
                ),
            decreases profile.breakpoints.len() - i,
        {
            let breakpoint: &PromptCacheBreakpoint = &profile.breakpoints[i];
            proof {
                assert(models.take(i + 1).drop_last() == models.take(i as int));
                assert(models.take(i + 1).last() == breakpoint@);
                assert(models[i as int] == breakpoint@);
            }
            if breakpoint.cumulative_tokens >= min_tokens {
                let entry = PromptCacheEntry {
                    account_id,
                    fingerprint: breakpoint.fingerprint,
                    expires_at: now + breakpoint.ttl,
                    ttl: breakpoint.ttl,
                };
                match position(&self.entries, account_id, &breakpoint.fingerprint) {
                    Some(at) => {
                        proof {
                            lemma_replace(self.entries@, at as int, entry);
                        }
                        self.entries.set(at, entry);
                    },
                    None => {
                        proof {
                            lemma_push(self.entries@, entry);
                        }
                        self.entries.push(entry);
                    },
                }
            }
            i += 1;
        }
        proof {
            assert(models.take(i as int) == models);
        }
    }

    /// Stores the breakpoints of a request that succeeded at a given time, counted in
    /// nanoseconds from when the tracker was made.
    pub fn update_at(&mut self, account_id: u64, profile: &PromptCacheProfile, now: u128)
        requires
            old(self).valid(),
            profile::countable(profile@),
            now <= LONGEST_SPAN,
        ensures
            final(self).valid(),
            final(self).time_base() == old(self).time_base(),
            final(self).clock() == old(self).clock(),
            final(self)@ == updated_table(profile@, old(self)@, account_id, now as nat),
    {
        let min_tokens: i32 = min_cacheable_tokens_for_model(profile.model.as_str());
        self.update_above(account_id, profile, now, min_tokens)
    }

    /// Reads the clock. It never goes back.
    fn read_clock(&mut self) -> (now: u128)
        requires
            old(self).valid(),
        ensures
            final(self).valid(),
            final(self)@ == old(self)@,
            final(self).time_base() == old(self).time_base(),
            old(self).clock() <= final(self).clock() <= LONGEST_SPAN,
            now == final(self).clock(),
    {
        let now: u128 = elapsed_nanos(&self.started);
        if now > self.latest {
            self.latest = now;
        }
        self.latest
    }

    /// Finds what a request uses of the cache of an account, now.
    pub fn compute(&mut self, account_id: u64, profile: &PromptCacheProfile) -> (usage:
        PromptCacheUsage)
        requires
            old(self).valid(),
            profile::countable(profile@),
        ensures
            final(self).valid(),
            final(self).time_base() == old(self).time_base(),
            old(self).clock() <= final(self).clock() <= LONGEST_SPAN,
            usage@ == computed_usage(profile@, old(self)@, account_id, final(self).clock()),
            final(self)@ == computed_table(
                profile@,
                old(self)@,
                account_id,
                final(self).clock(),
            ),
    {
        let now: u128 = self.read_clock();
        self.compute_at(account_id, profile, now)
    }

    /// Stores the breakpoints of a request that has just succeeded.
    pub fn update(&mut self, account_id: u64, profile: &PromptCacheProfile)
        requires
            old(self).valid(),
            profile::countable(profile@),
        ensures
            final(self).valid(),
            final(self).time_base() == old(self).time_base(),
            old(self).clock() <= final(self).clock() <= LONGEST_SPAN,
            final(self)@ == updated_table(
                profile@,
                old(self)@,
                account_id,
                final(self).clock(),
            ),
    {
        let now: u128 = self.read_clock();
        self.update_at(account_id, profile, now)
    }
}

/// What a request uses adds up: the tokens that live for five minutes and those that live
/// for one hour are the tokens created, the tokens created and read are those that can be
/// cached, none is a debt, and together they are at most 85 percent of the total.
pub proof fn law_usage_adds_up(
    profile: ProfileModel,
    table: Table,
    account_id: u64,
    now: nat,
)
    requires
        profile::countable(profile),
    ensures
        ({
            let usage = computed_usage(profile, table, account_id, now);
            &&& usage.creation_5m + usage.creation_1h == usage.creation
            &&& usage.creation + usage.read == cacheable_tokens(profile)
            &&& usage.creation >= 0
            &&& usage.read >= 0
            &&& usage.creation_5m >= 0
            &&& usage.creation_1h >= 0
            &&& 20 * (usage.creation + usage.read) <= 17 * profile.total_input_tokens
        }),
{
    let min_tokens = profile::min_cacheable(profile.model);
    let last = last_qualifying(profile.breakpoints, min_tokens);
    lemma_last_qualifying(profile.breakpoints, min_tokens);
    if last >= 0 {
        let cap = cacheable_tokens(profile);
        let read = read_above(profile, table, account_id, now, min_tokens);
        lemma_last_cached(profile.breakpoints, min_tokens, live(table, now), account_id);
        lemma_split(profile.breakpoints, profile.total_input_tokens, read, cap, min_tokens);
    }
}

/// What a request stored is read by the next one like it: the same profile, counted while
/// its last breakpoint lives, reads all that can be cached and creates nothing.
pub proof fn law_stored_prefix_is_read(
    profile: ProfileModel,
    table: Table,
    account_id: u64,
    stored_at: nat,
    now: nat,
)
    requires
        profile::countable(profile),
        last_qualifying(profile.breakpoints, profile::min_cacheable(profile.model)) >= 0,
        stored_at <= now < stored_at + profile.breakpoints[last_qualifying(
            profile.breakpoints,
            profile::min_cacheable(profile.model),
        )].ttl,
    ensures
        computed_usage(
            profile,
            updated_table(profile, table, account_id, stored_at),
            account_id,
            now,
        ) == (UsageModel {
            creation: 0,
            read: cacheable_tokens(profile),
            creation_5m: 0,
            creation_1h: 0,
        }),
{
    let min_tokens = profile::min_cacheable(profile.model);
    let last = last_qualifying(profile.breakpoints, min_tokens);
    let after = updated_table(profile, table, account_id, stored_at);
    lemma_last_qualifying(profile.breakpoints, min_tokens);
    lemma_stored_last(live(table, stored_at), profile.breakpoints, min_tokens, account_id, stored_at);
    lemma_is_last_cached(profile.breakpoints, min_tokens, live(after, now), account_id, last);
    law_usage_adds_up(profile, after, account_id, now);
}

/// The last breakpoint that qualifies is stored with its own life.
proof fn lemma_stored_last(
    table: Table,
    breakpoints: Seq<BreakpointModel>,
    min_tokens: int,
    account_id: u64,
    now: nat,
)
    requires
        last_qualifying(breakpoints, min_tokens) >= 0,
    ensures
        ({
            let breakpoint = breakpoints[last_qualifying(breakpoints, min_tokens)];
            let key = (account_id, breakpoint.fingerprint);
            let after = stored(table, breakpoints, min_tokens, account_id, now);
            &&& after.contains_key(key)
            &&& after[key] == (EntryModel {
                expires_at: now + breakpoint.ttl,
                ttl: breakpoint.ttl,
            })
        }),
    decreases breakpoints.len(),
{
    if breakpoints.len() > 0 && breakpoints.last().cumulative_tokens < min_tokens {
        lemma_stored_last(table, breakpoints.drop_last(), min_tokens, account_id, now);
        lemma_last_qualifying(breakpoints.drop_last(), min_tokens);
    }
}

/// A request whose profile begins with one that was stored, such as the next request of a
/// conversation, reads at least as far as the stored one's last breakpoint, while that
/// lives.
pub proof fn law_follow_up_reads_stored_prefix(
    profile: ProfileModel,
    follow_up: ProfileModel,
    table: Table,
    account_id: u64,
    stored_at: nat,
    now: nat,
)
    requires
        profile::countable(follow_up),
        follow_up.model == profile.model,
        profile::extends(follow_up.breakpoints, profile.breakpoints),
        profile::ascending(follow_up.breakpoints),
        last_qualifying(profile.breakpoints, profile::min_cacheable(profile.model)) >= 0,
        stored_at <= now < stored_at + profile.breakpoints[last_qualifying(
            profile.breakpoints,
            profile::min_cacheable(profile.model),
        )].ttl,
    ensures
        ({
            let last = profile.breakpoints[last_qualifying(
                profile.breakpoints,
                profile::min_cacheable(profile.model),
            )];
            let usage = computed_usage(
                follow_up,
                updated_table(profile, table, account_id, stored_at),
                account_id,
                now,
            );
            usage.read >= tokens_up_to(
                last,
                follow_up.total_input_tokens,
                cacheable_tokens(follow_up),
            )
        }),
{
    let min_tokens = profile::min_cacheable(profile.model);
    let last = last_qualifying(profile.breakpoints, min_tokens);
    let after = updated_table(profile, table, account_id, stored_at);
    lemma_last_qualifying(profile.breakpoints, min_tokens);
    lemma_last_qualifying(follow_up.breakpoints, min_tokens);
    lemma_stored_last(live(table, stored_at), profile.breakpoints, min_tokens, account_id, stored_at);
    lemma_last_cached(follow_up.breakpoints, min_tokens, live(after, now), account_id);
    assert(follow_up.breakpoints.take(profile.breakpoints.len() as int)[last]
        == follow_up.breakpoints[last]);
    assert(follow_up.breakpoints[last] == profile.breakpoints[last]);
    assert(live(after, now).contains_key((account_id, profile.breakpoints[last].fingerprint)));
}

/// The last cached breakpoint depends on the cached prefixes of the account alone.
proof fn lemma_own_prefixes(
    breakpoints: Seq<BreakpointModel>,
    min_tokens: int,
    a: Table,
    b: Table,
    account_id: u64,
)
    requires
        forall|fingerprint: Seq<u8>|
            #![trigger a.contains_key((account_id, fingerprint))]
            #![trigger b.contains_key((account_id, fingerprint))]
            a.contains_key((account_id, fingerprint)) == b.contains_key((account_id, fingerprint)),
    ensures
        last_cached(breakpoints, min_tokens, a, account_id) == last_cached(
            breakpoints,
            min_tokens,
            b,
            account_id,
        ),
    decreases breakpoints.len(),
{
    if breakpoints.len() > 0 {
        lemma_own_prefixes(breakpoints.drop_last(), min_tokens, a, b, account_id);
    }
}

/// Storing for one account touches no prefix of another.
proof fn lemma_stored_own(
    table: Table,
    breakpoints: Seq<BreakpointModel>,
    min_tokens: int,
    account_id: u64,
    now: nat,
    other: u64,
    fingerprint: Seq<u8>,
)
    requires
        other != account_id,
    ensures
        ({
            let after = stored(table, breakpoints, min_tokens, account_id, now);
            let key = (other, fingerprint);
            &&& after.contains_key(key) == table.contains_key(key)
            &&& table.contains_key(key) ==> after[key] == table[key]
        }),
    decreases breakpoints.len(),
{
    if breakpoints.len() > 0 {
        lemma_stored_own(
            table,
            breakpoints.drop_last(),
            min_tokens,
            account_id,
            now,
            other,
            fingerprint,
        );
    }
}

/// Accounts are isolated: neither counting nor storing a request of one account changes
/// what a request of another uses, now or later.
pub proof fn law_accounts_are_isolated(
    profile: ProfileModel,
    table: Table,
    account_id: u64,
    at: nat,
    other_profile: ProfileModel,
    other: u64,
    now: nat,
)
    requires
        other != account_id,
        at <= now,
    ensures
        computed_usage(other_profile, updated_table(profile, table, account_id, at), other, now)
            == computed_usage(other_profile, table, other, now),
        computed_usage(other_profile, computed_table(profile, table, account_id, at), other, now)
            == computed_usage(other_profile, table, other, now),
{
    let updated = updated_table(profile, table, account_id, at);
    let computed = computed_table(profile, table, account_id, at);
    let min_tokens = profile::min_cacheable(profile.model);
    let other_min = profile::min_cacheable(other_profile.model);
    assert forall|fingerprint: Seq<u8>|
        live(updated, now).contains_key((other, fingerprint)) == live(table, now).contains_key(
            (other, fingerprint),
        ) by {
        lemma_stored_own(
            live(table, at),
            profile.breakpoints,
            min_tokens,
            account_id,
            at,
            other,
            fingerprint,
        );
    }
    lemma_own_prefixes(
        other_profile.breakpoints,
        other_min,
        live(updated, now),
        live(table, now),
        other,
    );
    assert forall|fingerprint: Seq<u8>|
        live(computed, now).contains_key((other, fingerprint)) == live(table, now).contains_key(
            (other, fingerprint),
        ) by {
    }
    lemma_own_prefixes(
        other_profile.breakpoints,
        other_min,
        live(computed, now),
        live(table, now),
        other,
    );
}

/// A request of an account of which no cached prefix is alive reads nothing, and creates
/// all that can be cached.
pub proof fn law_first_request_only_creates(
    profile: ProfileModel,
    table: Table,
    account_id: u64,
    now: nat,
)
    requires
        forall|fingerprint: Seq<u8>| !live(table, now).contains_key((account_id, fingerprint)),
    ensures
        computed_usage(profile, table, account_id, now).read == 0,
        computed_usage(profile, table, account_id, now).creation == cacheable_tokens(profile),
{
    let min_tokens = profile::min_cacheable(profile.model);
    lemma_is_last_cached(profile.breakpoints, min_tokens, live(table, now), account_id, -1);
}

/// A prefix that is read lives on: the same request, counted again before the life of the
/// prefix has passed since, uses the cache as it did.
pub proof fn law_reading_renews(
    profile: ProfileModel,
    table: Table,
    account_id: u64,
    read_at: nat,
    now: nat,
)
    requires
        last_cached(
            profile.breakpoints,
            profile::min_cacheable(profile.model),
            live(table, read_at),
            account_id,
        ) >= 0,
        read_at <= now < read_at + table[(
            account_id,
            profile.breakpoints[last_cached(
                profile.breakpoints,
                profile::min_cacheable(profile.model),
                live(table, read_at),
                account_id,
            )].fingerprint,
        )].ttl,
    ensures
        computed_usage(
            profile,
            computed_table(profile, table, account_id, read_at),
            account_id,
            now,
        ) == computed_usage(profile, table, account_id, read_at),
{
    let min_tokens = profile::min_cacheable(profile.model);
    let alive = live(table, read_at);
    let hit = last_cached(profile.breakpoints, min_tokens, alive, account_id);
    let after = computed_table(profile, table, account_id, read_at);
    lemma_last_cached(profile.breakpoints, min_tokens, alive, account_id);
    lemma_last_qualifying(profile.breakpoints, min_tokens);
    assert(last_qualifying(profile.breakpoints, min_tokens) >= hit);
    assert forall|i: int|
        hit < i < profile.breakpoints.len() && (
        #[trigger] profile.breakpoints[i]).cumulative_tokens >= min_tokens implies !live(
        after,
        now,
    ).contains_key((account_id, profile.breakpoints[i].fingerprint)) by {
        assert(!alive.contains_key((account_id, profile.breakpoints[i].fingerprint)));
    }
    lemma_is_last_cached(profile.breakpoints, min_tokens, live(after, now), account_id, hit);
}

/// A request whose breakpoints all fall short of the model's threshold uses nothing, and
/// stores nothing.
pub proof fn law_short_prefixes_are_not_cached(
    profile: ProfileModel,
    table: Table,
    account_id: u64,
    now: nat,
)
    requires
        forall|i: int|
            0 <= i < profile.breakpoints.len() ==> (
            #[trigger] profile.breakpoints[i]).cumulative_tokens < profile::min_cacheable(
                profile.model,
            ),
    ensures
        computed_usage(profile, table, account_id, now) == no_usage(),
        live(updated_table(profile, table, account_id, now), now) == live(table, now),
{
    let min_tokens = profile::min_cacheable(profile.model);
    lemma_last_qualifying(profile.breakpoints, min_tokens);
    lemma_stores_nothing(live(table, now), profile.breakpoints, min_tokens, account_id, now);
    assert(live(live(table, now), now) =~= live(table, now));
}

proof fn lemma_stores_nothing(
    table: Table,
    breakpoints: Seq<BreakpointModel>,
    min_tokens: int,
    account_id: u64,
    now: nat,
)
    requires
        forall|i: int|
            0 <= i < breakpoints.len() ==> (#[trigger] breakpoints[i]).cumulative_tokens
                < min_tokens,
    ensures
        stored(table, breakpoints, min_tokens, account_id, now) == table,
    decreases breakpoints.len(),
{
    if breakpoints.len() > 0 {
        let front = breakpoints.drop_last();
        assert forall|i: int| 0 <= i < front.len() implies (
        #[trigger] front[i]).cumulative_tokens < min_tokens by {
            assert(front[i] == breakpoints[i]);
        }
        lemma_stores_nothing(table, front, min_tokens, account_id, now);
        assert(breakpoints[breakpoints.len() - 1].cumulative_tokens < min_tokens);
    }
}

/// A conversation reads its own past: once a request is stored, the request that goes on
/// with the same conversation reads at least as far as the last breakpoint that was
/// stored, while that lives, whatever estimate raises its total.
pub proof fn law_conversation_reads_its_past(
    request: RequestModel,
    front: Seq<MessageModel>,
    rest: Seq<MessageModel>,
    context_window: int,
    estimated: int,
    table: Table,
    account_id: u64,
    stored_at: nat,
    now: nat,
)
    requires
        ({
            let before = profile::profile_of(
                blocks::flattened(RequestModel { messages: front, ..request }),
                request.model,
                context_window,
            );
            let last = last_qualifying(
                before->0.breakpoints,
                profile::min_cacheable(request.model),
            );
            &&& before is Some
            &&& last >= 0
            &&& stored_at <= now < stored_at + before->0.breakpoints[last].ttl
        }),
    ensures
        ({
            let before = profile::profile_of(
                blocks::flattened(RequestModel { messages: front, ..request }),
                request.model,
                context_window,
            );
            let after = profile::profile_of(
                blocks::flattened(RequestModel { messages: front + rest, ..request }),
                request.model,
                context_window,
            );
            let follow_up = profile::raised(after->0, estimated);
            let last = last_qualifying(
                before->0.breakpoints,
                profile::min_cacheable(request.model),
            );
            &&& after is Some
            &&& computed_usage(
                follow_up,
                updated_table(before->0, table, account_id, stored_at),
                account_id,
                now,
            ).read >= tokens_up_to(
                before->0.breakpoints[last],
                follow_up.total_input_tokens,
                cacheable_tokens(follow_up),
            )
        }),
{
    let row = blocks::flattened(RequestModel { messages: front, ..request });
    let longer = blocks::flattened(RequestModel { messages: front + rest, ..request });
    let before = profile::profile_of(row, request.model, context_window)->0;
    blocks::law_blocks_are_sound(RequestModel { messages: front + rest, ..request });
    profile::law_conversation_extends_profile(request, front, rest, context_window);
    let after = profile::profile_of(longer, request.model, context_window)->0;
    profile::law_profile_is_sound(longer, request.model, context_window);
    profile::law_capping_is_final(
        ProfileModel {
            breakpoints: profile::breakpoints_of(longer),
            total_input_tokens: profile::total_tokens(longer),
            model: request.model,
            context_window,
        },
    );
    profile::law_raising_keeps_breakpoints(after, estimated);
    law_follow_up_reads_stored_prefix(
        before,
        profile::raised(after, estimated),
        table,
        account_id,
        stored_at,
        now,
    );
}

/// Every breakpoint that qualifies is stored.
proof fn lemma_stores_all(
    table: Table,
    breakpoints: Seq<BreakpointModel>,
    min_tokens: int,
    account_id: u64,
    now: nat,
    i: int,
)
    requires
        0 <= i < breakpoints.len(),
        breakpoints[i].cumulative_tokens >= min_tokens,
    ensures
        stored(table, breakpoints, min_tokens, account_id, now).contains_key(
            (account_id, breakpoints[i].fingerprint),
        ),
    decreases breakpoints.len(),
{
    if i < breakpoints.len() - 1 {
        let front = breakpoints.drop_last();
        assert(front[i] == breakpoints[i]);
        lemma_stores_all(table, front, min_tokens, account_id, now, i);
    }
}

/// A request that succeeded has each of its prefixes cached that is long enough, whatever
/// was cached before.
pub proof fn law_every_prefix_is_stored(
    profile: ProfileModel,
    table: Table,
    account_id: u64,
    now: nat,
    i: int,
)
    requires
        0 <= i < profile.breakpoints.len(),
        profile.breakpoints[i].cumulative_tokens >= profile::min_cacheable(profile.model),
    ensures
        updated_table(profile, table, account_id, now).contains_key(
            (account_id, profile.breakpoints[i].fingerprint),
        ),
{
    lemma_stores_all(
        live(table, now),
        profile.breakpoints,
        profile::min_cacheable(profile.model),
        account_id,
        now,
        i,
    );
}

/// The breakpoints with enough tokens to be cached.
pub open spec fn qualifying(breakpoints: Seq<BreakpointModel>, min_tokens: int) -> Seq<
    BreakpointModel,
>
    decreases breakpoints.len(),
{
    if breakpoints.len() == 0 {
        Seq::empty()
    } else {
        let front = qualifying(breakpoints.drop_last(), min_tokens);
        if breakpoints.last().cumulative_tokens >= min_tokens {
            front.push(breakpoints.last())
        } else {
            front
        }
    }
}

/// The last breakpoint that qualifies, and the last one that is cached, are the same with
/// and without those that do not qualify.
proof fn lemma_qualifying_found(
    breakpoints: Seq<BreakpointModel>,
    min_tokens: int,
    table: Table,
    account_id: u64,
)
    ensures
        ({
            let long = qualifying(breakpoints, min_tokens);
            let last = last_qualifying(breakpoints, min_tokens);
            let hit = last_cached(breakpoints, min_tokens, table, account_id);
            let long_last = last_qualifying(long, min_tokens);
            let long_hit = last_cached(long, min_tokens, table, account_id);
            &&& last < 0 <==> long_last < 0
            &&& last >= 0 ==> breakpoints[last] == long[long_last]
            &&& hit < 0 <==> long_hit < 0
            &&& hit >= 0 ==> breakpoints[hit] == long[long_hit]
        }),
    decreases breakpoints.len(),
{
    if breakpoints.len() > 0 {
        let front = breakpoints.drop_last();
        let long = qualifying(breakpoints, min_tokens);
        lemma_qualifying_found(front, min_tokens, table, account_id);
        lemma_last_qualifying(front, min_tokens);
        lemma_last_cached(front, min_tokens, table, account_id);
        lemma_last_qualifying(qualifying(front, min_tokens), min_tokens);
        lemma_last_cached(qualifying(front, min_tokens), min_tokens, table, account_id);
        if breakpoints.last().cumulative_tokens >= min_tokens {
            assert(long.drop_last() == qualifying(front, min_tokens));
            assert(long.last() == breakpoints.last());
        }
    }
}

/// What is created is split, and what is stored is stored, as without the breakpoints that
/// do not qualify.
proof fn lemma_qualifying_kept(
    breakpoints: Seq<BreakpointModel>,
    total: int,
    matched: int,
    cap: int,
    min_tokens: int,
    table: Table,
    account_id: u64,
    now: nat,
)
    ensures
        split_by_life(qualifying(breakpoints, min_tokens), total, matched, cap, min_tokens)
            == split_by_life(breakpoints, total, matched, cap, min_tokens),
        stored(table, qualifying(breakpoints, min_tokens), min_tokens, account_id, now) == stored(
            table,
            breakpoints,
            min_tokens,
            account_id,
            now,
        ),
    decreases breakpoints.len(),
{
    if breakpoints.len() > 0 {
        let front = breakpoints.drop_last();
        let long = qualifying(breakpoints, min_tokens);
        lemma_qualifying_kept(front, total, matched, cap, min_tokens, table, account_id, now);
        if breakpoints.last().cumulative_tokens >= min_tokens {
            assert(long.drop_last() == qualifying(front, min_tokens));
            assert(long.last() == breakpoints.last());
        }
    }
}

/// Breakpoints that fall short of the model's threshold never count: without them a request
/// uses the same, renews the same and stores the same.
pub proof fn law_short_breakpoints_never_count(
    profile: ProfileModel,
    table: Table,
    account_id: u64,
    now: nat,
)
    ensures
        ({
            let long = ProfileModel {
                breakpoints: qualifying(
                    profile.breakpoints,
                    profile::min_cacheable(profile.model),
                ),
                ..profile
            };
            &&& computed_usage(long, table, account_id, now) == computed_usage(
                profile,
                table,
                account_id,
                now,
            )
            &&& computed_table(long, table, account_id, now) == computed_table(
                profile,
                table,
                account_id,
                now,
            )
            &&& live(updated_table(long, table, account_id, now), now) == live(
                updated_table(profile, table, account_id, now),
                now,
            )
        }),
{
    let min_tokens = profile::min_cacheable(profile.model);
    let alive = live(table, now);
    lemma_qualifying_found(profile.breakpoints, min_tokens, alive, account_id);
    lemma_qualifying_kept(
        profile.breakpoints,
        profile.total_input_tokens,
        read_above(profile, table, account_id, now, min_tokens),
        cacheable_above(profile, min_tokens),
        min_tokens,
        alive,
        account_id,
        now,
    );
    assert(live(alive, now) =~= alive);
}

/// What a request reads and creates together are the tokens up to its last prefix that is
/// long enough, within the total and within 85 percent of it, to the token; a request
/// without such a prefix uses nothing.
pub proof fn law_caches_up_to_the_last_breakpoint(
    profile: ProfileModel,
    table: Table,
    account_id: u64,
    now: nat,
    min_tokens: int,
)
    requires
        profile.total_input_tokens >= 0,
        min_tokens >= 0,
    ensures
        ({
            let row = profile.breakpoints;
            let usage = usage_above(profile, table, account_id, now, min_tokens);
            (forall|i: int|
                0 <= i < row.len() ==> (#[trigger] row[i]).cumulative_tokens < min_tokens) ==> {
                &&& usage.read == 0
                &&& usage.creation == 0
                &&& usage.creation_5m == 0
                &&& usage.creation_1h == 0
            }
        }),
        ({
            let row = profile.breakpoints;
            let usage = usage_above(profile, table, account_id, now, min_tokens);
            let sum = usage.read + usage.creation;
            let total = profile.total_input_tokens;
            forall|i: int|
                0 <= i < row.len() && (#[trigger] row[i]).cumulative_tokens >= min_tokens && (
                forall|j: int|
                    i < j < row.len() ==> (#[trigger] row[j]).cumulative_tokens < min_tokens) ==> {
                    &&& 0 <= sum <= row[i].cumulative_tokens
                    &&& 20 * sum <= 17 * total
                    &&& sum == row[i].cumulative_tokens || 20 * (sum + 1) > 17 * total
                    &&& usage.creation_5m + usage.creation_1h == usage.creation
                    &&& usage.read >= 0
                    &&& usage.creation >= 0
                }
        }),
{
    let row = profile.breakpoints;
    let last = last_qualifying(row, min_tokens);
    lemma_last_qualifying(row, min_tokens);
    if last >= 0 {
        let cap = cacheable_above(profile, min_tokens);
        let read = read_above(profile, table, account_id, now, min_tokens);
        lemma_last_cached(row, min_tokens, live(table, now), account_id);
        lemma_split(row, profile.total_input_tokens, read, cap, min_tokens);
        assert(row[last].cumulative_tokens >= min_tokens);
        assert forall|i: int|
            0 <= i < row.len() && (#[trigger] row[i]).cumulative_tokens >= min_tokens && (forall|
                j: int,
            | i < j < row.len() ==> (#[trigger] row[j]).cumulative_tokens < min_tokens) implies i
            == last by {
            if i < last {
                assert(row[last].cumulative_tokens < min_tokens);
            }
        }
    }
}

/// The tokens beyond `matched` and up to `cap` that are first reached by a breakpoint with
/// enough tokens, and one that lives for an hour or more, or for less.
pub open spec fn first_reached(
    row: Seq<BreakpointModel>,
    matched: int,
    cap: int,
    min_tokens: int,
    hour: bool,
) -> Set<int> {
    Set::new(
        |token: int|
            matched < token <= cap && exists|i: int|
                0 <= i < row.len() && (#[trigger] row[i]).cumulative_tokens >= min_tokens
                    && row[i].cumulative_tokens >= token && (row[i].ttl >= 3_600_000_000_000)
                    == hour && forall|j: int|
                    0 <= j < i ==> (#[trigger] row[j]).cumulative_tokens < min_tokens
                        || row[j].cumulative_tokens < token,
    )
}

/// The tokens that a row of breakpoints reaches are those up to the last of them.
proof fn lemma_reached(
    row: Seq<BreakpointModel>,
    total: int,
    matched: int,
    cap: int,
    min_tokens: int,
    token: int,
)
    requires
        matched < token <= cap <= total,
    ensures
        token <= split_by_life(row, total, matched, cap, min_tokens).reached <==> exists|i: int|
            0 <= i < row.len() && (#[trigger] row[i]).cumulative_tokens >= min_tokens
                && row[i].cumulative_tokens >= token,
    decreases row.len(),
{
    if row.len() > 0 {
        let front = row.drop_last();
        let n = row.len() - 1;
        lemma_reached(front, total, matched, cap, min_tokens, token);
        let before = split_by_life(front, total, matched, cap, min_tokens).reached;
        let after = split_by_life(row, total, matched, cap, min_tokens).reached;
        if token <= before {
            let i = choose|i: int|
                0 <= i < front.len() && (#[trigger] front[i]).cumulative_tokens >= min_tokens
                    && front[i].cumulative_tokens >= token;
            assert(row[i].cumulative_tokens >= token);
        }
        if token <= after && token > before {
            assert(row[n].cumulative_tokens >= token);
        }
        if exists|i: int|
            0 <= i < row.len() && (#[trigger] row[i]).cumulative_tokens >= min_tokens
                && row[i].cumulative_tokens >= token {
            let i = choose|i: int|
                0 <= i < row.len() && (#[trigger] row[i]).cumulative_tokens >= min_tokens
                    && row[i].cumulative_tokens >= token;
            if i < n {
                assert(front[i].cumulative_tokens >= token);
            }
        }
    }
}

/// Which tokens a breakpoint adds to those that the breakpoints before it reach first.
proof fn lemma_first_reached(
    row: Seq<BreakpointModel>,
    total: int,
    matched: int,
    cap: int,
    min_tokens: int,
    hour: bool,
    token: int,
)
    requires
        row.len() > 0,
        matched <= cap <= total,
    ensures
        ({
            let before = split_by_life(row.drop_last(), total, matched, cap, min_tokens).reached;
            let after = split_by_life(row, total, matched, cap, min_tokens).reached;
            first_reached(row, matched, cap, min_tokens, hour).contains(token) <==> (
            first_reached(row.drop_last(), matched, cap, min_tokens, hour).contains(token) || (
            before < token <= after && (row.last().ttl >= 3_600_000_000_000) == hour))
        }),
{
    let front = row.drop_last();
    let n = row.len() - 1;
    let before = split_by_life(front, total, matched, cap, min_tokens).reached;
    let after = split_by_life(row, total, matched, cap, min_tokens).reached;
    lemma_split(front, total, matched, cap, min_tokens);
    lemma_split(row, total, matched, cap, min_tokens);
    if matched < token <= cap {
        lemma_reached(front, total, matched, cap, min_tokens, token);
        if first_reached(row, matched, cap, min_tokens, hour).contains(token) {
            let i = choose|i: int|
                0 <= i < row.len() && (#[trigger] row[i]).cumulative_tokens >= min_tokens
                    && row[i].cumulative_tokens >= token && (row[i].ttl >= 3_600_000_000_000)
                    == hour && forall|j: int|
                    0 <= j < i ==> (#[trigger] row[j]).cumulative_tokens < min_tokens
                        || row[j].cumulative_tokens < token;
            if i < n {
                assert(front[i] == row[i]);
                assert forall|j: int| 0 <= j < i implies (
                #[trigger] front[j]).cumulative_tokens < min_tokens || front[j].cumulative_tokens
                    < token by {
                    assert(front[j] == row[j]);
                }
            } else {
                assert forall|j: int| 0 <= j < front.len() implies (
                #[trigger] front[j]).cumulative_tokens < min_tokens || front[j].cumulative_tokens
                    < token by {
                    assert(front[j] == row[j]);
                }
            }
        }
        if first_reached(front, matched, cap, min_tokens, hour).contains(token) {
            let i = choose|i: int|
                0 <= i < front.len() && (#[trigger] front[i]).cumulative_tokens >= min_tokens
                    && front[i].cumulative_tokens >= token && (front[i].ttl >= 3_600_000_000_000)
                    == hour && forall|j: int|
                    0 <= j < i ==> (#[trigger] front[j]).cumulative_tokens < min_tokens
                        || front[j].cumulative_tokens < token;
            assert(row[i] == front[i]);
            assert forall|j: int| 0 <= j < i implies (#[trigger] row[j]).cumulative_tokens
                < min_tokens || row[j].cumulative_tokens < token by {
                assert(front[j] == row[j]);
            }
        }
        if before < token <= after && (row.last().ttl >= 3_600_000_000_000) == hour {
            assert(row[n].cumulative_tokens >= token);
            assert forall|j: int| 0 <= j < n implies (#[trigger] row[j]).cumulative_tokens
                < min_tokens || row[j].cumulative_tokens < token by {
                assert(front[j] == row[j]);
            }
        }
    }
}

/// Each new token lives as long as the first breakpoint that reaches it: the tokens split
/// off for an hour, and those for five minutes, are as many as there are such tokens.
pub proof fn law_new_tokens_live_as_their_breakpoint(
    row: Seq<BreakpointModel>,
    total: int,
    matched: int,
    cap: int,
    min_tokens: int,
)
    requires
        matched <= cap <= total,
    ensures
        first_reached(row, matched, cap, min_tokens, true).finite(),
        first_reached(row, matched, cap, min_tokens, false).finite(),
        split_by_life(row, total, matched, cap, min_tokens).one_hour == first_reached(
            row,
            matched,
            cap,
            min_tokens,
            true,
        ).len(),
        split_by_life(row, total, matched, cap, min_tokens).five_minutes == first_reached(
            row,
            matched,
            cap,
            min_tokens,
            false,
        ).len(),
    decreases row.len(),
{
    if row.len() == 0 {
        assert(first_reached(row, matched, cap, min_tokens, true) =~= Set::<int>::empty());
        assert(first_reached(row, matched, cap, min_tokens, false) =~= Set::<int>::empty());
    } else {
        let front = row.drop_last();
        let before = split_by_life(front, total, matched, cap, min_tokens).reached;
        let after = split_by_life(row, total, matched, cap, min_tokens).reached;
        let fresh = vstd::set_lib::set_int_range(before + 1, after + 1);
        law_new_tokens_live_as_their_breakpoint(front, total, matched, cap, min_tokens);
        lemma_split(front, total, matched, cap, min_tokens);
        lemma_split(row, total, matched, cap, min_tokens);
        vstd::set_lib::lemma_int_range(before + 1, after + 1);
        lemma_fresh(row, total, matched, cap, min_tokens, true);
        lemma_fresh(row, total, matched, cap, min_tokens, false);
    }
}

proof fn lemma_fresh(
    row: Seq<BreakpointModel>,
    total: int,
    matched: int,
    cap: int,
    min_tokens: int,
    hour: bool,
)
    requires
        row.len() > 0,
        matched <= cap <= total,
        first_reached(row.drop_last(), matched, cap, min_tokens, hour).finite(),
    ensures
        ({
            let before = split_by_life(row.drop_last(), total, matched, cap, min_tokens).reached;
            let after = split_by_life(row, total, matched, cap, min_tokens).reached;
            let old_set = first_reached(row.drop_last(), matched, cap, min_tokens, hour);
            let new_set = first_reached(row, matched, cap, min_tokens, hour);
            &&& new_set.finite()
            &&& new_set.len() == old_set.len() + (if (row.last().ttl >= 3_600_000_000_000) == hour {
                after - before
            } else {
                0
            })
        }),
{
    let front = row.drop_last();
    let before = split_by_life(front, total, matched, cap, min_tokens).reached;
    let after = split_by_life(row, total, matched, cap, min_tokens).reached;
    let old_set = first_reached(front, matched, cap, min_tokens, hour);
    let new_set = first_reached(row, matched, cap, min_tokens, hour);
    let fresh = vstd::set_lib::set_int_range(before + 1, after + 1);
    lemma_split(front, total, matched, cap, min_tokens);
    lemma_split(row, total, matched, cap, min_tokens);
    vstd::set_lib::lemma_int_range(before + 1, after + 1);
    assert forall|token: int|
        new_set.contains(token) <==> (old_set.contains(token) || (before < token <= after && (
        row.last().ttl >= 3_600_000_000_000) == hour)) by {
        lemma_first_reached(row, total, matched, cap, min_tokens, hour, token);
    }
    if (row.last().ttl >= 3_600_000_000_000) == hour {
        assert forall|token: int| old_set.contains(token) implies !fresh.contains(token) by {
            let i = choose|i: int|
                0 <= i < front.len() && (#[trigger] front[i]).cumulative_tokens >= min_tokens
                    && front[i].cumulative_tokens >= token && (front[i].ttl >= 3_600_000_000_000)
                    == hour && forall|j: int|
                    0 <= j < i ==> (#[trigger] front[j]).cumulative_tokens < min_tokens
                        || front[j].cumulative_tokens < token;
            assert(front[i].cumulative_tokens >= token);
            lemma_reached(front, total, matched, cap, min_tokens, token);
        }
        assert(new_set =~= old_set.union(fresh));
        assert(old_set.disjoint(fresh));
        vstd::set_lib::lemma_set_disjoint_lens(old_set, fresh);
    } else {
        assert(new_set =~= old_set);
    }
}

/// What a request creates is split by the life of the breakpoint that first reaches each
/// token beyond those read.
pub proof fn law_created_tokens_are_split_by_life(
    profile: ProfileModel,
    table: Table,
    account_id: u64,
    now: nat,
    min_tokens: int,
)
    requires
        profile.total_input_tokens >= 0,
        min_tokens >= 0,
    ensures
        ({
            let usage = usage_above(profile, table, account_id, now, min_tokens);
            let row = profile.breakpoints;
            let end = usage.read + usage.creation;
            &&& usage.creation_1h == first_reached(row, usage.read, end, min_tokens, true).len()
            &&& usage.creation_5m == first_reached(row, usage.read, end, min_tokens, false).len()
        }),
{
    let row = profile.breakpoints;
    let last = last_qualifying(row, min_tokens);
    let usage = usage_above(profile, table, account_id, now, min_tokens);
    lemma_last_qualifying(row, min_tokens);
    if last >= 0 {
        lemma_last_cached(row, min_tokens, live(table, now), account_id);
        law_new_tokens_live_as_their_breakpoint(
            row,
            profile.total_input_tokens,
            usage.read,
            usage.read + usage.creation,
            min_tokens,
        );
    } else {
        assert(first_reached(row, 0, 0, min_tokens, true) =~= Set::<int>::empty());
        assert(first_reached(row, 0, 0, min_tokens, false) =~= Set::<int>::empty());
    }
}

/// Whether a prefix is alive in a table.
pub open spec fn is_alive(table: Table, key: (u64, Seq<u8>), now: nat) -> bool {
    table.contains_key(key) && table[key].expires_at > now
}

/// Whether a breakpoint has enough tokens and is alive for an account, and none after it is
/// both.
pub open spec fn is_last_alive(
    row: Seq<BreakpointModel>,
    table: Table,
    account_id: u64,
    now: nat,
    min_tokens: int,
    at: int,
) -> bool {
    &&& 0 <= at < row.len()
    &&& row[at].cumulative_tokens >= min_tokens
    &&& is_alive(table, (account_id, row[at].fingerprint), now)
    &&& forall|j: int|
        at < j < row.len() && (#[trigger] row[j]).cumulative_tokens >= min_tokens ==> !is_alive(
            table,
            (account_id, row[j].fingerprint),
            now,
        )
}

/// The last breakpoint that is alive is the one that is found.
proof fn lemma_last_alive(
    row: Seq<BreakpointModel>,
    table: Table,
    account_id: u64,
    now: nat,
    min_tokens: int,
)
    ensures
        ({
            let hit = last_cached(row, min_tokens, live(table, now), account_id);
            &&& hit >= 0 ==> is_last_alive(row, table, account_id, now, min_tokens, hit)
            &&& forall|at: int| #[trigger]
                is_last_alive(row, table, account_id, now, min_tokens, at) ==> hit == at
        }),
{
    let alive = live(table, now);
    let hit = last_cached(row, min_tokens, alive, account_id);
    lemma_last_cached(row, min_tokens, alive, account_id);
    if hit >= 0 {
        assert(is_alive(table, (account_id, row[hit].fingerprint), now));
        assert forall|j: int|
            hit < j < row.len() && (#[trigger] row[j]).cumulative_tokens
                >= min_tokens implies !is_alive(table, (account_id, row[j].fingerprint), now) by {
            assert(!alive.contains_key((account_id, row[j].fingerprint)));
        }
    }
    assert forall|at: int| #[trigger]
        is_last_alive(row, table, account_id, now, min_tokens, at) implies hit == at by {
        assert forall|j: int|
            at < j < row.len() && (#[trigger] row[j]).cumulative_tokens
                >= min_tokens implies !alive.contains_key((account_id, row[j].fingerprint)) by {
            assert(!is_alive(table, (account_id, row[j].fingerprint), now));
        }
        lemma_is_last_cached(row, min_tokens, alive, account_id, at);
    }
}

/// A request never reads beyond what is cached: it reads nothing where none of its prefixes
/// that are long enough is alive in the account's table, else exactly the tokens up to the
/// last such prefix, within the total and within what can be cached, whatever the life of
/// that prefix is.
pub proof fn law_reads_only_what_is_cached(
    profile: ProfileModel,
    table: Table,
    account_id: u64,
    now: nat,
    min_tokens: int,
)
    requires
        profile.total_input_tokens >= 0,
        min_tokens >= 0,
    ensures
        ({
            let row = profile.breakpoints;
            let usage = usage_above(profile, table, account_id, now, min_tokens);
            &&& (forall|at: int|
                !#[trigger] is_last_alive(row, table, account_id, now, min_tokens, at))
                ==> usage.read == 0
            &&& forall|at: int| #[trigger]
                is_last_alive(row, table, account_id, now, min_tokens, at) ==> {
                    &&& 0 <= usage.read <= row[at].cumulative_tokens
                    &&& usage.read <= profile.total_input_tokens
                    &&& usage.creation >= 0
                    &&& usage.read == row[at].cumulative_tokens || usage.read
                        == profile.total_input_tokens || usage.creation == 0
                }
            &&& (forall|i: int|
                0 <= i < row.len() && (#[trigger] row[i]).cumulative_tokens >= min_tokens
                    ==> !is_alive(table, (account_id, row[i].fingerprint), now)) ==> usage.read
                == 0
        }),
{
    let row = profile.breakpoints;
    let hit = last_cached(row, min_tokens, live(table, now), account_id);
    lemma_last_alive(row, table, account_id, now, min_tokens);
    lemma_last_qualifying(row, min_tokens);
    if hit >= 0 {
        assert(is_last_alive(row, table, account_id, now, min_tokens, hit));
        assert(row[hit].cumulative_tokens >= min_tokens);
    }
}

/// Counting a request drops what has expired, renews the prefix that it reads by that
/// prefix's own life, and leaves every other prefix of every account as it is.
pub proof fn law_counting_renews_what_is_read(
    profile: ProfileModel,
    table: Table,
    account_id: u64,
    now: nat,
    min_tokens: int,
    key: (u64, Seq<u8>),
)
    ensures
        ({
            let row = profile.breakpoints;
            let after = table_above(profile, table, account_id, now, min_tokens);
            let counted = exists|i: int|
                0 <= i < row.len() && (#[trigger] row[i]).cumulative_tokens >= min_tokens;
            &&& !counted ==> after == table
            &&& counted ==> after.contains_key(key) == is_alive(table, key, now)
            &&& forall|at: int| #[trigger]
                is_last_alive(row, table, account_id, now, min_tokens, at) && key == (
                    account_id,
                    row[at].fingerprint,
                ) ==> after[key].ttl == table[key].ttl && after[key].expires_at == now
                    + table[key].ttl
            &&& is_alive(table, key, now) && (forall|at: int| #[trigger]
                is_last_alive(row, table, account_id, now, min_tokens, at) ==> key != (
                    account_id,
                    row[at].fingerprint,
                )) ==> after[key] == table[key]
        }),
{
    let row = profile.breakpoints;
    let last = last_qualifying(row, min_tokens);
    let hit = last_cached(row, min_tokens, live(table, now), account_id);
    lemma_last_qualifying(row, min_tokens);
    lemma_last_alive(row, table, account_id, now, min_tokens);
    if last >= 0 {
        assert(row[last].cumulative_tokens >= min_tokens);
    }
    if hit >= 0 {
        assert(is_last_alive(row, table, account_id, now, min_tokens, hit));
        assert(row[hit].cumulative_tokens >= min_tokens);
    }
}

/// Whether a breakpoint has enough tokens and is that of a prefix of an account, and none
/// after it is both.
pub open spec fn is_last_own(
    row: Seq<BreakpointModel>,
    min_tokens: int,
    account_id: u64,
    key: (u64, Seq<u8>),
    at: int,
) -> bool {
    &&& 0 <= at < row.len()
    &&& row[at].cumulative_tokens >= min_tokens
    &&& key == (account_id, row[at].fingerprint)
    &&& forall|j: int|
        at < j < row.len() && (#[trigger] row[j]).cumulative_tokens >= min_tokens
            ==> row[j].fingerprint != key.1
}

/// What is none of the breakpoints stays as it is.
proof fn lemma_stored_others(
    table: Table,
    row: Seq<BreakpointModel>,
    min_tokens: int,
    account_id: u64,
    now: nat,
    key: (u64, Seq<u8>),
)
    requires
        forall|i: int|
            0 <= i < row.len() && (#[trigger] row[i]).cumulative_tokens >= min_tokens ==> key != (
                account_id,
                row[i].fingerprint,
            ),
    ensures
        stored(table, row, min_tokens, account_id, now).contains_key(key) == table.contains_key(
            key,
        ),
        table.contains_key(key) ==> stored(table, row, min_tokens, account_id, now)[key]
            == table[key],
    decreases row.len(),
{
    if row.len() > 0 {
        let front = row.drop_last();
        assert forall|i: int|
            0 <= i < front.len() && (#[trigger] front[i]).cumulative_tokens
                >= min_tokens implies key != (account_id, front[i].fingerprint) by {
            assert(front[i] == row[i]);
        }
        lemma_stored_others(table, front, min_tokens, account_id, now, key);
        assert(row.last() == row[row.len() - 1]);
    }
}

/// What is one of the breakpoints lives from now, as long as the last one for it does.
proof fn lemma_stored_exactly(
    table: Table,
    row: Seq<BreakpointModel>,
    min_tokens: int,
    account_id: u64,
    now: nat,
    key: (u64, Seq<u8>),
    at: int,
)
    requires
        is_last_own(row, min_tokens, account_id, key, at),
    ensures
        ({
            let after = stored(table, row, min_tokens, account_id, now);
            &&& after.contains_key(key)
            &&& after[key].ttl == row[at].ttl
            &&& after[key].expires_at == now + row[at].ttl
        }),
    decreases row.len(),
{
    let front = row.drop_last();
    let n = row.len() - 1;
    assert(row.last() == row[n]);
    if at < n {
        assert forall|j: int|
            at < j < front.len() && (#[trigger] front[j]).cumulative_tokens
                >= min_tokens implies front[j].fingerprint != key.1 by {
            assert(row[j] == front[j]);
        }
        assert(is_last_own(front, min_tokens, account_id, key, at));
        lemma_stored_exactly(table, front, min_tokens, account_id, now, key, at);
    }
}

/// Storing a request forgets nothing that is alive: a prefix of any account that is none of
/// the request's own is there afterwards exactly where it was alive before, with the same
/// expiry and life. The request's own prefixes that are long enough are all there, and live
/// from now for the life of their last breakpoint.
pub proof fn law_storing_forgets_nothing(
    profile: ProfileModel,
    table: Table,
    account_id: u64,
    now: nat,
    min_tokens: int,
    key: (u64, Seq<u8>),
)
    ensures
        ({
            let row = profile.breakpoints;
            let after = stored_above(profile, table, account_id, now, min_tokens);
            &&& row.len() == 0 ==> after == table
            &&& row.len() > 0 && (forall|i: int|
                0 <= i < row.len() && (#[trigger] row[i]).cumulative_tokens >= min_tokens ==> key
                    != (account_id, row[i].fingerprint)) ==> after.contains_key(key) == is_alive(
                table,
                key,
                now,
            ) && (is_alive(table, key, now) ==> after[key] == table[key])
            &&& forall|at: int| #[trigger]
                is_last_own(row, min_tokens, account_id, key, at) ==> after.contains_key(key)
                    && after[key].ttl == row[at].ttl && after[key].expires_at == now + row[at].ttl
        }),
{
    let row = profile.breakpoints;
    let alive = live(table, now);
    if forall|i: int|
        0 <= i < row.len() && (#[trigger] row[i]).cumulative_tokens >= min_tokens ==> key != (
            account_id,
            row[i].fingerprint,
        ) {
        lemma_stored_others(alive, row, min_tokens, account_id, now, key);
    }
    assert forall|at: int| #[trigger]
        is_last_own(row, min_tokens, account_id, key, at) implies ({
        let after = stored_above(profile, table, account_id, now, min_tokens);
        after.contains_key(key) && after[key].ttl == row[at].ttl && after[key].expires_at == now
            + row[at].ttl
    }) by {
        lemma_stored_exactly(alive, row, min_tokens, account_id, now, key, at);
    }
}

/// Dropping what has expired keeps each other prefix with its times.
pub proof fn law_only_the_expired_are_dropped(table: Table, now: nat, key: (u64, Seq<u8>))
    ensures
        live(table, now).contains_key(key) <==> table.contains_key(key) && table[key].expires_at
            > now,
        table.contains_key(key) && table[key].expires_at > now ==> live(table, now)[key]
            == table[key],
{
}

/// The table holds every entry of the list, each under its account and fingerprint with its
/// own times, and nothing else.
pub proof fn law_table_holds_every_entry(entries: Seq<PromptCacheEntry>, key: (u64, Seq<u8>))
    requires
        entries_valid(entries),
    ensures
        table_of(entries).contains_key(key) <==> exists|i: int|
            0 <= i < entries.len() && (#[trigger] entries[i]).account_id == key.0
                && entries[i].fingerprint@ == key.1,
        forall|i: int|
            0 <= i < entries.len() && (#[trigger] entries[i]).account_id == key.0
                && entries[i].fingerprint@ == key.1 ==> table_of(entries)[key].expires_at
                == entries[i].expires_at && table_of(entries)[key].ttl == entries[i].ttl,
{
    lemma_table(entries);
    if table_of(entries).contains_key(key) {
        let i = choose|i: int| 0 <= i < entries.len() && key_of(#[trigger] entries[i]) == key;
        assert(entries[i].account_id == key.0 && entries[i].fingerprint@ == key.1);
    }
    assert forall|i: int|
        0 <= i < entries.len() && (#[trigger] entries[i]).account_id == key.0
            && entries[i].fingerprint@ == key.1 implies key_of(entries[i]) == key by {
    }
}

/// A request is counted and stored by the threshold of its model: 4096 tokens where the
/// name of the model, in lower case, has `opus` in it somewhere, else 1024.
pub proof fn law_models_set_the_threshold(
    profile: ProfileModel,
    table: Table,
    account_id: u64,
    now: nat,
)
    ensures
        ({
            let name = text::lowercase(profile.model);
            let opus = exists|i: int| 0 <= i <= name.len() - 4 && #[trigger] name.subrange(i, i + 4)
                == "opus"@;
            let least = if opus {
                4096int
            } else {
                1024int
            };
            &&& profile::min_cacheable(profile.model) == least
            &&& computed_usage(profile, table, account_id, now) == usage_above(
                profile,
                table,
                account_id,
                now,
                least,
            )
            &&& computed_table(profile, table, account_id, now) == table_above(
                profile,
                table,
                account_id,
                now,
                least,
            )
            &&& updated_table(profile, table, account_id, now) == stored_above(
                profile,
                table,
                account_id,
                now,
                least,
            )
        }),
{
    let name = text::lowercase(profile.model);
    reveal_strlit("opus");
    if text::holds(name, "opus"@) {
        let i = choose|i: int| 0 <= i <= name.len() && #[trigger] text::begins_with(
            name.skip(i),
            "opus"@,
        );
        assert(name.subrange(i, i + 4) =~= name.skip(i).take(4));
    }
    if exists|i: int| 0 <= i <= name.len() - 4 && #[trigger] name.subrange(i, i + 4) == "opus"@ {
        let i = choose|i: int| 0 <= i <= name.len() - 4 && #[trigger] name.subrange(i, i + 4)
            == "opus"@;
        assert(name.subrange(i, i + 4) =~= name.skip(i).take(4));
        assert(text::begins_with(name.skip(i), "opus"@));
    }
}

/// The most tokens that are reported as cached are 85 percent of the total, rounded down;
/// none where the total is none or a debt.
pub proof fn law_at_most_85_percent_are_reported(total: int)
    ensures
        total >= 0 ==> 20 * max_reportable(total) <= 17 * total < 20 * (max_reportable(total) + 1),
        total <= 0 ==> max_reportable(total) == 0,
{
}

/// Storing one request leaves what another reads as it is, in the same account or another,
/// where the two have no prefix in common.
pub proof fn law_requests_do_not_push_each_other_out(
    stored_profile: ProfileModel,
    profile: ProfileModel,
    table: Table,
    account_id: u64,
    at: nat,
    now: nat,
)
    requires
        at <= now,
        forall|i: int, j: int|
            0 <= i < stored_profile.breakpoints.len() && 0 <= j < profile.breakpoints.len() ==> (
            #[trigger] stored_profile.breakpoints[i]).fingerprint != (
            #[trigger] profile.breakpoints[j]).fingerprint,
    ensures
        computed_usage(
            profile,
            updated_table(stored_profile, table, account_id, at),
            account_id,
            now,
        ) == computed_usage(profile, table, account_id, now),
{
    let row = profile.breakpoints;
    let least = profile::min_cacheable(profile.model);
    let after = updated_table(stored_profile, table, account_id, at);
    assert forall|j: int| 0 <= j < row.len() implies live(after, now).contains_key(
        (account_id, (#[trigger] row[j]).fingerprint),
    ) == live(table, now).contains_key((account_id, row[j].fingerprint)) by {
        let key = (account_id, row[j].fingerprint);
        law_storing_forgets_nothing(
            stored_profile,
            table,
            account_id,
            at,
            profile::min_cacheable(stored_profile.model),
            key,
        );
    }
    let hit = last_cached(row, least, live(table, now), account_id);
    lemma_last_cached(row, least, live(table, now), account_id);
    if hit >= 0 {
        assert(live(after, now).contains_key((account_id, row[hit].fingerprint)));
    }
    assert forall|j: int|
        hit < j < row.len() && (#[trigger] row[j]).cumulative_tokens >= least implies !live(
        after,
        now,
    ).contains_key((account_id, row[j].fingerprint)) by {
        assert(!live(table, now).contains_key((account_id, row[j].fingerprint)));
    }
    lemma_is_last_cached(row, least, live(after, now), account_id, hit);
}

/// A usage is seen as it is: each number under its own name; no usage is all zeros.
pub proof fn law_usages_are_seen_whole(usage: PromptCacheUsage)
    ensures
        usage@.creation == usage.cache_creation_input_tokens,
        usage@.read == usage.cache_read_input_tokens,
        usage@.creation_5m == usage.cache_creation_5m_input_tokens,
        usage@.creation_1h == usage.cache_creation_1h_input_tokens,
        no_usage().creation == 0,
        no_usage().read == 0,
        no_usage().creation_5m == 0,
        no_usage().creation_1h == 0,
{
}

}
