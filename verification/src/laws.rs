//! What holds of the library as a whole: of its keys, its tiers, its buckets, and of
//! a store that keeps a bucket for each subject.

use vstd::arithmetic::div_mod::{lemma_fundamental_div_mod, lemma_fundamental_div_mod_converse};
use vstd::arithmetic::power2::{
    lemma2_to64, lemma2_to64_rest, lemma_pow2_adds, lemma_pow2_pos, lemma_pow2_strictly_increases,
    pow2,
};
use vstd::prelude::*;

use crate::double::{
    bits, ceiling, lemma_bits, lemma_nearest_exact, lemma_nearest_normal, lemma_quotient_normal,
    lemma_round_half_even, lemma_round_half_even_bounds, nearest, quotient, Binary, SIGNIFICAND,
};
use crate::hex::{lemma_lower_hex_digits, lemma_lower_hex_injective, lower_hex};
use crate::rate_limit::{
    ascii_lower, ip_rate_limit_key_text, listed, rate_limit_key_text, same_ignoring_case, tier_of,
    AgentTier, LimitType, RateLimitConfig, RateLimitResult,
};
use crate::rate_limiter::{
    admits, left_after, lemma_gain_takes_a_second, lemma_nothing_below_zero, lemma_split,
    next_state, params_for, refill_rate, refilled, reply_for, result_of, secs_to_gain, wait_for,
    BucketParams, BucketState, NANOS_PER_SEC, PARTS_PER_TOKEN, SLOWEST_SECS_PER_TOKEN, TOKEN_COST,
};
use crate::tenant::{lemma_uuid_text_chars, lemma_uuid_text_injective, uuid_text};

verus! {

// ---- Keys ----

/// The suffixes of two categories are equal only if the categories are.
proof fn lemma_suffix_injective(a: LimitType, b: LimitType)
    requires
        a.suffix() == b.suffix(),
    ensures
        a == b,
{
    reveal_strlit("msg");
    reveal_strlit("api");
    reveal_strlit("ws");
    reveal_strlit("conn");
    assert("msg"@[0] == 'm');
    assert("api"@[0] == 'a');
    assert("ws"@[0] == 'w');
    assert("conn"@[0] == 'c');
}

/// Where the parts of a pubkey key stand in it.
pub(crate) proof fn lemma_key_layout(community: Seq<u8>, pubkey: Seq<u8>, limit_type: LimitType)
    requires
        community.len() == 16,
        pubkey.len() == 32,
    ensures
        ({
            let key = rate_limit_key_text(community, pubkey, limit_type);
            &&& key.len() == 117 + limit_type.suffix().len()
            &&& key.subrange(0, 5) == "buzz:"@
            &&& key.subrange(5, 41) == uuid_text(community)
            &&& key.subrange(41, 52) == ":ratelimit:"@
            &&& key.subrange(52, 116) == lower_hex(pubkey)
            &&& key.subrange(116, 117) == ":"@
            &&& key.subrange(117, key.len() as int) == limit_type.suffix()
        }),
{
    reveal_strlit("buzz:");
    reveal_strlit(":ratelimit:");
    reveal_strlit(":");
    lemma_uuid_text_chars(community);
    let key = rate_limit_key_text(community, pubkey, limit_type);
    assert(key.subrange(0, 5) =~= "buzz:"@);
    assert(key.subrange(5, 41) =~= uuid_text(community));
    assert(key.subrange(41, 52) =~= ":ratelimit:"@);
    assert(key.subrange(52, 116) =~= lower_hex(pubkey));
    assert(key.subrange(116, 117) =~= ":"@);
    assert(key.subrange(117, key.len() as int) =~= limit_type.suffix());
}

/// A pubkey key determines the community, the pubkey and the category that it
/// was built from: the same pubkey in two communities has two keys, and so have
/// two pubkeys, and two categories.
pub proof fn law_pubkey_keys_are_distinct(
    community_a: Seq<u8>,
    pubkey_a: Seq<u8>,
    limit_type_a: LimitType,
    community_b: Seq<u8>,
    pubkey_b: Seq<u8>,
    limit_type_b: LimitType,
)
    requires
        community_a.len() == 16,
        community_b.len() == 16,
        pubkey_a.len() == 32,
        pubkey_b.len() == 32,
    ensures
        rate_limit_key_text(community_a, pubkey_a, limit_type_a)
            == rate_limit_key_text(community_b, pubkey_b, limit_type_b) ==> {
            &&& community_a == community_b
            &&& pubkey_a == pubkey_b
            &&& limit_type_a == limit_type_b
        },
{
    if rate_limit_key_text(community_a, pubkey_a, limit_type_a)
        == rate_limit_key_text(community_b, pubkey_b, limit_type_b) {
        lemma_key_layout(community_a, pubkey_a, limit_type_a);
        lemma_key_layout(community_b, pubkey_b, limit_type_b);
        lemma_uuid_text_injective(community_a, community_b);
        lemma_lower_hex_injective(pubkey_a, pubkey_b);
        lemma_suffix_injective(limit_type_a, limit_type_b);
    }
}

/// A pubkey key holds no uppercase letter, so that one community and pubkey
/// never have two keys that differ in case.
pub proof fn law_pubkey_keys_are_lowercase(
    community: Seq<u8>,
    pubkey: Seq<u8>,
    limit_type: LimitType,
)
    requires
        community.len() == 16,
        pubkey.len() == 32,
    ensures
        ({
            let key = rate_limit_key_text(community, pubkey, limit_type);
            forall|i: int| 0 <= i < key.len() ==> !('A' <= #[trigger] key[i] <= 'Z')
        }),
{
    reveal_strlit("buzz:");
    reveal_strlit(":ratelimit:");
    reveal_strlit(":");
    reveal_strlit("msg");
    reveal_strlit("api");
    reveal_strlit("ws");
    reveal_strlit("conn");
    lemma_uuid_text_chars(community);
    lemma_lower_hex_digits(pubkey);
    lemma_key_layout(community, pubkey, limit_type);
    let key = rate_limit_key_text(community, pubkey, limit_type);
    assert forall|i: int| 0 <= i < key.len() implies !('A' <= #[trigger] key[i] <= 'Z') by {
        if i < 5 {
            assert(key[i] == key.subrange(0, 5)[i]);
        } else if i < 41 {
            assert(key[i] == key.subrange(5, 41)[i - 5]);
        } else if i < 52 {
            assert(key[i] == key.subrange(41, 52)[i - 41]);
        } else if i < 116 {
            assert(key[i] == key.subrange(52, 116)[i - 52]);
        } else if i < 117 {
            assert(key[i] == key.subrange(116, 117)[i - 116]);
        } else {
            assert(key[i] == key.subrange(117, key.len() as int)[i - 117]);
        }
    }
}

/// Addresses with different text have different keys.
pub proof fn law_ip_keys_are_distinct(a: Seq<char>, b: Seq<char>)
    ensures
        ip_rate_limit_key_text(a) == ip_rate_limit_key_text(b) ==> a == b,
{
    reveal_strlit("buzz:ratelimit:ip:");
    reveal_strlit(":conn");
    let key_a = ip_rate_limit_key_text(a);
    let key_b = ip_rate_limit_key_text(b);
    if key_a == key_b {
        assert(key_a.len() == 18 + a.len() + 5 && key_b.len() == 18 + b.len() + 5);
        assert(a =~= key_a.subrange(18, 18 + a.len() as int));
        assert(b =~= key_b.subrange(18, 18 + b.len() as int));
    }
}

/// No IP key is a pubkey key: connection limits and community limits never
/// share a counter.
pub proof fn law_ip_keys_are_not_pubkey_keys(
    ip: Seq<char>,
    community: Seq<u8>,
    pubkey: Seq<u8>,
    limit_type: LimitType,
)
    requires
        community.len() == 16,
        pubkey.len() == 32,
    ensures
        ip_rate_limit_key_text(ip) != rate_limit_key_text(community, pubkey, limit_type),
{
    reveal_strlit("buzz:ratelimit:ip:");
    lemma_key_layout(community, pubkey, limit_type);
    lemma_uuid_text_chars(community);
    let key = rate_limit_key_text(community, pubkey, limit_type);
    assert(key[5] == key.subrange(5, 41)[0]);
    assert(ip_rate_limit_key_text(ip)[5] == 'r');
}

// ---- Tiers ----

/// A principal is limited as a human exactly when it is no agent, whatever the
/// allowlists hold.
pub proof fn law_human_exactly_if_no_agent(
    limits: RateLimitConfig,
    hex: Seq<char>,
    is_agent: bool,
)
    ensures
        (tier_of(limits, hex, is_agent) == AgentTier::Human) == !is_agent,
{
}

/// An agent is platform exactly if the platform allowlist holds it, on the
/// elevated one or not; elevated exactly if only the elevated one does; and
/// standard exactly if neither does.
pub proof fn law_allowlists_lift_agents(limits: RateLimitConfig, hex: Seq<char>)
    ensures
        ({
            let tier = tier_of(limits, hex, true);
            let platform = listed(limits.platform_pubkeys@, hex);
            let elevated = listed(limits.elevated_pubkeys@, hex);
            &&& (tier == AgentTier::Platform) == platform
            &&& (tier == AgentTier::Elevated) == (elevated && !platform)
            &&& (tier == AgentTier::Standard) == (!elevated && !platform)
        }),
{
}

/// Until an operator lists one, no agent is lifted.
pub proof fn law_empty_allowlists_lift_nobody(limits: RateLimitConfig, hex: Seq<char>)
    requires
        limits.elevated_pubkeys@.len() == 0,
        limits.platform_pubkeys@.len() == 0,
    ensures
        tier_of(limits, hex, true) == AgentTier::Standard,
{
}

/// Whether two allowlists are entry for entry equal up to case.
pub open spec fn same_entries_ignoring_case(a: Seq<String>, b: Seq<String>) -> bool {
    &&& a.len() == b.len()
    &&& forall|i: int| 0 <= i < a.len() ==> same_ignoring_case(#[trigger] a[i]@, b[i]@)
}

proof fn lemma_listed_ignores_case(a: Seq<String>, b: Seq<String>, hex: Seq<char>)
    requires
        same_entries_ignoring_case(a, b),
        listed(a, hex),
    ensures
        listed(b, hex),
{
    let i = choose|i: int| 0 <= i < a.len() && same_ignoring_case(#[trigger] a[i]@, hex);
    assert(same_ignoring_case(a[i]@, b[i]@));
    assert forall|k: int| 0 <= k < b[i]@.len() implies ascii_lower(#[trigger] b[i]@[k])
        == ascii_lower(hex[k]) by {
        assert(ascii_lower(a[i]@[k]) == ascii_lower(hex[k]));
    }
    assert(same_ignoring_case(b[i]@, hex));
}

/// The case in which an operator writes the keys of an allowlist makes no
/// difference to any tier.
pub proof fn law_allowlists_ignore_case(
    a: RateLimitConfig,
    b: RateLimitConfig,
    hex: Seq<char>,
    is_agent: bool,
)
    requires
        same_entries_ignoring_case(a.platform_pubkeys@, b.platform_pubkeys@),
        same_entries_ignoring_case(a.elevated_pubkeys@, b.elevated_pubkeys@),
    ensures
        tier_of(a, hex, is_agent) == tier_of(b, hex, is_agent),
{
    lemma_same_entries_symmetric(a.platform_pubkeys@, b.platform_pubkeys@);
    lemma_same_entries_symmetric(a.elevated_pubkeys@, b.elevated_pubkeys@);
    if listed(a.platform_pubkeys@, hex) {
        lemma_listed_ignores_case(a.platform_pubkeys@, b.platform_pubkeys@, hex);
    }
    if listed(b.platform_pubkeys@, hex) {
        lemma_listed_ignores_case(b.platform_pubkeys@, a.platform_pubkeys@, hex);
    }
    if listed(a.elevated_pubkeys@, hex) {
        lemma_listed_ignores_case(a.elevated_pubkeys@, b.elevated_pubkeys@, hex);
    }
    if listed(b.elevated_pubkeys@, hex) {
        lemma_listed_ignores_case(b.elevated_pubkeys@, a.elevated_pubkeys@, hex);
    }
}

proof fn lemma_same_entries_symmetric(a: Seq<String>, b: Seq<String>)
    requires
        same_entries_ignoring_case(a, b),
    ensures
        same_entries_ignoring_case(b, a),
{
    assert forall|i: int| 0 <= i < b.len() implies same_ignoring_case(#[trigger] b[i]@, a[i]@) by {
        assert(same_ignoring_case(a[i]@, b[i]@));
        assert forall|k: int| 0 <= k < b[i]@.len() implies ascii_lower(#[trigger] b[i]@[k])
            == ascii_lower(a[i]@[k]) by {
            assert(ascii_lower(a[i]@[k]) == ascii_lower(b[i]@[k]));
        }
    }
}

// ---- Buckets ----

/// What is kept of a bucket is well formed, is exactly what the request left,
/// and is never more than the capacity.
pub proof fn law_buckets_stay_within_capacity(
    state: Option<BucketState>,
    params: BucketParams,
    now: u64,
)
    requires
        params.wf(),
    ensures
        next_state(state, params, now).wf(),
        next_state(state, params, now).whole <= params.capacity,
        next_state(state, params, now).fractions(params.period()) == left_after(state, params, now),
        left_after(state, params, now) <= params.capacity * params.token(),
{
    let period = params.period() as int;
    let token = params.token() as int;
    let left = left_after(state, params, now) as int;
    let kept = next_state(state, params, now);
    let whole = left / token;
    let beyond = left % token;
    let part = beyond / period;
    let rest = beyond % period;
    lemma_fundamental_div_mod(left, token);
    lemma_fundamental_div_mod(beyond, period);
    assert(0 <= whole <= params.capacity) by (nonlinear_arith)
        requires
            0 <= left <= params.capacity * token,
            left == token * whole + beyond,
            0 <= beyond < token,
    ;
    assert(0 <= part < PARTS_PER_TOKEN) by (nonlinear_arith)
        requires
            0 <= beyond < PARTS_PER_TOKEN * period,
            beyond == period * part + rest,
            0 <= rest < period,
    ;
    assert(period * part == part * period && token * whole == whole * token) by (nonlinear_arith);
    lemma_split(left as nat, period as nat, whole as nat, part as nat, rest as nat);
    lemma_fundamental_div_mod_converse(kept.rest * period, period, kept.rest as int, 0);
    assert((whole * PARTS_PER_TOKEN + part) * period == whole * token + part * period)
        by (nonlinear_arith)
        requires
            token == PARTS_PER_TOKEN * period,
    ;
}

/// The result of a check reports the bucket: whether the request was allowed,
/// the counter (the tokens of the limit that are spent, as far as a reply can
/// tell), and the configured limit. The window never resets sooner than in a
/// second.
pub proof fn law_results_report_the_bucket(
    state: Option<BucketState>,
    window_secs: u64,
    limit: u64,
    now: u64,
)
    ensures
        ({
            let params = params_for(window_secs, limit);
            let result = result_of(params, reply_for(state, params, now));
            let whole = next_state(state, params, now).whole;
            let told = if whole <= i64::MAX {
                whole as int
            } else {
                i64::MAX as int
            };
            &&& whole <= limit
            &&& result.allowed == admits(state, params, now)
            &&& result.current == limit - told
            &&& result.limit == limit
            &&& result.allowed ==> result.current >= 1
            &&& !result.allowed ==> result.current == limit
            &&& result.reset_in_secs >= 1
        }),
{
    let params = params_for(window_secs, limit);
    let reply = reply_for(state, params, now);
    lemma_whole_tokens_left(state, params, now);
    lemma_gain_takes_a_second(params, reply.capacity - reply.remaining);
    lemma_waits_take_a_second(params, reply.remaining);
}

/// How many whole tokens a request leaves: less than the capacity where it was
/// allowed, and none where it was denied.
pub(crate) proof fn lemma_whole_tokens_left(
    state: Option<BucketState>,
    params: BucketParams,
    now: u64,
)
    requires
        params.wf(),
    ensures
        ({
            let whole = next_state(state, params, now).whole;
            &&& whole == left_after(state, params, now) / params.token()
            &&& whole * params.token() <= left_after(state, params, now)
            &&& whole <= params.capacity
            &&& admits(state, params, now) ==> whole < params.capacity
            &&& !admits(state, params, now) ==> whole == 0
        }),
{
    let token = params.token() as int;
    let left = left_after(state, params, now) as int;
    law_buckets_stay_within_capacity(state, params, now);
    lemma_fundamental_div_mod(left, token);
    assert(0 <= left / token <= params.capacity && (left / token) * token <= left)
        by (nonlinear_arith)
        requires
            0 <= left <= params.capacity * token,
            left == token * (left / token) + left % token,
            left % token >= 0,
            token > 0,
    ;
    if admits(state, params, now) {
        assert(left / token < params.capacity) by (nonlinear_arith)
            requires
                0 <= left <= params.capacity * token - token,
                token > 0,
        ;
    } else {
        lemma_fundamental_div_mod_converse(left, token, 0, left);
    }
}

/// A bucket that is asked to refill over another window keeps its whole tokens
/// and parts, and the rest but for less than one of the fractions that it is now
/// counted in.
pub proof fn law_changing_the_window_keeps_tokens(bucket: BucketState, params: BucketParams)
    requires
        bucket.wf(),
        params.wf(),
    ensures
        ({
            let parts = bucket.whole * PARTS_PER_TOKEN + bucket.part;
            let held = (parts * bucket.per + bucket.rest) * params.period();
            let counted = bucket.fractions(params.period());
            &&& parts * params.period() <= counted
            &&& counted * bucket.per <= held < (counted + 1) * bucket.per
        }),
{
    let period = params.period() as int;
    let per = bucket.per as int;
    let rest = bucket.rest as int;
    let parts = bucket.whole * PARTS_PER_TOKEN + bucket.part;
    let scaled = (rest * period) / per;
    let over = (rest * period) % per;
    lemma_fundamental_div_mod(rest * period, per);
    assert(0 <= scaled) by (nonlinear_arith)
        requires
            rest * period == per * scaled + over,
            0 <= rest,
            0 <= period,
            0 <= over < per,
    ;
    assert({
        &&& (parts * period + scaled) * per <= (parts * per + rest) * period
        &&& (parts * per + rest) * period < (parts * period + scaled + 1) * per
    }) by (nonlinear_arith)
        requires
            rest * period == per * scaled + over,
            0 <= over < per,
    ;
}

/// Waiting never hurts: what is allowed now is allowed later.
pub proof fn law_waiting_never_hurts(
    state: Option<BucketState>,
    params: BucketParams,
    now: u64,
    later: u64,
)
    requires
        params.wf(),
        state matches Some(bucket) ==> bucket.wf(),
        now <= later,
    ensures
        refilled(state, params, now) <= refilled(state, params, later),
        admits(state, params, now) ==> admits(state, params, later),
        reply_for(state, params, now).allowed == 1 ==> reply_for(state, params, later).allowed == 1,
{
    if let Some(bucket) = state {
        let early = if now > bucket.last {
            now - bucket.last
        } else {
            0
        };
        let late = if later > bucket.last {
            later - bucket.last
        } else {
            0
        };
        assert(early * params.refill_tokens * PARTS_PER_TOKEN <= late * params.refill_tokens
            * PARTS_PER_TOKEN) by (nonlinear_arith)
            requires
                early <= late,
        ;
    }
}

/// The bucket after requests at the given times, in their order.
pub open spec fn state_after(
    state: Option<BucketState>,
    params: BucketParams,
    times: Seq<u64>,
) -> Option<BucketState>
    decreases times.len(),
{
    if times.len() == 0 {
        state
    } else {
        Some(next_state(state_after(state, params, times.drop_last()), params, times.last()))
    }
}

/// How many of the requests at the given times are allowed.
pub open spec fn admitted(
    state: Option<BucketState>,
    params: BucketParams,
    times: Seq<u64>,
) -> nat
    decreases times.len(),
{
    if times.len() == 0 {
        0
    } else {
        let before = times.drop_last();
        let now = times.last();
        admitted(state, params, before) + if reply_for(
            state_after(state, params, before),
            params,
            now,
        ).allowed == 1 {
            1nat
        } else {
            0nat
        }
    }
}

/// Whether the times never go back.
pub open spec fn in_order(times: Seq<u64>) -> bool {
    forall|i: int, j: int| 0 <= i <= j < times.len() ==> times[i] <= times[j]
}

/// Tokens given out and tokens kept are covered by the capacity and by what
/// flowed in since the first of the requests.
proof fn lemma_tokens_are_accounted_for(
    state: Option<BucketState>,
    params: BucketParams,
    times: Seq<u64>,
)
    requires
        params.wf(),
        times.len() > 0,
        in_order(times),
    ensures
        admitted(state, params, times) * params.token() + state_after(
            state,
            params,
            times,
        ).unwrap().fractions(params.period()) <= params.capacity * params.token()
            + params.refill_tokens * (times.last() - times.first()) * PARTS_PER_TOKEN,
    decreases times.len(),
{
    let token = params.token() as int;
    let before = times.drop_last();
    let now = times.last();
    let prior = state_after(state, params, before);
    law_buckets_stay_within_capacity(prior, params, now);
    let count = admitted(state, params, before) as int;
    if before.len() == 0 {
        assert(count == 0);
        assert((count + 1) * token == token && count * token == 0) by (nonlinear_arith)
            requires
                count == 0,
        ;
        assert(params.refill_tokens * (times.last() - times.first()) * PARTS_PER_TOKEN == 0)
            by (nonlinear_arith)
            requires
                times.last() - times.first() == 0,
        ;
    } else {
        lemma_tokens_are_accounted_for(state, params, before);
        let then = before.last();
        assert(then == times[times.len() - 2]);
        assert(prior.unwrap().last == then);
        assert((count + 1) * token == count * token + token) by (nonlinear_arith);
        assert(params.refill_tokens * (now - times.first()) * PARTS_PER_TOKEN
            == params.refill_tokens * (then - times.first()) * PARTS_PER_TOKEN + (now - then)
            * params.refill_tokens * PARTS_PER_TOKEN) by (nonlinear_arith);
    }
}

/// Tokens given out, in whole ones.
proof fn lemma_count_in_tokens(count: nat, limit: u64, flowed: nat, period: nat)
    requires
        period > 0,
        count * (PARTS_PER_TOKEN as nat * period) <= limit * (PARTS_PER_TOKEN as nat * period)
            + flowed * PARTS_PER_TOKEN,
    ensures
        count <= limit + flowed / period,
{
    assert(count * period <= limit * period + flowed) by (nonlinear_arith)
        requires
            count * (PARTS_PER_TOKEN as nat * period) <= limit * (PARTS_PER_TOKEN as nat * period)
                + flowed * PARTS_PER_TOKEN,
            PARTS_PER_TOKEN > 0,
    ;
    assert(count <= limit + flowed / period) by (nonlinear_arith)
        requires
            count * period <= limit * period + flowed,
            period > 0,
    ;
}

/// There is no boundary burst: whatever the bucket held, the requests allowed
/// between any two moments are at most `limit`, and what flows in between the
/// two at `limit` per window, a window of zero counting as one second. In
/// particular no more than `limit` are allowed at one moment.
pub proof fn law_bursts_are_bounded(
    state: Option<BucketState>,
    window_secs: u64,
    limit: u64,
    times: Seq<u64>,
)
    requires
        times.len() > 0,
        in_order(times),
    ensures
        ({
            let window_nanos = (if window_secs == 0 {
                1int
            } else {
                window_secs as int
            }) * 1_000_000_000;
            admitted(state, params_for(window_secs, limit), times) <= limit + (limit * (
            times.last() - times.first())) / window_nanos
        }),
{
    let params = params_for(window_secs, limit);
    let flowed = limit * (times.last() - times.first());
    lemma_tokens_are_accounted_for(state, params, times);
    assert(0 <= flowed) by (nonlinear_arith)
        requires
            flowed == limit * (times.last() - times.first()),
            times.last() >= times.first(),
    ;
    lemma_count_in_tokens(
        admitted(state, params, times),
        limit,
        flowed as nat,
        params.period(),
    );
}

/// A bucket that was never used allows a burst of exactly `limit` requests at
/// one moment, the first ones, and denies every further one: after any number of
/// requests at that moment, the next is allowed exactly if they are fewer than
/// `limit`. The counter goes up by one with each until it is `limit`, and stays
/// there.
pub proof fn law_fresh_buckets_allow_the_limit(
    window_secs: u64,
    limit: u64,
    now: u64,
    times: Seq<u64>,
)
    requires
        forall|i: int| 0 <= i < times.len() ==> times[i] == now,
    ensures
        ({
            let params = params_for(window_secs, limit);
            let next = state_after(None, params, times);
            let result = result_of(params, reply_for(next, params, now));
            &&& admitted(None, params, times) == if times.len() <= limit {
                times.len()
            } else {
                limit as nat
            }
            &&& result.allowed == (times.len() < limit)
            &&& limit <= i64::MAX ==> result.current == if times.len() < limit {
                times.len() + 1
            } else {
                limit as nat
            }
        }),
{
    let params = params_for(window_secs, limit);
    let longer = times.push(now);
    lemma_fresh_burst(params, now, times);
    lemma_fresh_burst(params, now, longer);
    assert(longer.drop_last() =~= times);
    let token = params.token() as int;
    let prior = state_after(None, params, times);
    let held = limit - admitted(None, params, longer);
    assert(left_after(prior, params, now) == held * token) by {
        law_buckets_stay_within_capacity(prior, params, now);
    }
    lemma_fundamental_div_mod_converse(held * token, token, held, 0);
    law_results_report_the_bucket(prior, window_secs, limit, now);
}

proof fn lemma_fresh_burst(params: BucketParams, now: u64, times: Seq<u64>)
    requires
        params.wf(),
        forall|i: int| 0 <= i < times.len() ==> times[i] == now,
    ensures
        ({
            let count = if times.len() <= params.capacity {
                times.len() as int
            } else {
                params.capacity as int
            };
            let left = state_after(None, params, times);
            &&& admitted(None, params, times) == count
            &&& times.len() == 0 ==> left is None
            &&& times.len() > 0 ==> {
                &&& left.unwrap().last == now
                &&& left.unwrap().fractions(params.period()) == (params.capacity - count)
                    * params.token()
            }
        }),
    decreases times.len(),
{
    if times.len() > 0 {
        let before = times.drop_last();
        lemma_fresh_burst(params, now, before);
        let prior = state_after(None, params, before);
        law_buckets_stay_within_capacity(prior, params, now);
        let token = params.token() as int;
        let count = admitted(None, params, before) as int;
        let held = params.capacity - count;
        assert(held * token <= params.capacity * token) by (nonlinear_arith)
            requires
                held <= params.capacity,
                token > 0,
        ;
        assert(refilled(prior, params, now) == held * token);
        assert((held * token >= token) == (held >= 1)) by (nonlinear_arith)
            requires
                token > 0,
        ;
        assert((held - 1) * token == held * token - token) by (nonlinear_arith);
    }
}

/// The average rate is granted: a request that comes a token's worth of time or
/// more after the last one is allowed.
pub proof fn law_the_average_rate_is_granted(
    bucket: BucketState,
    window_secs: u64,
    limit: u64,
    now: u64,
)
    requires
        bucket.wf(),
        limit > 0,
        bucket.last <= now,
        (now - bucket.last) * limit >= (if window_secs == 0 {
            1int
        } else {
            window_secs as int
        }) * 1_000_000_000,
    ensures
        admits(Some(bucket), params_for(window_secs, limit), now),
        reply_for(Some(bucket), params_for(window_secs, limit), now).allowed == 1,
{
    let params = params_for(window_secs, limit);
    let token = params.token();
    assert(limit * token >= token) by (nonlinear_arith)
        requires
            limit >= 1,
    ;
    assert((now - bucket.last) * limit * PARTS_PER_TOKEN >= token) by (nonlinear_arith)
        requires
            (now - bucket.last) * limit >= params.period(),
            token == PARTS_PER_TOKEN * params.period(),
    ;
}

/// Requests that keep to the average rate are all allowed: on a bucket that was
/// never used, none of a run of requests is denied whose every two neighbours are
/// a token's worth of time or more apart.
pub proof fn law_paced_requests_are_all_allowed(window_secs: u64, limit: u64, times: Seq<u64>)
    requires
        limit > 0,
        forall|i: int|
            1 <= i < times.len() ==> (#[trigger] times[i] - times[i - 1]) * limit >= (if window_secs
                == 0 {
                1int
            } else {
                window_secs as int
            }) * 1_000_000_000,
    ensures
        admitted(None, params_for(window_secs, limit), times) == times.len(),
    decreases times.len(),
{
    let params = params_for(window_secs, limit);
    let period = params.period();
    if times.len() > 0 {
        let before = times.drop_last();
        let now = times.last();
        let prior = state_after(None, params, before);
        assert forall|i: int| 1 <= i < before.len() implies (#[trigger] before[i] - before[i - 1])
            * limit >= period by {
            assert(before[i] == times[i] && before[i - 1] == times[i - 1]);
        }
        law_paced_requests_are_all_allowed(window_secs, limit, before);
        if before.len() == 0 {
            assert(limit * params.token() >= params.token()) by (nonlinear_arith)
                requires
                    limit >= 1,
            ;
        } else {
            let bucket = prior.unwrap();
            let gap = now - bucket.last;
            law_buckets_stay_within_capacity(
                state_after(None, params, before.drop_last()),
                params,
                before.last(),
            );
            assert(now == times[times.len() - 1] && bucket.last == times[times.len() - 2]);
            assert(gap * limit >= period);
            assert(gap >= 0) by (nonlinear_arith)
                requires
                    gap * limit >= period,
                    period > 0,
                    limit > 0,
            ;
            law_the_average_rate_is_granted(bucket, window_secs, limit, now);
        }
    }
}

/// A limit of zero allows nothing.
pub proof fn law_zero_limit_denies(state: Option<BucketState>, window_secs: u64, now: u64)
    ensures
        !admits(state, params_for(window_secs, 0), now),
        reply_for(state, params_for(window_secs, 0), now).allowed == 0,
{
    let token = params_for(window_secs, 0).token();
    assert(0 * token == 0);
}

/// A denied request costs nothing: a later request finds the bucket as if the
/// denied one had not been made.
pub proof fn law_denied_requests_cost_nothing(
    bucket: BucketState,
    params: BucketParams,
    denied_at: u64,
    now: u64,
)
    requires
        params.wf(),
        bucket.wf(),
        bucket.last <= denied_at <= now,
        reply_for(Some(bucket), params, denied_at).allowed != 1,
    ensures
        refilled(Some(next_state(Some(bucket), params, denied_at)), params, now) == refilled(
            Some(bucket),
            params,
            now,
        ),
        reply_for(Some(next_state(Some(bucket), params, denied_at)), params, now) == reply_for(
            Some(bucket),
            params,
            now,
        ),
        next_state(Some(next_state(Some(bucket), params, denied_at)), params, now) == next_state(
            Some(bucket),
            params,
            now,
        ),
{
    law_buckets_stay_within_capacity(Some(bucket), params, denied_at);
    assert((now - bucket.last) * params.refill_tokens * PARTS_PER_TOKEN == (denied_at - bucket.last)
        * params.refill_tokens * PARTS_PER_TOKEN + (now - denied_at) * params.refill_tokens
        * PARTS_PER_TOKEN) by (nonlinear_arith);
    assert((now - denied_at) * params.refill_tokens * PARTS_PER_TOKEN >= 0) by (nonlinear_arith)
        requires
            now >= denied_at,
    ;
}

/// No wait is shorter than a second.
proof fn lemma_waits_take_a_second(params: BucketParams, remaining: i64)
    requires
        params.wf(),
    ensures
        wait_for(params, remaining as int) >= 1,
{
    if remaining < TOKEN_COST {
        let below = (-remaining) as nat;
        lemma_nearest_normal(TOKEN_COST as nat + ceiling(nearest(below)));
        lemma_rate_is_normal(params);
        let wait = quotient(
            nearest(TOKEN_COST as nat + ceiling(nearest(below))),
            refill_rate(params),
        );
        lemma_quotient_normal(
            nearest(TOKEN_COST as nat + ceiling(nearest(below))),
            refill_rate(params),
        );
        lemma_ceiling_covers(wait);
    }
}

/// The refill rate is a normal double.
pub(crate) proof fn lemma_rate_is_normal(params: BucketParams)
    requires
        params.wf(),
    ensures
        refill_rate(params).normal(),
{
    if params.refill_tokens > 0 {
        lemma_nearest_normal(params.refill_tokens as nat);
        lemma_nearest_normal(params.refill_secs as nat);
        lemma_quotient_normal(
            nearest(params.refill_tokens as nat),
            nearest(params.refill_secs as nat),
        );
    }
}

/// The ceiling of a positive double is positive, not below the double, and less
/// than one above it.
proof fn lemma_ceiling_covers(x: Binary)
    requires
        x.normal(),
    ensures
        ceiling(x) >= 1,
        x.exp >= 0 ==> ceiling(x) >= SIGNIFICAND,
        x.exp < 0 ==> ceiling(x) * pow2((-x.exp) as nat) >= x.mant > (ceiling(x) - 1) * pow2(
            (-x.exp) as nat,
        ),
{
    if x.exp >= 0 {
        let unit = pow2(x.exp as nat);
        lemma_pow2_pos(x.exp as nat);
        assert(x.mant * unit >= x.mant) by (nonlinear_arith)
            requires
                unit >= 1,
        ;
    } else {
        let unit = pow2((-x.exp) as nat) as int;
        lemma_pow2_pos((-x.exp) as nat);
        let up = (x.mant + unit - 1) / unit;
        lemma_fundamental_div_mod(x.mant + unit - 1, unit);
        assert(up * unit >= x.mant > (up - 1) * unit && up >= 1) by (nonlinear_arith)
            requires
                x.mant + unit - 1 == unit * up + (x.mant + unit - 1) % unit,
                0 <= (x.mant + unit - 1) % unit < unit,
                x.mant >= 1,
                unit >= 1,
        ;
    }
}

/// Two roundings do not bring a wait below what it has to cover: `rate` is
/// `tokens * a / (secs * b)` rounded, `wait` is `c / rate` rounded, and `k` is
/// not below `wait / g`.
proof fn lemma_two_roundings(
    tokens: nat,
    secs: nat,
    a: nat,
    b: nat,
    c: nat,
    g: nat,
    rate: nat,
    wait: nat,
    k: nat,
)
    requires
        secs > 0,
        b > 0,
        a > 0,
        2 * (rate * (secs * b)) <= 2 * (tokens * a) + secs * b,
        2 * (tokens * a) <= 2 * (rate * (secs * b)) + secs * b,
        2 * c <= 2 * (wait * rate) + rate,
        g * a == c * b,
        wait <= k * g,
        (wait + rate + 1) * secs < 2 * c,
    ensures
        k * tokens >= secs,
{
    if k * tokens < secs {
        let n = tokens * a;
        let d = secs * b;
        let t = c * b;
        assert(d > 0) by (nonlinear_arith)
            requires
                d == secs * b,
                secs > 0,
                b > 0,
        ;
        assert(wait * n <= t * (secs - 1)) by (nonlinear_arith)
            requires
                n == tokens * a,
                t == g * a,
                wait <= k * g,
                k * tokens <= secs - 1,
                a > 0,
                g >= 0,
                tokens >= 0,
        ;
        assert(c * d == t * secs) by (nonlinear_arith)
            requires
                d == secs * b,
                t == c * b,
        ;
        assert(4 * (t * secs) <= 4 * (wait * n) + 2 * (wait * d) + 2 * n + d) by (nonlinear_arith)
            requires
                2 * c <= 2 * (wait * rate) + rate,
                2 * (rate * d) <= 2 * n + d,
                c * d == t * secs,
                d > 0,
                wait >= 0,
        ;
        assert(t * (secs - 1) == t * secs - t) by (nonlinear_arith);
        assert(4 * t <= 2 * (wait * d) + 2 * (rate * d) + 2 * d);
        assert((wait + rate + 1) * secs >= 2 * c) by (nonlinear_arith)
            requires
                4 * t <= 2 * (wait * d) + 2 * (rate * d) + 2 * d,
                c * d == t * secs,
                d > 0,
                secs > 0,
        ;
    }
}

/// Nor do they bring it two seconds above.
proof fn lemma_two_roundings_up(
    tokens: nat,
    secs: nat,
    a: nat,
    b: nat,
    c: nat,
    g: nat,
    rate: nat,
    wait: nat,
    k: nat,
)
    requires
        secs > 0,
        b > 0,
        a > 0,
        tokens > 0,
        wait > 0,
        2 * (tokens * a) - secs * b <= 2 * (rate * (secs * b)),
        2 * (tokens * a) <= 2 * (rate * (secs * b)) + secs * b,
        2 * (wait * rate) <= 2 * c + rate,
        g * a == c * b,
        (k - 1) * g < wait,
        (2 * wait + 2 * rate + 1) * secs < 4 * c,
    ensures
        (k - 2) * tokens < secs,
{
    if (k - 2) * tokens >= secs {
        let n = tokens * a;
        let d = secs * b;
        let t = c * b;
        assert(d > 0) by (nonlinear_arith)
            requires
                d == secs * b,
                secs > 0,
                b > 0,
        ;
        assert((k - 1) * tokens == (k - 2) * tokens + tokens) by (nonlinear_arith);
        assert((2 * wait - 1) * rate == 2 * (wait * rate) - rate) by (nonlinear_arith);
        assert(wait * n >= t * (secs + tokens)) by (nonlinear_arith)
            requires
                n == tokens * a,
                t == g * a,
                wait >= (k - 1) * g,
                (k - 1) * tokens >= secs + tokens,
                a > 0,
                g >= 0,
                tokens > 0,
        ;
        assert(c * d == t * secs) by (nonlinear_arith)
            requires
                d == secs * b,
                t == c * b,
        ;
        assert(4 * (wait * n) - 2 * (wait * d) - 2 * n + d <= 4 * (t * secs)) by (nonlinear_arith)
            requires
                (2 * wait - 1) * rate <= 2 * c,
                2 * n - d <= 2 * (rate * d),
                c * d == t * secs,
                d > 0,
                wait >= 1,
        ;
        assert(t * (secs + tokens) == t * secs + t * tokens) by (nonlinear_arith);
        assert(4 * (t * tokens) <= 2 * (wait * d) + 2 * (rate * d) + d);
        assert(t * tokens >= t) by (nonlinear_arith)
            requires
                tokens >= 1,
                t >= 0,
        ;
        assert((2 * wait + 2 * rate + 1) * secs >= 4 * c) by (nonlinear_arith)
            requires
                4 * t <= 2 * (wait * d) + 2 * (rate * d) + d,
                c * d == t * secs,
                d > 0,
                secs > 0,
        ;
    }
}

/// The wait of an empty bucket covers a token, and one that is two seconds
/// shorter does not. This is so of every window below two to the fifty-second,
/// where the wait is below that number too.
pub proof fn law_waits_are_close_to_the_rate(params: BucketParams)
    requires
        params.wf(),
        params.refill_tokens > 0,
        params.refill_secs < SIGNIFICAND,
    ensures
        ({
            let wait = wait_for(params, 0);
            wait < SIGNIFICAND ==> {
                &&& wait * params.refill_tokens >= params.refill_secs
                &&& (wait - 2) * params.refill_tokens < params.refill_secs
            }
        }),
{
    let tokens = params.refill_tokens as nat;
    let secs = params.refill_secs as nat;
    let least = SIGNIFICAND as nat;
    lemma_waits_take_a_second(params, 0);
    lemma2_to64();
    lemma2_to64_rest();
    lemma_nothing_below_zero();
    let one = nearest(1);
    assert(bits(0) == 0);
    assert(bits(1) == 1);
    assert(one.mant == least && one.exp == -52);
    let x = nearest(tokens);
    let y = nearest(secs);
    let rate = refill_rate(params);
    let wait = quotient(one, rate);
    lemma_nearest_normal(tokens);
    lemma_nearest_normal(secs);
    lemma_nearest_exact(secs);
    lemma_quotient_normal(x, y);
    lemma_rate_is_normal(params);
    lemma_quotient_normal(one, rate);
    lemma_ceiling_covers(wait);
    if quotient(x, y).exp < -104 {
        lemma_round_half_even_bounds(least * least, least, least, least);
        assert(wait.exp == 0);
    } else if tokens >= 2 * SIGNIFICAND {
        lemma_fast_rates_wait_a_second(params);
        assert(1 * tokens >= secs && (1 - 2) * tokens < secs);
    } else if wait.exp < 0 {
        lemma_nearest_exact(tokens);
        let s1 = if x.mant >= y.mant {
            52nat
        } else {
            53nat
        };
        let s2 = if one.mant >= rate.mant {
            52nat
        } else {
            53nat
        };
        let a1 = (-x.exp) as nat;
        let b1 = (-y.exp) as nat;
        let a = pow2(a1) * pow2(s1);
        let b = pow2(b1);
        let c = least * pow2(s2);
        let g = pow2((-wait.exp) as nat);
        let k = ceiling(wait);
        lemma_pow2_pos(a1);
        lemma_pow2_pos(b1);
        lemma_pow2_pos(s1);
        lemma_pow2_adds(a1, s1);
        lemma_pow2_adds((-wait.exp) as nat, a1 + s1);
        lemma_pow2_adds(52, s2);
        lemma_pow2_adds(52 + s2, b1);
        assert(g * a == c * b);
        assert(a > 0) by (nonlinear_arith)
            requires
                a == pow2(a1) * pow2(s1),
                pow2(a1) > 0,
                pow2(s1) > 0,
        ;
        assert(x.mant * pow2(s1) == tokens * a) by (nonlinear_arith)
            requires
                x.mant == tokens * pow2(a1),
                a == pow2(a1) * pow2(s1),
        ;
        lemma_round_half_even(tokens * a, secs * b);
        lemma_round_half_even(c, rate.mant);
        if s2 == 52 {
            lemma_round_half_even_bounds(least * least, least, least, least);
        }
        assert({
            &&& (wait.mant + rate.mant + 1) * secs < 2 * c
            &&& (2 * wait.mant + 2 * rate.mant + 1) * secs < 4 * c
        }) by (nonlinear_arith)
            requires
                secs < 4_503_599_627_370_496,
                ({
                    ||| wait.mant + rate.mant == 9_007_199_254_740_992 && c
                        == 4_503_599_627_370_496 * 4_503_599_627_370_496
                    ||| wait.mant + rate.mant <= 18_014_398_509_481_982 && c
                        == 4_503_599_627_370_496 * 9_007_199_254_740_992
                }),
        ;
        lemma_two_roundings(tokens, secs, a, b, c, g, rate.mant, wait.mant, k);
        lemma_two_roundings_up(tokens, secs, a, b, c, g, rate.mant, wait.mant, k);
    }
}

/// A bucket that gains more tokens in its window than doubles can tell apart
/// has one within a second.
proof fn lemma_fast_rates_wait_a_second(params: BucketParams)
    requires
        params.wf(),
        params.refill_tokens >= 2 * SIGNIFICAND,
        params.refill_secs < SIGNIFICAND,
    ensures
        wait_for(params, 0) == 1,
{
    let tokens = params.refill_tokens as nat;
    let secs = params.refill_secs as nat;
    lemma2_to64();
    lemma2_to64_rest();
    lemma_nothing_below_zero();
    lemma_waits_take_a_second(params, 0);
    lemma_bits(tokens);
    lemma_bits(secs);
    if bits(tokens) < 54 && bits(tokens) != 53 {
        lemma_pow2_strictly_increases(bits(tokens), 53);
    }
    if bits(secs) > 53 {
        lemma_pow2_strictly_increases(52, (bits(secs) - 1) as nat);
    }
    let one = nearest(1);
    assert(bits(0) == 0);
    assert(bits(1) == 1);
    assert(one.mant == SIGNIFICAND && one.exp == -52);
    let rate = refill_rate(params);
    let wait = quotient(one, rate);
    lemma_nearest_normal(tokens);
    lemma_nearest_normal(secs);
    lemma_quotient_normal(nearest(tokens), nearest(secs));
    lemma_quotient_normal(one, rate);
    lemma_ceiling_covers(wait);
    assert(wait.exp <= -53);
    let unit = pow2((-wait.exp) as nat);
    if wait.exp < -53 {
        lemma_pow2_strictly_increases(53, (-wait.exp) as nat);
    }
    assert(ceiling(wait) <= 1) by (nonlinear_arith)
        requires
            (ceiling(wait) - 1) * unit < wait.mant < 9_007_199_254_740_992,
            unit >= 9_007_199_254_740_992,
    ;
}

/// A denied request reports a wait of at least one second, and a request once
/// that wait is over is allowed, if none came between. This is so of every window
/// below two to the fifty-second; longer ones differ by less than a double can
/// tell.
pub proof fn law_the_reported_wait_suffices(
    state: Option<BucketState>,
    window_secs: u64,
    limit: u64,
    denied_at: u64,
    now: u64,
)
    requires
        limit > 0,
        window_secs < SIGNIFICAND,
        reply_for(state, params_for(window_secs, limit), denied_at).allowed != 1,
    ensures
        ({
            let params = params_for(window_secs, limit);
            let result = result_of(params, reply_for(state, params, denied_at));
            &&& !result.allowed
            &&& result.reset_in_secs >= 1
            &&& now >= denied_at + result.reset_in_secs * 1_000_000_000 ==> {
                let kept = Some(next_state(state, params, denied_at));
                &&& admits(kept, params, now)
                &&& reply_for(kept, params, now).allowed == 1
            }
        }),
{
    let params = params_for(window_secs, limit);
    let result = result_of(params, reply_for(state, params, denied_at));
    let wait = result.reset_in_secs;
    let period = params.period() as int;
    law_buckets_stay_within_capacity(state, params, denied_at);
    law_results_report_the_bucket(state, window_secs, limit, denied_at);
    lemma_whole_tokens_left(state, params, denied_at);
    assert(reply_for(state, params, denied_at).remaining == 0);
    law_waits_are_close_to_the_rate(params);
    if now >= denied_at + wait * NANOS_PER_SEC {
        let bucket = next_state(state, params, denied_at);
        assert(wait < SIGNIFICAND);
        assert((now - bucket.last) * limit >= period) by (nonlinear_arith)
            requires
                now - bucket.last >= wait * NANOS_PER_SEC,
                wait * limit >= params.refill_secs,
                period == params.refill_secs * NANOS_PER_SEC,
                NANOS_PER_SEC > 0,
                limit > 0,
        ;
        law_the_average_rate_is_granted(bucket, window_secs, limit, now);
    }
}

/// The time in which tokens flow in is the least: where the bucket refills at
/// the slowest rate or faster, they flow in during that time, and they do not
/// during one second less. Only a time too long for its number may fall short. A
/// slower bucket counts as gaining a token in two to the fifty-second seconds.
pub proof fn law_gain_times_are_least(params: BucketParams, tokens: int)
    requires
        params.wf(),
        tokens > 0,
    ensures
        ({
            let secs = secs_to_gain(params, tokens);
            &&& secs >= 1
            &&& params.refill_secs <= params.refill_tokens * 4_503_599_627_370_496 ==> {
                &&& secs < u64::MAX ==> secs * params.refill_tokens >= tokens * params.refill_secs
                &&& (secs - 1) * params.refill_tokens < tokens * params.refill_secs
            }
            &&& params.refill_secs > params.refill_tokens * 4_503_599_627_370_496 ==> secs
                == if tokens * 4_503_599_627_370_496 <= u64::MAX {
                tokens * 4_503_599_627_370_496
            } else {
                u64::MAX as int
            }
        }),
{
    let rate = params.refill_tokens as int;
    let needed = tokens * params.refill_secs;
    lemma_gain_takes_a_second(params, tokens);
    if params.refill_secs <= params.refill_tokens * SLOWEST_SECS_PER_TOKEN {
        assert(rate > 0);
        let exact = (needed + rate - 1) / rate;
        let rest = (needed + rate - 1) % rate;
        lemma_fundamental_div_mod(needed + rate - 1, rate);
        assert(exact * rate >= needed && (exact - 1) * rate < needed) by (nonlinear_arith)
            requires
                needed + rate - 1 == rate * exact + rest,
                0 <= rest < rate,
        ;
        let secs = secs_to_gain(params, tokens);
        assert((secs - 1) * rate <= (exact - 1) * rate) by (nonlinear_arith)
            requires
                secs <= exact,
                rate > 0,
        ;
    } else {
        assert(tokens * SLOWEST_SECS_PER_TOKEN >= SLOWEST_SECS_PER_TOKEN) by (nonlinear_arith)
            requires
                tokens >= 1,
        ;
    }
}

/// An allowed request reports when the window resets: once that time is over,
/// and if no request came between, the bucket is full again.
pub proof fn law_the_reset_restores_the_bucket(
    state: Option<BucketState>,
    window_secs: u64,
    limit: u64,
    allowed_at: u64,
    now: u64,
)
    requires
        reply_for(state, params_for(window_secs, limit), allowed_at).allowed == 1,
    ensures
        ({
            let params = params_for(window_secs, limit);
            let result = result_of(params, reply_for(state, params, allowed_at));
            let kept = Some(next_state(state, params, allowed_at));
            &&& result.allowed
            &&& now >= allowed_at + result.reset_in_secs * 1_000_000_000 ==> {
                &&& refilled(kept, params, now) == limit * params.token()
                &&& next_state(kept, params, now) == next_state(None, params, now)
                &&& reply_for(kept, params, now) == reply_for(None, params, now)
            }
        }),
{
    let params = params_for(window_secs, limit);
    let reply = reply_for(state, params, allowed_at);
    let reset = result_of(params, reply).reset_in_secs;
    let bucket = next_state(state, params, allowed_at);
    let period = params.period() as int;
    let left = left_after(state, params, allowed_at) as int;
    let token = params.token() as int;
    let gone = reply.capacity - reply.remaining;
    law_buckets_stay_within_capacity(state, params, allowed_at);
    lemma_whole_tokens_left(state, params, allowed_at);
    assert(gone >= limit - bucket.whole >= 1);
    law_gain_times_are_least(params, gone);
    if now >= allowed_at + reset * NANOS_PER_SEC {
        let elapsed = now - allowed_at;
        assert(reset < SLOWEST_SECS_PER_TOKEN);
        assert(elapsed * limit >= gone * period) by (nonlinear_arith)
            requires
                elapsed >= reset * NANOS_PER_SEC,
                reset * limit >= gone * params.refill_secs,
                period == params.refill_secs * NANOS_PER_SEC,
                NANOS_PER_SEC > 0,
                limit >= 0,
        ;
        assert(left + elapsed * limit * PARTS_PER_TOKEN >= limit * token) by (nonlinear_arith)
            requires
                elapsed * limit >= gone * period,
                gone >= limit - bucket.whole,
                bucket.whole * token <= left,
                token == PARTS_PER_TOKEN * period,
                period > 0,
        ;
    }
}

/// An idle bucket is as one that was never used: once a window is over it is full
/// again.
pub proof fn law_idle_buckets_are_as_fresh(
    bucket: BucketState,
    window_secs: u64,
    limit: u64,
    now: u64,
)
    requires
        bucket.wf(),
        now >= bucket.last + (if window_secs == 0 {
            1int
        } else {
            window_secs as int
        }) * 1_000_000_000,
    ensures
        ({
            let params = params_for(window_secs, limit);
            &&& next_state(Some(bucket), params, now) == next_state(None, params, now)
            &&& reply_for(Some(bucket), params, now) == reply_for(None, params, now)
        }),
{
    lemma_idle_refill(bucket, window_secs, limit, now);
}

// ---- The store ----

/// What requests are charged to.
pub enum Subject {
    /// A pubkey in a community, for one category of operation.
    Pubkey { community: Seq<u8>, pubkey: Seq<u8>, limit_type: LimitType },
    /// An IP address, as text.
    Ip { ip: Seq<char> },
}

impl Subject {
    /// Communities have sixteen bytes and pubkeys thirty-two.
    pub open spec fn wf(self) -> bool {
        match self {
            Subject::Pubkey { community, pubkey, .. } => community.len() == 16 && pubkey.len()
                == 32,
            Subject::Ip { .. } => true,
        }
    }

    /// The key of the subject's bucket in the store.
    pub open spec fn key(self) -> Seq<char> {
        match self {
            Subject::Pubkey { community, pubkey, limit_type } => rate_limit_key_text(
                community,
                pubkey,
                limit_type,
            ),
            Subject::Ip { ip } => ip_rate_limit_key_text(ip),
        }
    }
}

/// A bucket in the store, with the time at which the store forgets it.
pub struct StoredBucket {
    pub bucket: BucketState,
    pub deadline: nat,
}

/// The bucket that a request at `now` finds under `key`: none where none was
/// stored, or its deadline has come.
pub open spec fn bucket_at(
    store: Map<Seq<char>, StoredBucket>,
    key: Seq<char>,
    now: u64,
) -> Option<BucketState> {
    if store.contains_key(key) && now < store[key].deadline {
        Some(store[key].bucket)
    } else {
        None
    }
}

/// One check: a request of `subject` at `now`, on a bucket with `params`.
pub struct Check {
    pub subject: Subject,
    pub params: BucketParams,
    pub now: u64,
}

/// The result of a check on a store.
pub open spec fn result_on(store: Map<Seq<char>, StoredBucket>, check: Check) -> RateLimitResult {
    result_of(
        check.params,
        reply_for(bucket_at(store, check.subject.key(), check.now), check.params, check.now),
    )
}

/// The bucket that a check leaves.
pub open spec fn bucket_left(store: Map<Seq<char>, StoredBucket>, check: Check) -> BucketState {
    next_state(bucket_at(store, check.subject.key(), check.now), check.params, check.now)
}

/// The store after a check: the bucket is written back and its idle time starts
/// anew.
pub open spec fn charge(store: Map<Seq<char>, StoredBucket>, check: Check) -> Map<
    Seq<char>,
    StoredBucket,
> {
    store.insert(
        check.subject.key(),
        StoredBucket {
            bucket: bucket_left(store, check),
            deadline: (check.now + check.params.ttl_secs * NANOS_PER_SEC) as nat,
        },
    )
}

/// The store after a run of checks.
pub open spec fn charge_all(store: Map<Seq<char>, StoredBucket>, checks: Seq<Check>) -> Map<
    Seq<char>,
    StoredBucket,
>
    decreases checks.len(),
{
    if checks.len() == 0 {
        store
    } else {
        charge(charge_all(store, checks.drop_last()), checks.last())
    }
}

/// Whether no check of a run is of `subject`.
pub open spec fn all_of_others(checks: Seq<Check>, subject: Subject) -> bool {
    forall|i: int|
        0 <= i < checks.len() ==> (#[trigger] checks[i]).subject.wf() && checks[i].subject
            != subject
}

/// Different subjects have different keys.
pub proof fn law_subjects_have_distinct_keys(a: Subject, b: Subject)
    requires
        a.wf(),
        b.wf(),
        a != b,
    ensures
        a.key() != b.key(),
{
    match (a, b) {
        (
            Subject::Pubkey { community: ca, pubkey: pa, limit_type: ta },
            Subject::Pubkey { community: cb, pubkey: pb, limit_type: tb },
        ) => {
            law_pubkey_keys_are_distinct(ca, pa, ta, cb, pb, tb);
        },
        (Subject::Ip { ip: x }, Subject::Ip { ip: y }) => {
            law_ip_keys_are_distinct(x, y);
        },
        (Subject::Ip { ip }, Subject::Pubkey { community, pubkey, limit_type }) => {
            law_ip_keys_are_not_pubkey_keys(ip, community, pubkey, limit_type);
        },
        (Subject::Pubkey { community, pubkey, limit_type }, Subject::Ip { ip }) => {
            law_ip_keys_are_not_pubkey_keys(ip, community, pubkey, limit_type);
        },
    }
}

/// What a run of checks of others leaves under a subject's key.
proof fn lemma_others_leave_the_entry(
    store: Map<Seq<char>, StoredBucket>,
    checks: Seq<Check>,
    subject: Subject,
)
    requires
        subject.wf(),
        all_of_others(checks, subject),
    ensures
        ({
            let after = charge_all(store, checks);
            let key = subject.key();
            &&& after.contains_key(key) == store.contains_key(key)
            &&& store.contains_key(key) ==> after[key] == store[key]
        }),
    decreases checks.len(),
{
    if checks.len() > 0 {
        let before = checks.drop_last();
        assert forall|i: int| 0 <= i < before.len() implies (#[trigger] before[i]).subject.wf()
            && before[i].subject != subject by {
            assert(before[i] == checks[i]);
        }
        lemma_others_leave_the_entry(store, before, subject);
        assert(checks[checks.len() - 1].subject.wf());
        law_subjects_have_distinct_keys(checks.last().subject, subject);
    }
}

/// Quotas are independent: the result of a check, and the bucket it leaves, are
/// the same whatever checks of others were made before it, be they of other
/// communities, pubkeys, categories or addresses.
pub proof fn law_quotas_are_isolated(
    store: Map<Seq<char>, StoredBucket>,
    others: Seq<Check>,
    check: Check,
)
    requires
        check.subject.wf(),
        all_of_others(others, check.subject),
    ensures
        result_on(charge_all(store, others), check) == result_on(store, check),
        bucket_left(charge_all(store, others), check) == bucket_left(store, check),
{
    lemma_others_leave_the_entry(store, others, check.subject);
}

/// A check, allowed or denied, stores its bucket with a deadline: its idle time,
/// two windows and a minute, counted from the check. It writes no other key.
pub proof fn law_checks_set_a_deadline(
    store: Map<Seq<char>, StoredBucket>,
    subject: Subject,
    window_secs: u64,
    limit: u64,
    now: u64,
)
    requires
        subject.wf(),
    ensures
        ({
            let check = Check { subject, params: params_for(window_secs, limit), now };
            let after = charge(store, check);
            let key = subject.key();
            &&& after.contains_key(key)
            &&& after[key].bucket == bucket_left(store, check)
            &&& after[key].deadline == now + check.params.ttl_secs * NANOS_PER_SEC
            &&& 2 * window_secs + 60 <= u64::MAX ==> after[key].deadline == now + (2 * window_secs
                + 60) * 1_000_000_000
            &&& 2 * window_secs + 60 > u64::MAX ==> after[key].deadline == now + u64::MAX
                * 1_000_000_000
            &&& after.remove(key) == store.remove(key)
        }),
{
    let check = Check { subject, params: params_for(window_secs, limit), now };
    assert(charge(store, check).remove(subject.key()) =~= store.remove(subject.key()));
}

/// No bucket is ever stored without a deadline: whatever checks were made, each
/// bucket in the store has the one that the last check of its subject set.
pub proof fn law_stored_buckets_have_deadlines(checks: Seq<Check>, key: Seq<char>)
    requires
        charge_all(Map::empty(), checks).contains_key(key),
    ensures
        ({
            let stored = charge_all(Map::empty(), checks)[key];
            exists|i: int|
                {
                    &&& 0 <= i < checks.len()
                    &&& (#[trigger] checks[i]).subject.key() == key
                    &&& stored.bucket.last == checks[i].now
                    &&& stored.deadline == checks[i].now + checks[i].params.ttl_secs
                        * NANOS_PER_SEC
                    &&& forall|j: int|
                        i < j < checks.len() ==> (#[trigger] checks[j]).subject.key() != key
                }
        }),
    decreases checks.len(),
{
    if checks.len() > 0 {
        let last = checks.len() - 1;
        if checks[last].subject.key() == key {
            assert(checks.last() == checks[last]);
        } else {
            let before = checks.drop_last();
            law_stored_buckets_have_deadlines(before, key);
            let stored = charge_all(Map::empty(), checks)[key];
            let i = choose|i: int|
                {
                    &&& 0 <= i < before.len()
                    &&& (#[trigger] before[i]).subject.key() == key
                    &&& stored.bucket.last == before[i].now
                    &&& stored.deadline == before[i].now + before[i].params.ttl_secs
                        * NANOS_PER_SEC
                    &&& forall|j: int|
                        i < j < before.len() ==> (#[trigger] before[j]).subject.key() != key
                };
            assert(checks[i] == before[i]);
            assert forall|j: int| i < j < checks.len() implies (#[trigger] checks[j]).subject.key()
                != key by {
                if j < last {
                    assert(checks[j] == before[j]);
                }
            }
        }
    }
}

/// That the store forgets a bucket at its deadline changes no result: a check
/// finds the bucket that was forgotten as full as one that was never used.
pub proof fn law_forgetting_changes_nothing(
    store: Map<Seq<char>, StoredBucket>,
    subject: Subject,
    window_secs: u64,
    limit: u64,
    now: u64,
)
    requires
        subject.wf(),
        store.contains_key(subject.key()),
        store[subject.key()].bucket.wf(),
        store[subject.key()].deadline == store[subject.key()].bucket.last + params_for(
            window_secs,
            limit,
        ).ttl_secs * NANOS_PER_SEC,
    ensures
        ({
            let params = params_for(window_secs, limit);
            let check = Check { subject, params, now };
            let kept = Some(store[subject.key()].bucket);
            &&& result_on(store, check) == result_of(params, reply_for(kept, params, now))
            &&& bucket_left(store, check) == next_state(kept, params, now)
        }),
{
    let params = params_for(window_secs, limit);
    let stored = store[subject.key()];
    assert(params.ttl_secs >= params.refill_secs);
    if now >= stored.deadline {
        law_idle_buckets_are_as_fresh(stored.bucket, window_secs, limit, now);
    }
}

/// A subject without a bucket has its first `limit` checks at one moment allowed,
/// and every further one denied: after a run of checks of it at that moment, the
/// next is allowed exactly if they are fewer than `limit`.
pub proof fn law_fresh_quotas_allow_the_limit(
    store: Map<Seq<char>, StoredBucket>,
    subject: Subject,
    window_secs: u64,
    limit: u64,
    now: u64,
    checks: Seq<Check>,
)
    requires
        subject.wf(),
        bucket_at(store, subject.key(), now) is None,
        forall|i: int|
            0 <= i < checks.len() ==> checks[i] == (Check {
                subject,
                params: params_for(window_secs, limit),
                now,
            }),
    ensures
        ({
            let next = Check { subject, params: params_for(window_secs, limit), now };
            result_on(charge_all(store, checks), next).allowed == (checks.len() < limit)
        }),
{
    let times = Seq::new(checks.len(), |i: int| now);
    lemma_run_at_one_moment(store, subject, params_for(window_secs, limit), now, checks);
    law_fresh_buckets_allow_the_limit(window_secs, limit, now, times);
}

/// A run of checks of one subject at one moment goes through the states of its
/// bucket.
proof fn lemma_run_at_one_moment(
    store: Map<Seq<char>, StoredBucket>,
    subject: Subject,
    params: BucketParams,
    now: u64,
    checks: Seq<Check>,
)
    requires
        params.ttl_secs > 0,
        bucket_at(store, subject.key(), now) is None,
        forall|i: int| 0 <= i < checks.len() ==> checks[i] == (Check { subject, params, now }),
    ensures
        bucket_at(charge_all(store, checks), subject.key(), now) == state_after(
            None,
            params,
            Seq::new(checks.len(), |i: int| now),
        ),
    decreases checks.len(),
{
    if checks.len() > 0 {
        let before = checks.drop_last();
        lemma_run_at_one_moment(store, subject, params, now, before);
        let times = Seq::new(checks.len(), |i: int| now);
        assert(times.drop_last() =~= Seq::new(before.len(), |i: int| now));
        assert(checks.last() == checks[checks.len() - 1]);
    }
}

/// How many checks of `subject` in a run are allowed.
pub open spec fn admitted_of(
    store: Map<Seq<char>, StoredBucket>,
    checks: Seq<Check>,
    subject: Subject,
) -> nat
    decreases checks.len(),
{
    if checks.len() == 0 {
        0
    } else {
        let before = checks.drop_last();
        let check = checks.last();
        admitted_of(store, before, subject) + if check.subject == subject && result_on(
            charge_all(store, before),
            check,
        ).allowed {
            1nat
        } else {
            0nat
        }
    }
}

/// Whether the checks of `subject` in a run are of one limit and window, and come
/// in order of time, none before `first` and none after `last`.
pub open spec fn in_order_within(
    checks: Seq<Check>,
    subject: Subject,
    params: BucketParams,
    first: u64,
    last: u64,
) -> bool {
    &&& forall|i: int|
        0 <= i < checks.len() ==> {
            &&& (#[trigger] checks[i]).subject.wf()
            &&& checks[i].subject == subject ==> checks[i].params == params && first
                <= checks[i].now <= last
        }
    &&& forall|i: int, j: int|
        0 <= i <= j < checks.len() && (#[trigger] checks[i]).subject == subject && (
        #[trigger] checks[j]).subject == subject ==> checks[i].now <= checks[j].now
}

/// Tokens given out to a subject and tokens kept for it are covered by the limit
/// and by what flowed in since `first`.
proof fn lemma_store_accounts_for_tokens(
    store: Map<Seq<char>, StoredBucket>,
    checks: Seq<Check>,
    subject: Subject,
    window_secs: u64,
    limit: u64,
    first: u64,
    last: u64,
)
    requires
        subject.wf(),
        in_order_within(checks, subject, params_for(window_secs, limit), first, last),
    ensures
        ({
            let params = params_for(window_secs, limit);
            let key = subject.key();
            let after = charge_all(store, checks);
            let stored = after[key];
            let count = admitted_of(store, checks, subject);
            if exists|i: int| 0 <= i < checks.len() && (#[trigger] checks[i]).subject == subject {
                &&& after.contains_key(key)
                &&& stored.bucket.wf()
                &&& stored.deadline == stored.bucket.last + params.ttl_secs * NANOS_PER_SEC
                &&& exists|i: int|
                    0 <= i < checks.len() && (#[trigger] checks[i]).subject == subject
                        && checks[i].now == stored.bucket.last
                &&& count * params.token() + stored.bucket.fractions(params.period()) <= limit
                    * params.token() + limit * (stored.bucket.last - first) * PARTS_PER_TOKEN
            } else {
                count == 0
            }
        }),
    decreases checks.len(),
{
    let params = params_for(window_secs, limit);
    let token = params.token() as int;
    let key = subject.key();
    if checks.len() > 0 {
        let before = checks.drop_last();
        let check = checks.last();
        let at = checks.len() - 1;
        assert(checks[at] == check);
        assert forall|i: int| 0 <= i < before.len() implies before[i] == #[trigger] checks[i] by {}
        assert(in_order_within(before, subject, params, first, last));
        lemma_store_accounts_for_tokens(store, before, subject, window_secs, limit, first, last);
        let prior = charge_all(store, before);
        let count = admitted_of(store, before, subject) as int;
        if check.subject == subject {
            let found = bucket_at(prior, key, check.now);
            law_buckets_stay_within_capacity(found, params, check.now);
            assert((count + 1) * token == count * token + token) by (nonlinear_arith);
            if exists|i: int| 0 <= i < before.len() && (#[trigger] before[i]).subject == subject {
                let bucket = prior[key].bucket;
                let i = choose|i: int|
                    0 <= i < before.len() && (#[trigger] before[i]).subject == subject
                        && before[i].now == bucket.last;
                assert(checks[i].subject == subject && checks[i].now <= checks[at].now);
                assert(limit * (check.now - first) * PARTS_PER_TOKEN == limit * (bucket.last
                    - first) * PARTS_PER_TOKEN + (check.now - bucket.last) * limit
                    * PARTS_PER_TOKEN) by (nonlinear_arith);
                if found is None {
                    assert(params.ttl_secs >= params.refill_secs);
                    lemma_idle_refill(bucket, window_secs, limit, check.now);
                }
                assert(refilled(found, params, check.now) <= bucket.fractions(params.period()) + (
                check.now - bucket.last) * limit * PARTS_PER_TOKEN);
            } else {
                assert(count * token == 0) by (nonlinear_arith)
                    requires
                        count == 0,
                ;
                assert(limit * (check.now - first) * PARTS_PER_TOKEN >= 0) by (nonlinear_arith)
                    requires
                        check.now >= first,
                ;
            }
        } else {
            law_subjects_have_distinct_keys(check.subject, subject);
            if exists|i: int| 0 <= i < before.len() && (#[trigger] before[i]).subject == subject {
                let bucket = prior[key].bucket;
                let i = choose|i: int|
                    0 <= i < before.len() && (#[trigger] before[i]).subject == subject
                        && before[i].now == bucket.last;
                assert(checks[i].subject == subject && checks[i].now == bucket.last);
            } else {
                assert forall|i: int| 0 <= i < checks.len() implies (#[trigger] checks[i]).subject
                    != subject by {
                    if i < at {
                        assert(before[i].subject != subject);
                    }
                }
            }
        }
    }
}

/// What has flowed into a bucket that was idle for a window fills it.
proof fn lemma_idle_refill(bucket: BucketState, window_secs: u64, limit: u64, now: u64)
    requires
        bucket.wf(),
        now >= bucket.last + params_for(window_secs, limit).period(),
    ensures
        ({
            let params = params_for(window_secs, limit);
            limit * params.token() <= bucket.fractions(params.period()) + (now - bucket.last)
                * limit * PARTS_PER_TOKEN
        }),
{
    let params = params_for(window_secs, limit);
    let elapsed = now - bucket.last;
    assert(elapsed * limit * PARTS_PER_TOKEN >= limit * params.token()) by (nonlinear_arith)
        requires
            elapsed >= params.period(),
            params.token() == PARTS_PER_TOKEN * params.period(),
    ;
}

/// There is no boundary burst on the store either: whatever it held, whatever
/// checks of others come between, and whatever it forgets meanwhile, the checks
/// of a subject that are allowed between two moments are at most `limit`, and what
/// flows in between the two at `limit` per window.
pub proof fn law_bursts_on_the_store_are_bounded(
    store: Map<Seq<char>, StoredBucket>,
    checks: Seq<Check>,
    subject: Subject,
    window_secs: u64,
    limit: u64,
    first: u64,
    last: u64,
)
    requires
        subject.wf(),
        first <= last,
        in_order_within(checks, subject, params_for(window_secs, limit), first, last),
    ensures
        ({
            let window_nanos = (if window_secs == 0 {
                1int
            } else {
                window_secs as int
            }) * 1_000_000_000;
            admitted_of(store, checks, subject) <= limit + (limit * (last - first)) / window_nanos
        }),
{
    let params = params_for(window_secs, limit);
    let token = params.token() as int;
    let count = admitted_of(store, checks, subject);
    let flowed = limit * (last - first);
    assert(flowed >= 0) by (nonlinear_arith)
        requires
            flowed == limit * (last - first),
            last >= first,
    ;
    lemma_store_accounts_for_tokens(store, checks, subject, window_secs, limit, first, last);
    if exists|i: int| 0 <= i < checks.len() && (#[trigger] checks[i]).subject == subject {
        let until = charge_all(store, checks)[subject.key()].bucket.last;
        assert(until <= last);
        assert(limit * (until - first) * PARTS_PER_TOKEN <= flowed * PARTS_PER_TOKEN)
            by (nonlinear_arith)
            requires
                flowed == limit * (last - first),
                until <= last,
        ;
    } else {
        assert(count * token == 0 && 0 <= limit * token) by (nonlinear_arith)
            requires
                count == 0,
                token >= 0,
        ;
    }
    lemma_count_in_tokens(count, limit, flowed as nat, params.period());
}

/// Who waits out the reported time after a denial is let through, whatever checks
/// of others were made meanwhile. The window is one that a double can tell.
pub proof fn law_waiting_lets_through(
    store: Map<Seq<char>, StoredBucket>,
    subject: Subject,
    window_secs: u64,
    limit: u64,
    denied_at: u64,
    others: Seq<Check>,
    now: u64,
)
    requires
        subject.wf(),
        limit > 0,
        window_secs < SIGNIFICAND,
        all_of_others(others, subject),
    ensures
        ({
            let params = params_for(window_secs, limit);
            let first = Check { subject, params, now: denied_at };
            let denied = result_on(store, first);
            let later = charge_all(charge(store, first), others);
            !denied.allowed && now >= denied_at + denied.reset_in_secs * 1_000_000_000
                ==> result_on(later, Check { subject, params, now }).allowed
        }),
{
    let params = params_for(window_secs, limit);
    let first = Check { subject, params, now: denied_at };
    let retry = Check { subject, params, now };
    let prior = bucket_at(store, subject.key(), denied_at);
    if !result_on(store, first).allowed {
        law_quotas_are_isolated(charge(store, first), others, retry);
        law_the_reported_wait_suffices(prior, window_secs, limit, denied_at, now);
        let token = params.token();
        assert(limit * token >= token) by (nonlinear_arith)
            requires
                limit >= 1,
        ;
    }
}

/// A subject that was idle for a window is as one without a bucket: the result of
/// its next check, and the bucket that this leaves, are those on a store that
/// never heard of it.
pub proof fn law_idle_quotas_are_as_fresh(
    store: Map<Seq<char>, StoredBucket>,
    subject: Subject,
    window_secs: u64,
    limit: u64,
    last: u64,
    now: u64,
)
    requires
        subject.wf(),
        now >= last + (if window_secs == 0 {
            1int
        } else {
            window_secs as int
        }) * 1_000_000_000,
    ensures
        ({
            let params = params_for(window_secs, limit);
            let after = charge(store, Check { subject, params, now: last });
            let next = Check { subject, params, now };
            let forgotten = store.remove(subject.key());
            &&& result_on(after, next) == result_on(forgotten, next)
            &&& bucket_left(after, next) == bucket_left(forgotten, next)
        }),
{
    let params = params_for(window_secs, limit);
    let prior = bucket_at(store, subject.key(), last);
    law_buckets_stay_within_capacity(prior, params, last);
    law_idle_buckets_are_as_fresh(next_state(prior, params, last), window_secs, limit, now);
}

} // verus!
