//! What the operations are for, stated of the plain values that go in and come
//! out: how an allowlist reads, what a key tells, at which rate a bucket serves,
//! and what a reply reports.

use vstd::arithmetic::div_mod::{lemma_fundamental_div_mod, lemma_fundamental_div_mod_converse};
use vstd::arithmetic::power2::{
    lemma2_to64, lemma2_to64_rest, lemma_pow2_adds, lemma_pow2_pos, lemma_pow2_unfold, pow2,
};
use vstd::prelude::*;

use crate::double::{
    bits, ceiling, lemma_bits, lemma_nearest_normal, lemma_quotient_normal, nearest, quotient,
    round_half_even, Binary, SIGNIFICAND,
};
use crate::hex::{hex_digit, lemma_lower_hex_digits, lower_hex};
use crate::laws::{
    law_buckets_stay_within_capacity, law_changing_the_window_keeps_tokens,
    law_gain_times_are_least, lemma_key_layout, lemma_rate_is_normal,
    lemma_whole_tokens_left,
};
use crate::rate_limit::{
    api_limit, ascii_lower, ip_rate_limit_key_text, listed, message_limit, rate_limit_key_text,
    same_ignoring_case, tier_of, AgentTier, LimitType, RateLimitConfig,
};
use crate::rate_limiter::{
    left_after, lemma_nothing_below_zero, lemma_split, next_state, params_for, refill_rate,
    reply_for, result_of, BucketParams, BucketReply, BucketState, StoreFailure,
};
use crate::tenant::uuid_text;

verus! {

// ---- Hexadecimal text ----

/// The value of a hexadecimal digit of either case, and minus one for any other
/// character.
pub open spec fn hex_value(c: char) -> int {
    if '0' <= c <= '9' {
        c as int - '0' as int
    } else if 'a' <= c <= 'f' {
        c as int - 'a' as int + 10
    } else if 'A' <= c <= 'F' {
        c as int - 'A' as int + 10
    } else {
        -1
    }
}

/// Whether a text, read as hexadecimal in either case, is the bytes.
pub open spec fn spells(text: Seq<char>, bytes: Seq<u8>) -> bool {
    &&& text.len() == 2 * bytes.len()
    &&& forall|k: int|
        0 <= k < bytes.len() ==> {
            &&& hex_value(text[2 * k]) >= 0
            &&& hex_value(text[2 * k + 1]) >= 0
            &&& 16 * hex_value(text[2 * k]) + hex_value(text[2 * k + 1]) == #[trigger] bytes[k]
        }
}

/// The hexadecimal text of bytes, read back, is the bytes, and its letters are
/// lowercase.
pub proof fn law_hex_can_be_read_back(bytes: Seq<u8>)
    ensures
        spells(lower_hex(bytes), bytes),
        forall|i: int|
            0 <= i < lower_hex(bytes).len() ==> '0' <= #[trigger] lower_hex(bytes)[i] <= '9'
                || 'a' <= lower_hex(bytes)[i] <= 'f',
{
    lemma_lower_hex_digits(bytes);
    assert forall|k: int| 0 <= k < bytes.len() implies {
        &&& hex_value(lower_hex(bytes)[2 * k]) >= 0
        &&& hex_value(lower_hex(bytes)[2 * k + 1]) >= 0
        &&& 16 * hex_value(lower_hex(bytes)[2 * k]) + hex_value(lower_hex(bytes)[2 * k + 1])
            == #[trigger] bytes[k]
    } by {
        lemma_hex_at(bytes, k);
    }
}

/// The two digits of a byte.
proof fn lemma_hex_at(bytes: Seq<u8>, k: int)
    requires
        0 <= k < bytes.len(),
    ensures
        lower_hex(bytes)[2 * k] == hex_digit(bytes[k] as int / 16),
        lower_hex(bytes)[2 * k + 1] == hex_digit(bytes[k] as int % 16),
{
    assert((2 * k) / 2 == k && (2 * k + 1) / 2 == k && (2 * k + 1) % 2 == 1 && (2 * k) % 2 == 0);
}

/// A character equals a digit up to case exactly if it has the digit's value.
proof fn lemma_digit_up_to_case(c: char, value: int)
    requires
        0 <= value < 16,
    ensures
        (ascii_lower(c) == ascii_lower(hex_digit(value))) == (hex_value(c) == value),
{
}

/// A text equals the hexadecimal text of bytes up to case exactly if it spells
/// them.
proof fn lemma_spelling(text: Seq<char>, bytes: Seq<u8>)
    ensures
        same_ignoring_case(text, lower_hex(bytes)) == spells(text, bytes),
{
    let hex = lower_hex(bytes);
    if same_ignoring_case(text, hex) {
        assert forall|k: int| 0 <= k < bytes.len() implies {
            &&& hex_value(text[2 * k]) >= 0
            &&& hex_value(text[2 * k + 1]) >= 0
            &&& 16 * hex_value(text[2 * k]) + hex_value(text[2 * k + 1]) == #[trigger] bytes[k]
        } by {
            lemma_hex_at(bytes, k);
            lemma_digit_up_to_case(text[2 * k], bytes[k] as int / 16);
            lemma_digit_up_to_case(text[2 * k + 1], bytes[k] as int % 16);
            assert(ascii_lower(text[2 * k]) == ascii_lower(hex[2 * k]));
            assert(ascii_lower(text[2 * k + 1]) == ascii_lower(hex[2 * k + 1]));
        }
    }
    if spells(text, bytes) {
        assert forall|i: int| 0 <= i < text.len() implies ascii_lower(#[trigger] text[i])
            == ascii_lower(hex[i]) by {
            let k = i / 2;
            let byte = bytes[k] as int;
            lemma_hex_at(bytes, k);
            let high = hex_value(text[2 * k]);
            let low = hex_value(text[2 * k + 1]);
            assert(0 <= high < 16 && 0 <= low < 16 && 16 * high + low == byte);
            assert(byte / 16 == high && byte % 16 == low);
            lemma_digit_up_to_case(text[2 * k], high);
            lemma_digit_up_to_case(text[2 * k + 1], low);
            assert(i == 2 * k || i == 2 * k + 1);
        }
        assert(same_ignoring_case(text, hex));
    }
}

// ---- Tiers ----

/// Any entry of the platform allowlist, wherever it stands, lifts the agent whose
/// key it spells to platform.
pub proof fn law_any_platform_entry_lifts(limits: RateLimitConfig, pubkey: Seq<u8>, i: int)
    requires
        0 <= i < limits.platform_pubkeys@.len(),
        spells(limits.platform_pubkeys@[i]@, pubkey),
    ensures
        tier_of(limits, lower_hex(pubkey), true) == AgentTier::Platform,
{
    lemma_spelling(limits.platform_pubkeys@[i]@, pubkey);
}

/// Any entry of the elevated allowlist, wherever it stands, lifts the agent whose
/// key it spells to elevated, where no entry of the platform allowlist does.
pub proof fn law_any_elevated_entry_lifts(limits: RateLimitConfig, pubkey: Seq<u8>, i: int)
    requires
        0 <= i < limits.elevated_pubkeys@.len(),
        spells(limits.elevated_pubkeys@[i]@, pubkey),
        forall|j: int|
            0 <= j < limits.platform_pubkeys@.len() ==> !spells(
                #[trigger] limits.platform_pubkeys@[j]@,
                pubkey,
            ),
    ensures
        tier_of(limits, lower_hex(pubkey), true) == AgentTier::Elevated,
{
    lemma_spelling(limits.elevated_pubkeys@[i]@, pubkey);
    assert forall|j: int| 0 <= j < limits.platform_pubkeys@.len() implies !same_ignoring_case(
        #[trigger] limits.platform_pubkeys@[j]@,
        lower_hex(pubkey),
    ) by {
        lemma_spelling(limits.platform_pubkeys@[j]@, pubkey);
    }
}

/// Nothing but an entry that spells its key lifts an agent, and only the agent:
/// whoever is platform is spelled by a platform entry, whoever is elevated by an
/// elevated one, and whoever is no agent is human.
pub proof fn law_only_entries_lift(limits: RateLimitConfig, pubkey: Seq<u8>, is_agent: bool)
    ensures
        ({
            let tier = tier_of(limits, lower_hex(pubkey), is_agent);
            &&& tier == AgentTier::Human <==> !is_agent
            &&& tier == AgentTier::Platform ==> exists|i: int|
                0 <= i < limits.platform_pubkeys@.len() && spells(
                    #[trigger] limits.platform_pubkeys@[i]@,
                    pubkey,
                )
            &&& tier == AgentTier::Elevated ==> exists|i: int|
                0 <= i < limits.elevated_pubkeys@.len() && spells(
                    #[trigger] limits.elevated_pubkeys@[i]@,
                    pubkey,
                )
        }),
{
    let hex = lower_hex(pubkey);
    if tier_of(limits, hex, is_agent) == AgentTier::Platform {
        let list = limits.platform_pubkeys@;
        let i = choose|i: int| 0 <= i < list.len() && same_ignoring_case(#[trigger] list[i]@, hex);
        lemma_spelling(list[i]@, pubkey);
    }
    if tier_of(limits, hex, is_agent) == AgentTier::Elevated {
        let list = limits.elevated_pubkeys@;
        let i = choose|i: int| 0 <= i < list.len() && same_ignoring_case(#[trigger] list[i]@, hex);
        lemma_spelling(list[i]@, pubkey);
    }
}

/// Whether some entry of an allowlist, wherever it stands, spells a key.
pub open spec fn spelled(allowlist: Seq<String>, pubkey: Seq<u8>) -> bool {
    exists|i: int| 0 <= i < allowlist.len() && spells(#[trigger] allowlist[i]@, pubkey)
}

/// The tier of every principal, told by the entries that spell its key.
pub proof fn law_tiers_are_spelled_out(limits: RateLimitConfig, pubkey: Seq<u8>, is_agent: bool)
    ensures
        tier_of(limits, lower_hex(pubkey), is_agent) == if !is_agent {
            AgentTier::Human
        } else if spelled(limits.platform_pubkeys@, pubkey) {
            AgentTier::Platform
        } else if spelled(limits.elevated_pubkeys@, pubkey) {
            AgentTier::Elevated
        } else {
            AgentTier::Standard
        },
{
    law_only_entries_lift(limits, pubkey, is_agent);
    if is_agent {
        if spelled(limits.platform_pubkeys@, pubkey) {
            let list = limits.platform_pubkeys@;
            let i = choose|i: int| 0 <= i < list.len() && spells(#[trigger] list[i]@, pubkey);
            law_any_platform_entry_lifts(limits, pubkey, i);
        } else if spelled(limits.elevated_pubkeys@, pubkey) {
            let list = limits.elevated_pubkeys@;
            let i = choose|i: int| 0 <= i < list.len() && spells(#[trigger] list[i]@, pubkey);
            law_any_elevated_entry_lifts(limits, pubkey, i);
        }
    }
}

/// Who is granted what: an agent whose key some platform entry spells is granted
/// the platform limit of messages, one whose key only an elevated entry spells the
/// elevated limit, any other the standard limit, and all of them the one limit of
/// API calls that agents have. Whoever is no agent is granted the human limits,
/// whatever the allowlists hold.
pub proof fn law_limits_go_by_the_entries(
    limits: RateLimitConfig,
    pubkey: Seq<u8>,
    is_agent: bool,
)
    ensures
        ({
            let tier = tier_of(limits, lower_hex(pubkey), is_agent);
            let messages = message_limit(limits, tier);
            let calls = api_limit(limits, tier);
            let platform = spelled(limits.platform_pubkeys@, pubkey);
            let elevated = spelled(limits.elevated_pubkeys@, pubkey);
            &&& !is_agent ==> messages == limits.human_messages_per_min
            &&& is_agent && platform ==> messages == limits.agent_platform_messages_per_min
            &&& is_agent && elevated && !platform ==> messages
                == limits.agent_elevated_messages_per_min
            &&& is_agent && !elevated && !platform ==> messages
                == limits.agent_standard_messages_per_min
            &&& !is_agent ==> calls == limits.human_api_calls_per_min
            &&& is_agent ==> calls == limits.agent_standard_api_calls_per_min
        }),
{
    law_tiers_are_spelled_out(limits, pubkey, is_agent);
}

/// Whether every text of one list is in another.
pub open spec fn all_in(a: Seq<String>, b: Seq<String>) -> bool {
    forall|i: int|
        0 <= i < a.len() ==> exists|j: int|
            0 <= j < b.len() && #[trigger] b[j]@ == (#[trigger] a[i])@
}

/// The order of the entries, and how often one stands there, make no difference.
pub proof fn law_order_of_entries_is_free(
    a: RateLimitConfig,
    b: RateLimitConfig,
    hex: Seq<char>,
    is_agent: bool,
)
    requires
        all_in(a.platform_pubkeys@, b.platform_pubkeys@),
        all_in(b.platform_pubkeys@, a.platform_pubkeys@),
        all_in(a.elevated_pubkeys@, b.elevated_pubkeys@),
        all_in(b.elevated_pubkeys@, a.elevated_pubkeys@),
    ensures
        tier_of(a, hex, is_agent) == tier_of(b, hex, is_agent),
{
    lemma_listed_in_more(a.platform_pubkeys@, b.platform_pubkeys@, hex);
    lemma_listed_in_more(b.platform_pubkeys@, a.platform_pubkeys@, hex);
    lemma_listed_in_more(a.elevated_pubkeys@, b.elevated_pubkeys@, hex);
    lemma_listed_in_more(b.elevated_pubkeys@, a.elevated_pubkeys@, hex);
}

/// What a list holds, a list with all its texts holds.
proof fn lemma_listed_in_more(a: Seq<String>, b: Seq<String>, hex: Seq<char>)
    requires
        all_in(a, b),
    ensures
        listed(a, hex) ==> listed(b, hex),
{
    if listed(a, hex) {
        let i = choose|i: int| 0 <= i < a.len() && same_ignoring_case(#[trigger] a[i]@, hex);
        let s = a[i];
        let j = choose|j: int| 0 <= j < b.len() && #[trigger] b[j]@ == s@;
        assert(same_ignoring_case(b[j]@, hex));
    }
}

// ---- Keys ----

/// A pubkey key can be read back: it is `buzz:`, the community in hexadecimal with
/// hyphens after four, six, eight and ten bytes, `:ratelimit:`, the pubkey in
/// hexadecimal, a colon, and the suffix of the category.
pub proof fn law_pubkey_keys_can_be_read_back(
    community: Seq<u8>,
    pubkey: Seq<u8>,
    limit_type: LimitType,
)
    requires
        community.len() == 16,
        pubkey.len() == 32,
    ensures
        ({
            let key = rate_limit_key_text(community, pubkey, limit_type);
            let suffix = match limit_type {
                LimitType::Messages => seq!['m', 's', 'g'],
                LimitType::ApiCalls => seq!['a', 'p', 'i'],
                LimitType::WsEvents => seq!['w', 's'],
                LimitType::IpConnections => seq!['c', 'o', 'n', 'n'],
            };
            &&& key.len() == 117 + suffix.len()
            &&& key.subrange(0, 5) == "buzz:"@
            &&& spells(
                key.subrange(5, 13) + key.subrange(14, 18) + key.subrange(19, 23) + key.subrange(
                    24,
                    28,
                ) + key.subrange(29, 41),
                community,
            )
            &&& key[13] == '-' && key[18] == '-' && key[23] == '-' && key[28] == '-'
            &&& key.subrange(41, 52) == ":ratelimit:"@
            &&& spells(key.subrange(52, 116), pubkey)
            &&& key[116] == ':'
            &&& key.subrange(117, key.len() as int) == suffix
        }),
{
    let key = rate_limit_key_text(community, pubkey, limit_type);
    lemma_key_layout(community, pubkey, limit_type);
    law_hex_can_be_read_back(community);
    law_hex_can_be_read_back(pubkey);
    reveal_strlit("msg");
    reveal_strlit("api");
    reveal_strlit("ws");
    reveal_strlit("conn");
    reveal_strlit(":");
    assert("msg"@ =~= seq!['m', 's', 'g']);
    assert("api"@ =~= seq!['a', 'p', 'i']);
    assert("ws"@ =~= seq!['w', 's']);
    assert("conn"@ =~= seq!['c', 'o', 'n', 'n']);
    let text = uuid_text(community);
    assert(forall|i: int| 5 <= i < 41 ==> #[trigger] key[i] == key.subrange(5, 41)[i - 5]);
    assert(key[116] == key.subrange(116, 117)[0]);
    assert(key.subrange(5, 13) + key.subrange(14, 18) + key.subrange(19, 23) + key.subrange(24, 28)
        + key.subrange(29, 41) =~= lower_hex(community)) by {
        assert(key.subrange(5, 13) =~= text.subrange(0, 8));
        assert(key.subrange(14, 18) =~= text.subrange(9, 13));
        assert(key.subrange(19, 23) =~= text.subrange(14, 18));
        assert(key.subrange(24, 28) =~= text.subrange(19, 23));
        assert(key.subrange(29, 41) =~= text.subrange(24, 36));
        let digits = lower_hex(community);
        assert(text.subrange(0, 8) =~= digits.subrange(0, 8));
        assert(text.subrange(9, 13) =~= digits.subrange(8, 12));
        assert(text.subrange(14, 18) =~= digits.subrange(12, 16));
        assert(text.subrange(19, 23) =~= digits.subrange(16, 20));
        assert(text.subrange(24, 36) =~= digits.subrange(20, 32));
    }
}

/// An IP key can be read back: it is the address between `buzz:ratelimit:ip:` and
/// `:conn`.
pub proof fn law_ip_keys_can_be_read_back(ip: Seq<char>)
    ensures
        ({
            let key = ip_rate_limit_key_text(ip);
            &&& key.len() == 18 + ip.len() + 5
            &&& key.subrange(0, 18) == "buzz:ratelimit:ip:"@
            &&& key.subrange(18, 18 + ip.len() as int) == ip
            &&& key.subrange(18 + ip.len() as int, key.len() as int) == ":conn"@
        }),
{
    reveal_strlit("buzz:ratelimit:ip:");
    reveal_strlit(":conn");
    let key = ip_rate_limit_key_text(ip);
    assert(key.subrange(0, 18) =~= "buzz:ratelimit:ip:"@);
    assert(key.subrange(18, 18 + ip.len() as int) =~= ip);
    assert(key.subrange(18 + ip.len() as int, key.len() as int) =~= ":conn"@);
}

// ---- Buckets ----

/// The bucket of a limit and a window is the caller's: it holds `limit` tokens,
/// gains `limit` in every window, a window of zero counting as one second, and is
/// forgotten after two idle windows and a minute, or as late as can be told.
pub proof fn law_buckets_have_the_callers_rate(window_secs: u64, limit: u64)
    ensures
        ({
            let params = params_for(window_secs, limit);
            let secs = if window_secs == 0 {
                1int
            } else {
                window_secs as int
            };
            &&& params.capacity == limit
            &&& params.refill_secs > 0
            &&& params.refill_tokens * secs == limit * params.refill_secs
            &&& 2 * window_secs + 60 <= u64::MAX ==> params.ttl_secs == 2 * window_secs + 60
            &&& 2 * window_secs + 60 > u64::MAX ==> params.ttl_secs == u64::MAX
        }),
{
}

/// What a state holds, counted in fractions of which `per` make a part and
/// `10^18` parts a token.
pub open spec fn holdings(state: BucketState) -> int {
    (state.whole * 1_000_000_000_000_000_000 + state.part) * state.per + state.rest
}

/// Whether a request at `now` is served as it should be, by a bucket that was used
/// before, holds up to `capacity` tokens, and gains `tokens` in every `secs`
/// seconds. The request finds what the bucket held and what flowed in since, but
/// no more than the capacity. It takes a token if one is there, and leaves the
/// rest. What was held is rounded down by less than the smallest fraction, and by
/// nothing where the fractions are as before.
pub open spec fn serves(
    bucket: BucketState,
    capacity: u64,
    tokens: u64,
    secs: int,
    now: u64,
    after: BucketState,
    reply: BucketReply,
) -> bool {
    let span = secs * 1_000_000_000;
    let token = 1_000_000_000_000_000_000 * span;
    let elapsed = if now > bucket.last {
        now - bucket.last
    } else {
        0
    };
    let held = holdings(bucket) * span;
    let flowed = elapsed * tokens * 1_000_000_000_000_000_000 * bucket.per;
    let found = holdings(after) + if reply.allowed == 1 {
        token
    } else {
        0
    };
    &&& after.part < 1_000_000_000_000_000_000
    &&& after.rest < span
    &&& after.per == span
    &&& after.last == now
    &&& found <= capacity * token
    &&& found < capacity * token ==> found * bucket.per <= held + flowed < (found + 1) * bucket.per
    &&& found == capacity * token ==> held + flowed >= capacity * token * bucket.per
    &&& reply.allowed == 0 || reply.allowed == 1
    &&& reply.allowed == 0 ==> holdings(after) < token
    &&& reply.remaining == if after.whole <= i64::MAX {
        after.whole as int
    } else {
        i64::MAX as int
    }
    &&& reply.capacity == capacity
}

/// Whether a request at `now` is served as it should be, by a bucket that was never
/// used: it finds `capacity` tokens, takes one if there is one, and leaves the rest.
pub open spec fn opens(
    capacity: u64,
    secs: int,
    now: u64,
    after: BucketState,
    reply: BucketReply,
) -> bool {
    let left = if capacity == 0 {
        0
    } else {
        capacity - 1
    };
    &&& after.whole == left
    &&& after.part == 0
    &&& after.rest == 0
    &&& after.per == secs * 1_000_000_000
    &&& after.last == now
    &&& reply.allowed == if capacity == 0 {
        0int
    } else {
        1
    }
    &&& reply.remaining == if left <= i64::MAX {
        left
    } else {
        i64::MAX as int
    }
    &&& reply.capacity == capacity
}

/// Every used bucket serves a request out of what it held and what has flowed in
/// since, whatever its parameters.
pub proof fn law_used_buckets_are_served(bucket: BucketState, params: BucketParams, now: u64)
    requires
        bucket.part < 1_000_000_000_000_000_000,
        bucket.rest < bucket.per <= u64::MAX * 1_000_000_000,
        params.refill_secs > 0,
    ensures
        serves(
            bucket,
            params.capacity,
            params.refill_tokens,
            params.refill_secs as int,
            now,
            next_state(Some(bucket), params, now),
            reply_for(Some(bucket), params, now),
        ),
{
    let period = params.period() as int;
    let token = params.token() as int;
    let per = bucket.per as int;
    let elapsed = if now > bucket.last {
        now - bucket.last
    } else {
        0
    };
    let counted = bucket.fractions(params.period()) as int;
    let gained = elapsed * params.refill_tokens * 1_000_000_000_000_000_000;
    lemma_state_amount(Some(bucket), params, now);
    law_changing_the_window_keeps_tokens(bucket, params);
    assert(counted * per <= holdings(bucket) * period < (counted + 1) * per);
    assert((counted + gained) * per == counted * per + gained * per) by (nonlinear_arith);
    assert((counted + gained + 1) * per == (counted + 1) * per + gained * per)
        by (nonlinear_arith);
    let full = params.capacity * token;
    if counted + gained >= full {
        assert((counted + gained) * per >= full * per) by (nonlinear_arith)
            requires
                counted + gained >= full,
                per > 0,
        ;
    }
}

/// Every unused bucket serves a request out of its capacity, whatever its
/// parameters.
pub proof fn law_unused_buckets_are_served(params: BucketParams, now: u64)
    requires
        params.refill_secs > 0,
    ensures
        opens(
            params.capacity,
            params.refill_secs as int,
            now,
            next_state(None, params, now),
            reply_for(None, params, now),
        ),
{
    let period = params.period() as int;
    let token = params.token() as int;
    let capacity = params.capacity;
    let left = if capacity == 0 {
        0
    } else {
        capacity - 1
    };
    assert((capacity - 1) * token == capacity * token - token) by (nonlinear_arith);
    assert((capacity * token >= token) == (capacity >= 1)) by (nonlinear_arith)
        requires
            token > 0,
    ;
    assert(0 * token == 0);
    assert(left_after(None, params, now) == left * token);
    lemma_split(left_after(None, params, now), period as nat, left as nat, 0, 0);
}

/// A limit of `limit` per `window_secs` is served at that limit and over that
/// window, a window of zero counting as one second.
pub proof fn law_limits_are_served_over_the_callers_window(
    bucket: BucketState,
    window_secs: u64,
    limit: u64,
    now: u64,
)
    requires
        bucket.part < 1_000_000_000_000_000_000,
        bucket.rest < bucket.per <= u64::MAX * 1_000_000_000,
    ensures
        ({
            let params = params_for(window_secs, limit);
            let secs = if window_secs == 0 {
                1int
            } else {
                window_secs as int
            };
            &&& serves(
                bucket,
                limit,
                limit,
                secs,
                now,
                next_state(Some(bucket), params, now),
                reply_for(Some(bucket), params, now),
            )
            &&& opens(
                limit,
                secs,
                now,
                next_state(None, params, now),
                reply_for(None, params, now),
            )
        }),
{
    law_used_buckets_are_served(bucket, params_for(window_secs, limit), now);
    law_unused_buckets_are_served(params_for(window_secs, limit), now);
}

/// What a state holds after a request is what the request left.
proof fn lemma_state_amount(state: Option<BucketState>, params: BucketParams, now: u64)
    requires
        params.wf(),
    ensures
        holdings(next_state(state, params, now)) == left_after(state, params, now),
        next_state(state, params, now).wf(),
        next_state(state, params, now).per == params.period(),
        next_state(state, params, now).whole == left_after(state, params, now) / params.token(),
{
    let period = params.period() as int;
    let after = next_state(state, params, now);
    law_buckets_stay_within_capacity(state, params, now);
    lemma_whole_tokens_left(state, params, now);
    lemma_fundamental_div_mod_converse(after.rest * period, period, after.rest as int, 0);
}

// ---- Replies ----

/// What a result says can be read off the reply. It is allowed exactly if the
/// reply says one; the limit is the capacity; the counter and the tokens left add
/// up to the limit, as far as these lie between none and all. An allowed request
/// resets in the least number of seconds, and at least one, in which what is gone
/// flows back at the refill rate; a rate below one token in two to the
/// fifty-second seconds counts as that. A denied request that lacks no token waits
/// a second.
pub proof fn law_results_are_read_off_the_reply(params: BucketParams, reply: BucketReply)
    requires
        params.refill_secs > 0,
    ensures
        ({
            let result = result_of(params, reply);
            let gone = reply.capacity - reply.remaining;
            let reset = result.reset_in_secs;
            &&& result.allowed <==> reply.allowed == 1
            &&& result.limit == reply.capacity
            &&& reply.remaining < 0 ==> result.current == reply.capacity
            &&& 0 <= reply.remaining <= reply.capacity ==> result.current + reply.remaining
                == reply.capacity
            &&& reply.remaining > reply.capacity ==> result.current == 0
            &&& reply.allowed != 1 && reply.remaining >= 1 ==> reset == 1
            &&& reply.allowed == 1 && gone <= 0 ==> reset == 1
            &&& reply.allowed == 1 && gone > 0 && params.refill_secs <= params.refill_tokens
                * 4_503_599_627_370_496 ==> {
                &&& reset >= 1
                &&& (reset - 1) * params.refill_tokens < gone * params.refill_secs
                &&& reset < u64::MAX ==> reset * params.refill_tokens >= gone * params.refill_secs
            }
            &&& reply.allowed == 1 && gone > 0 && params.refill_secs > params.refill_tokens
                * 4_503_599_627_370_496 ==> reset == if gone * 4_503_599_627_370_496 <= u64::MAX {
                gone * 4_503_599_627_370_496
            } else {
                u64::MAX as int
            }
        }),
{
    let gone = reply.capacity - reply.remaining;
    if gone > 0 {
        law_gain_times_are_least(params, gone);
    }
}

// ---- Waits ----

/// Whether `m`, a significand of fifty-three bits, is the nearest one to
/// `n / d * 2^shift`, the even one of two. Below the least significand the doubles
/// lie twice as close, so that one is the nearest only from a quarter above.
pub open spec fn nearest_significand(n: nat, d: nat, shift: int, m: nat) -> bool {
    let top = if shift >= 0 {
        n * pow2(shift as nat)
    } else {
        n
    };
    let bottom = if shift >= 0 {
        d
    } else {
        d * pow2((-shift) as nat)
    };
    let gap = m * bottom - top;
    &&& 4_503_599_627_370_496 <= m < 9_007_199_254_740_992
    &&& -bottom <= 2 * gap <= bottom
    &&& (2 * gap == bottom || 2 * gap == -bottom) ==> m % 2 == 0
    &&& m == 4_503_599_627_370_496 ==> 4 * gap <= bottom
}

/// Whether a double is the nearest to an integer.
pub open spec fn rounds_integer(n: nat, x: Binary) -> bool {
    nearest_significand(n, 1, -x.exp, x.mant)
}

/// Whether a double is the nearest to the quotient of two doubles.
pub open spec fn rounds_quotient(x: Binary, y: Binary, q: Binary) -> bool {
    nearest_significand(x.mant, y.mant, x.exp - y.exp - q.exp, q.mant)
}

/// The doubles that a wait is reckoned through.
pub struct Reckoning {
    /// The tokens below zero, as a double.
    pub debt: Binary,
    /// The debt as an integer.
    pub below: nat,
    /// The debt and the token that is asked for.
    pub owed: Binary,
    /// The limit.
    pub tokens: Binary,
    /// The window.
    pub secs: Binary,
    /// Tokens by the second.
    pub speed: Binary,
    /// The speed, but not less than a token in two to the fifty-second seconds.
    pub rate: Binary,
    /// What is owed by the rate.
    pub span: Binary,
}

/// Whether a wait is what a reckoning in doubles gives for tokens that are missing
/// from a bucket that gains `tokens` in every `secs` seconds.
pub open spec fn reckons(
    by: Reckoning,
    tokens: u64,
    secs: nat,
    remaining: i64,
    wait: u64,
) -> bool {
    let slowest = Binary { mant: 4_503_599_627_370_496, exp: -104 };
    &&& if remaining == 0 {
        by.below == 0
    } else {
        &&& rounds_integer((-remaining) as nat, by.debt)
        &&& by.debt.exp >= 0 ==> by.below == by.debt.mant * pow2(by.debt.exp as nat)
        &&& by.debt.exp < 0 ==> by.below * pow2((-by.debt.exp) as nat) == by.debt.mant
    }
    &&& rounds_integer(1 + by.below, by.owed)
    &&& if tokens == 0 {
        by.rate == slowest
    } else {
        &&& rounds_integer(tokens as nat, by.tokens)
        &&& rounds_integer(secs, by.secs)
        &&& rounds_quotient(by.tokens, by.secs, by.speed)
        &&& by.speed.exp < -104 ==> by.rate == slowest
        &&& by.speed.exp >= -104 ==> by.rate == by.speed
    }
    &&& rounds_quotient(by.owed, by.rate, by.span)
    &&& if by.span.exp >= 0 {
        wait == if by.span.mant * pow2(by.span.exp as nat) <= u64::MAX {
            (by.span.mant * pow2(by.span.exp as nat)) as int
        } else {
            u64::MAX as int
        }
    } else {
        (wait - 1) * pow2((-by.span.exp) as nat) < by.span.mant <= wait * pow2(
            (-by.span.exp) as nat,
        )
    }
}

/// A denied request is told to wait for what double precision makes of the tokens
/// it lacks by the refill rate, rounded up to whole seconds.
pub proof fn law_denials_report_the_reckoned_wait(params: BucketParams, reply: BucketReply) -> (by:
    Reckoning)
    requires
        params.refill_secs > 0,
        reply.allowed != 1,
        reply.remaining <= 0,
    ensures
        reckons(
            by,
            params.refill_tokens,
            params.refill_secs as nat,
            reply.remaining,
            result_of(params, reply).reset_in_secs,
        ),
{
    let remaining = reply.remaining;
    let secs = params.refill_secs as nat;
    let debt = nearest((-remaining) as nat);
    let below = ceiling(debt);
    let owed = nearest(1 + below);
    let tokens = nearest(params.refill_tokens as nat);
    let speed = quotient(tokens, nearest(secs));
    let rate = refill_rate(params);
    let span = quotient(owed, rate);
    if remaining == 0 {
        lemma_nothing_below_zero();
    } else {
        law_nearest_doubles_are_nearest((-remaining) as nat);
        lemma_ceiling_of_integer((-remaining) as nat);
    }
    law_nearest_doubles_are_nearest(1 + below);
    lemma_nearest_normal(1 + below);
    if params.refill_tokens > 0 {
        law_nearest_doubles_are_nearest(params.refill_tokens as nat);
        law_nearest_doubles_are_nearest(secs);
        lemma_nearest_normal(params.refill_tokens as nat);
        lemma_nearest_normal(secs);
        law_quotients_are_nearest(tokens, nearest(secs));
    }
    lemma_rate_is_normal(params);
    law_quotients_are_nearest(owed, rate);
    lemma_quotient_normal(owed, rate);
    law_ceilings_are_least(span);
    if span.exp < 0 {
        let unit = pow2((-span.exp) as nat) as int;
        lemma_pow2_pos((-span.exp) as nat);
        let up = ceiling(span) as int;
        assert(up - 1 <= (up - 1) * unit) by (nonlinear_arith)
            requires
                up >= 1,
                unit >= 1,
        ;
    }
    Reckoning { debt, below, owed, tokens, secs: nearest(secs), speed, rate, span }
}

/// The wait that a denied request is told is reckoned by the caller's own limit and
/// window, a window of zero counting as one second.
pub proof fn law_denials_are_reckoned_by_the_callers_window(
    window_secs: u64,
    limit: u64,
    reply: BucketReply,
) -> (by: Reckoning)
    requires
        reply.allowed != 1,
        reply.remaining <= 0,
    ensures
        reckons(
            by,
            limit,
            if window_secs == 0 {
                1
            } else {
                window_secs as nat
            },
            reply.remaining,
            result_of(params_for(window_secs, limit), reply).reset_in_secs,
        ),
{
    law_denials_report_the_reckoned_wait(params_for(window_secs, limit), reply)
}

/// Rounding gives the nearest integer, the even one of two.
proof fn lemma_round_is_nearest(n: nat, d: nat)
    requires
        d > 0,
    ensures
        ({
            let m = round_half_even(n, d);
            let gap = m * d - n;
            &&& -d <= 2 * gap <= d
            &&& (2 * gap == d || 2 * gap == -d) ==> m % 2 == 0
        }),
{
    lemma_fundamental_div_mod(n as int, d as int);
    let q = n / d;
    assert((q + 1) * d == q * d + d) by (nonlinear_arith);
    assert(d * q == q * d) by (nonlinear_arith);
}

/// The double of an integer is the nearest one.
pub proof fn law_nearest_doubles_are_nearest(n: nat)
    requires
        n > 0,
    ensures
        rounds_integer(n, nearest(n)),
{
    lemma2_to64();
    lemma2_to64_rest();
    lemma_bits(n);
    lemma_nearest_normal(n);
    let x = nearest(n);
    let shift = bits(n) - 53;
    if shift <= 0 {
        assert(x.mant * 1 == x.mant);
    } else {
        let unit = pow2(shift as nat);
        let m = round_half_even(n, unit);
        lemma_pow2_pos(shift as nat);
        lemma_pow2_adds(52, shift as nat);
        lemma_pow2_unfold((shift + 1) as nat);
        lemma_round_is_nearest(n, unit);
        assert(SIGNIFICAND * unit <= n);
        if m == 2 * SIGNIFICAND {
            assert(m * unit == 2 * SIGNIFICAND * unit);
            assert(x.mant * (1 * pow2((shift + 1) as nat)) == m * unit);
        } else {
            assert(x.mant * (1 * unit) == m * unit);
            if m == SIGNIFICAND {
                assert(m * unit == SIGNIFICAND * unit);
            }
        }
    }
}

/// The double of a quotient is the nearest one.
pub proof fn law_quotients_are_nearest(x: Binary, y: Binary)
    requires
        x.normal(),
        y.normal(),
    ensures
        rounds_quotient(x, y, quotient(x, y)),
{
    lemma2_to64_rest();
    lemma_quotient_normal(x, y);
    let m = quotient(x, y).mant;
    if x.mant >= y.mant {
        lemma_round_is_nearest(x.mant * SIGNIFICAND as nat, y.mant);
        assert(x.mant * pow2(52) == x.mant * SIGNIFICAND as nat);
    } else {
        lemma_round_is_nearest(x.mant * (2 * SIGNIFICAND) as nat, y.mant);
        assert(x.mant * pow2(53) == x.mant * (2 * SIGNIFICAND) as nat);
    }
    if m == SIGNIFICAND {
        assert(m * y.mant == SIGNIFICAND * y.mant);
    }
}

/// The ceiling of a double is the least integer not below it.
pub proof fn law_ceilings_are_least(x: Binary)
    requires
        x.mant > 0,
    ensures
        x.exp >= 0 ==> ceiling(x) == x.mant * pow2(x.exp as nat),
        x.exp < 0 ==> (ceiling(x) - 1) * pow2((-x.exp) as nat) < x.mant <= ceiling(x) * pow2(
            (-x.exp) as nat,
        ),
        ceiling(x) >= 1,
{
    if x.exp >= 0 {
        let unit = pow2(x.exp as nat);
        lemma_pow2_pos(x.exp as nat);
        assert(x.mant * unit >= 1) by (nonlinear_arith)
            requires
                x.mant >= 1,
                unit >= 1,
        ;
    } else {
        let unit = pow2((-x.exp) as nat) as int;
        lemma_pow2_pos((-x.exp) as nat);
        let up = (x.mant + unit - 1) / unit;
        lemma_fundamental_div_mod(x.mant + unit - 1, unit);
        assert(up * unit >= x.mant > (up - 1) * unit && up >= 1) by (nonlinear_arith)
            requires
                x.mant + unit - 1 == unit * up + (x.mant + unit - 1) % unit,
                0 <= (x.mant + unit - 1) % unit < unit,
                x.mant >= 1,
        ;
    }
}

/// The double nearest to an integer is an integer.
proof fn lemma_ceiling_of_integer(n: nat)
    requires
        n > 0,
    ensures
        nearest(n).exp < 0 ==> ceiling(nearest(n)) * pow2((-nearest(n).exp) as nat)
            == nearest(n).mant,
{
    let x = nearest(n);
    if x.exp < 0 {
        let unit = pow2((-x.exp) as nat) as int;
        lemma_pow2_pos((-x.exp) as nat);
        assert(x.mant == n * unit);
        lemma_fundamental_div_mod_converse(n * unit + unit - 1, unit, n as int, unit - 1);
    }
}

// ---- Failures ----

/// A failure is reported in full: the store's own text stands unchanged behind
/// words that say what failed.
pub proof fn law_failures_are_told_in_full(text: String)
    ensures
        ({
            let pool = StoreFailure::Pool(text).message();
            let script = StoreFailure::Script(text).message();
            &&& pool.len() == 12 + text@.len()
            &&& pool.subrange(0, 12) == "Redis pool: "@
            &&& pool.subrange(12, pool.len() as int) == text@
            &&& script.len() == 27 + text@.len()
            &&& script.subrange(0, 27) == "Redis token bucket script: "@
            &&& script.subrange(27, script.len() as int) == text@
        }),
{
    reveal_strlit("Redis pool: ");
    reveal_strlit("Redis token bucket script: ");
    let pool = StoreFailure::Pool(text).message();
    let script = StoreFailure::Script(text).message();
    assert(pool.subrange(0, 12) =~= "Redis pool: "@);
    assert(pool.subrange(12, pool.len() as int) =~= text@);
    assert(script.subrange(0, 27) =~= "Redis token bucket script: "@);
    assert(script.subrange(27, script.len() as int) =~= text@);
}

} // verus!
