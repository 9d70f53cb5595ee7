//! Token-bucket rate limiter.
//!
//! A bucket holds up to `limit` tokens and refills at `limit / window_secs`
//! tokens per second, so it allows a bounded burst up to the configured limit
//! and then enforces the average rate: there is no fixed-window boundary burst.
//!
//! Shared buckets live in Redis, one hash (`tokens`, `last` refill timestamp)
//! per key, mutated atomically by [`TOKEN_BUCKET_SCRIPT`]. What goes into a run
//! of the script, and what is made of its reply, is decided here; the run itself
//! is the caller's.
//!
//! [`token_bucket`] serves a request on a bucket held in memory. It follows the
//! script line by line, but counts in exact fractions of a token where the script
//! counts in floating point. What is proved of buckets, here and in
//! [`crate::laws`], is proved of `token_bucket`. The Redis-backed limiter runs
//! the script and never calls it, so those proofs reach shared buckets only as
//! far as Redis, and its rounding, agree with it.

use vstd::arithmetic::div_mod::{lemma_fundamental_div_mod, lemma_fundamental_div_mod_converse};
use vstd::arithmetic::power2::{lemma_pow2_pos, pow2};
use vstd::prelude::*;

use crate::double::{
    bits, ceiling, divide, lemma_nearest_bound, lemma_quotient_normal, nearest, nearest_double,
    quotient, round_up, Binary, Double, SIGNIFICAND,
};
use crate::promises::{
    law_unused_buckets_are_served, law_used_buckets_are_served, opens, serves,
};
use crate::rate_limit::{
    ip_rate_limit_key, ip_rate_limit_key_text, rate_limit_key, rate_limit_key_text, AuthError,
    LimitType, RateLimitResult,
};
use crate::tenant::{PublicKey, TenantContext};

verus! {

/// Tokens that one request consumes.
pub const TOKEN_COST: u64 = 1;

/// Nanoseconds in a second.
pub const NANOS_PER_SEC: u64 = 1_000_000_000;

/// Parts that a token is counted in.
pub const PARTS_PER_TOKEN: u64 = 1_000_000_000_000_000_000;

/// The slowest refill that a reported time reckons with, in seconds per token:
/// two to the fifty-second.
pub const SLOWEST_SECS_PER_TOKEN: u64 = 4_503_599_627_370_496;

/// Atomic token bucket: refill from `last`, consume `cost` if available, write
/// the new state, and (re)arm the idle TTL, all in one script.
///
/// - `KEYS[1]`: bucket key
/// - `ARGV[1]`: capacity (max tokens)
/// - `ARGV[2]`: refill rate, tokens per second
/// - `ARGV[3]`: now, Unix seconds (float)
/// - `ARGV[4]`: cost (tokens consumed per request)
/// - `ARGV[5]`: idle TTL in seconds
///
/// Returns `{allowed, remaining_tokens, capacity}`.
pub const TOKEN_BUCKET_SCRIPT: &'static str = r#"
local data = redis.call('HMGET', KEYS[1], 'tokens', 'last')
local tokens = tonumber(data[1])
local last = tonumber(data[2])
if tokens == nil then
    tokens = tonumber(ARGV[1])
    last = tonumber(ARGV[3])
end
local elapsed = math.max(0, tonumber(ARGV[3]) - last)
tokens = math.min(tonumber(ARGV[1]), tokens + elapsed * tonumber(ARGV[2]))
local allowed = 0
if tokens >= tonumber(ARGV[4]) then
    tokens = tokens - tonumber(ARGV[4])
    allowed = 1
end
redis.call('HSET', KEYS[1], 'tokens', tostring(tokens), 'last', tostring(tonumber(ARGV[3])))
redis.call('EXPIRE', KEYS[1], tonumber(ARGV[5]))
return {allowed, tokens, tonumber(ARGV[1])}
"#;

/// The parameters of a bucket.
#[derive(Debug, Clone, Copy, PartialEq, Eq, Structural)]
pub struct BucketParams {
    /// Most tokens that the bucket holds.
    pub capacity: u64,
    /// Tokens that flow in during every `refill_secs` seconds.
    pub refill_tokens: u64,
    /// Seconds over which `refill_tokens` flow in; never zero.
    pub refill_secs: u64,
    /// Idle seconds after which the store forgets the bucket.
    pub ttl_secs: u64,
}

impl BucketParams {
    /// The refill period is not empty.
    pub open spec fn wf(self) -> bool {
        self.refill_secs > 0
    }

    /// The refill period in nanoseconds. The parts of a token are counted in
    /// fractions of this, so that one nanosecond brings a whole number of them:
    /// `refill_tokens` for each part of a token.
    pub open spec fn period(self) -> nat {
        (self.refill_secs * NANOS_PER_SEC) as nat
    }

    /// The fractions that make a token.
    pub open spec fn token(self) -> nat {
        PARTS_PER_TOKEN as nat * self.period()
    }
}

/// The bucket of a limit of `limit` requests per `window_secs` seconds:
/// capacity `limit`, refill `limit / window_secs` tokens per second (a window of
/// zero counts as one second), forgotten after two idle windows and a minute.
pub open spec fn params_for(window_secs: u64, limit: u64) -> BucketParams {
    BucketParams {
        capacity: limit,
        refill_tokens: limit,
        refill_secs: if window_secs == 0 {
            1
        } else {
            window_secs
        },
        ttl_secs: if 2 * window_secs + 60 <= u64::MAX {
            (2 * window_secs + 60) as u64
        } else {
            u64::MAX
        },
    }
}

/// Derives the parameters of a bucket from a limit and its window.
pub fn bucket_params(window_secs: u64, limit: u64) -> (params: BucketParams)
    ensures
        params == params_for(window_secs, limit),
        params.wf(),
        params.capacity == limit,
        params.refill_tokens * (if window_secs == 0 {
            1int
        } else {
            window_secs as int
        }) == limit * params.refill_secs,
        params.ttl_secs == if 2 * window_secs + 60 <= u64::MAX {
            2 * window_secs + 60
        } else {
            u64::MAX as int
        },
{
    BucketParams {
        capacity: limit,
        refill_tokens: limit,
        refill_secs: if window_secs == 0 {
            1
        } else {
            window_secs
        },
        ttl_secs: window_secs.saturating_add(window_secs).saturating_add(60),
    }
}

/// What is kept of a bucket between requests.
#[derive(Debug, Clone, Copy, PartialEq, Eq, Structural)]
pub struct BucketState {
    /// Whole tokens in the bucket.
    pub whole: u64,
    /// Further parts of a token, of which [`PARTS_PER_TOKEN`] make one.
    pub part: u64,
    /// Further fractions of a part, of which `per` make one.
    pub rest: u128,
    /// Fractions that make a part: the nanoseconds of the window.
    pub per: u128,
    /// Time of the last request, in nanoseconds since the Unix epoch.
    pub last: u64,
}

impl BucketState {
    /// Less than one token is held in parts and less than one part in fractions,
    /// which are no finer than those of the longest window.
    pub open spec fn wf(self) -> bool {
        &&& self.part < PARTS_PER_TOKEN
        &&& self.rest < self.per <= u64::MAX * NANOS_PER_SEC
    }

    /// The tokens in the bucket, counted in fractions of one `period`th of a
    /// part. Whole tokens and parts are kept as they are. What is less than a part
    /// is rounded down to a whole number of fractions; nothing is lost of it
    /// where the fractions are those that the state is kept in.
    pub open spec fn fractions(self, period: nat) -> nat {
        (self.whole as nat * PARTS_PER_TOKEN as nat + self.part as nat) * period + (self.rest as nat
            * period) / (self.per as nat)
    }
}

/// The fractions of a token in the bucket when a request arrives at `now`,
/// before it is served: what was there and what has flowed in since, but no more
/// than the capacity. A bucket that is not there yet is full, and a clock that
/// went back brings nothing.
pub open spec fn refilled(state: Option<BucketState>, params: BucketParams, now: u64) -> nat {
    let full = params.capacity as nat * params.token();
    match state {
        None => full,
        Some(bucket) => {
            let elapsed = if now > bucket.last {
                (now - bucket.last) as nat
            } else {
                0
            };
            let filled = bucket.fractions(params.period()) + elapsed * params.refill_tokens as nat
                * PARTS_PER_TOKEN as nat;
            if filled < full {
                filled
            } else {
                full
            }
        },
    }
}

/// Whether a request at `now` is allowed: its cost is in the bucket.
pub open spec fn admits(state: Option<BucketState>, params: BucketParams, now: u64) -> bool {
    refilled(state, params, now) >= TOKEN_COST * params.token()
}

/// The fractions of a token left once a request at `now` is served. A denied
/// request consumes nothing.
pub open spec fn left_after(state: Option<BucketState>, params: BucketParams, now: u64) -> nat {
    if admits(state, params, now) {
        (refilled(state, params, now) - TOKEN_COST * params.token()) as nat
    } else {
        refilled(state, params, now)
    }
}

/// The bucket once a request at `now` is served.
pub open spec fn next_state(
    state: Option<BucketState>,
    params: BucketParams,
    now: u64,
) -> BucketState {
    let left = left_after(state, params, now);
    BucketState {
        whole: (left / params.token()) as u64,
        part: (left % params.token() / params.period()) as u64,
        rest: (left % params.period()) as u128,
        per: params.period() as u128,
        last: now,
    }
}

/// The reply of a bucket to one request.
#[derive(Debug, Clone, Copy, PartialEq, Eq, Structural)]
pub struct BucketReply {
    /// One where the request is allowed.
    pub allowed: u64,
    /// Whole tokens left; Redis drops the fraction of a number that a script
    /// returns, and holds it in sixty-four signed bits.
    pub remaining: i64,
    /// The capacity that the bucket was asked to have.
    pub capacity: u64,
}

/// The reply to a request at `now`.
pub open spec fn reply_for(
    state: Option<BucketState>,
    params: BucketParams,
    now: u64,
) -> BucketReply {
    let whole = left_after(state, params, now) / params.token();
    BucketReply {
        allowed: if admits(state, params, now) {
            1
        } else {
            0
        },
        remaining: if whole <= i64::MAX {
            whole as i64
        } else {
            i64::MAX
        },
        capacity: params.capacity,
    }
}

/// `part * scale / per` and the remainder, by doubling: the product itself may be
/// too wide for an integer.
fn multiply_divide(part: u128, per: u128, scale: u128) -> (result: (u128, u128))
    requires
        part < per <= u64::MAX * NANOS_PER_SEC,
        scale <= u64::MAX * NANOS_PER_SEC,
    ensures
        result.0 * per + result.1 == part * scale,
        result.1 < per,
        result.0 <= scale,
        scale > 0 ==> result.0 < scale,
    decreases scale,
{
    if scale == 0 {
        assert(0 * per + 0 == part * 0) by (nonlinear_arith);
        return (0, 0);
    }
    let (half, rest) = multiply_divide(part, per, scale / 2);
    let mut quotient: u128 = 2 * half;
    let odd: u128 = scale % 2;
    let mut remainder: u128 = if odd == 1 {
        2 * rest + part
    } else {
        2 * rest
    };
    assert(quotient * per + remainder == part * scale) by (nonlinear_arith)
        requires
            half * per + rest == part * (scale / 2),
            quotient == 2 * half,
            odd == 0 && remainder == 2 * rest || odd == 1 && remainder == 2 * rest + part,
            scale == 2 * (scale / 2) + odd,
    ;
    if remainder >= per {
        assert((quotient + 1) * per == quotient * per + per) by (nonlinear_arith);
        quotient = quotient + 1;
        remainder = remainder - per;
    }
    if remainder >= per {
        assert((quotient + 1) * per == quotient * per + per) by (nonlinear_arith);
        quotient = quotient + 1;
        remainder = remainder - per;
    }
    assert(quotient < scale) by (nonlinear_arith)
        requires
            quotient * per + remainder == part * scale,
            remainder >= 0,
            part < per,
            scale > 0,
            per > 0,
    ;
    (quotient, remainder)
}

/// What whole tokens, parts and fractions amount to determines them.
pub proof fn lemma_split(amount: nat, period: nat, whole: nat, part: nat, rest: nat)
    requires
        period > 0,
        part < PARTS_PER_TOKEN,
        rest < period,
        amount == whole * (PARTS_PER_TOKEN as nat * period) + part * period + rest,
    ensures
        amount / (PARTS_PER_TOKEN as nat * period) == whole,
        amount % (PARTS_PER_TOKEN as nat * period) / period == part,
        amount % period == rest,
        part * period + rest < PARTS_PER_TOKEN as nat * period,
{
    let token = PARTS_PER_TOKEN as nat * period;
    let beyond = part * period + rest;
    assert(beyond < token && token > 0) by (nonlinear_arith)
        requires
            beyond == part * period + rest,
            token == PARTS_PER_TOKEN as nat * period,
            part + 1 <= PARTS_PER_TOKEN,
            rest < period,
    ;
    lemma_fundamental_div_mod_converse(amount as int, token as int, whole as int, beyond as int);
    lemma_fundamental_div_mod_converse(beyond as int, period as int, part as int, rest as int);
    let parts = whole * PARTS_PER_TOKEN as nat + part;
    assert(amount == parts * period + rest) by (nonlinear_arith)
        requires
            amount == whole * (PARTS_PER_TOKEN as nat * period) + part * period + rest,
            parts == whole * PARTS_PER_TOKEN as nat + part,
    ;
    lemma_fundamental_div_mod_converse(amount as int, period as int, parts as int, rest as int);
}

/// Serves one request at `now` (nanoseconds since the Unix epoch): refills the
/// bucket since its last request, consumes a token if one is there, and hands
/// back the bucket to keep and the reply. `None` stands for a bucket that was
/// never used, or that the store has forgotten.
pub fn token_bucket(state: Option<BucketState>, params: &BucketParams, now: u64) -> (served: (
    BucketState,
    BucketReply,
))
    requires
        params.wf(),
        state matches Some(bucket) ==> bucket.wf(),
    ensures
        served.0 == next_state(state, *params, now),
        served.0.wf(),
        served.1 == reply_for(state, *params, now),
        match state {
            None => opens(params.capacity, params.refill_secs as int, now, served.0, served.1),
            Some(bucket) => serves(
                bucket,
                params.capacity,
                params.refill_tokens,
                params.refill_secs as int,
                now,
                served.0,
                served.1,
            ),
        },
{
    proof {
        match state {
            None => law_unused_buckets_are_served(*params, now),
            Some(bucket) => law_used_buckets_are_served(bucket, *params, now),
        }
    }
    let period: u128 = params.refill_secs as u128 * NANOS_PER_SEC as u128;
    let (whole, part, rest) = match state {
        None => (params.capacity, 0u64, 0u128),
        Some(bucket) => refill(&bucket, params, now, period),
    };
    let allowed = whole >= TOKEN_COST;
    let left: u64 = if allowed {
        whole - TOKEN_COST
    } else {
        whole
    };
    proof {
        let token = params.token();
        lemma_split(
            refilled(state, *params, now),
            period as nat,
            whole as nat,
            part as nat,
            rest as nat,
        );
        assert(allowed == admits(state, *params, now)) by (nonlinear_arith)
            requires
                allowed == (whole >= 1),
                admits(state, *params, now) == (whole * token + (part * period + rest) >= 1
                    * token),
                0 <= part * period + rest < token,
        ;
        assert((whole - 1) * token == whole * token - token) by (nonlinear_arith);
        lemma_split(
            left_after(state, *params, now),
            period as nat,
            left as nat,
            part as nat,
            rest as nat,
        );
    }
    let remaining: i64 = if left <= i64::MAX as u64 {
        left as i64
    } else {
        i64::MAX
    };
    (
        BucketState { whole: left, part, rest, per: period, last: now },
        BucketReply {
            allowed: if allowed {
                1
            } else {
                0
            },
            remaining,
            capacity: params.capacity,
        },
    )
}

/// The tokens of `bucket` at `now`: whole ones, parts, and fractions of one
/// `period`th of a part.
fn refill(bucket: &BucketState, params: &BucketParams, now: u64, period: u128) -> (tokens: (
    u64,
    u64,
    u128,
))
    requires
        bucket.wf(),
        params.wf(),
        period == params.period(),
    ensures
        tokens.0 * params.token() + tokens.1 * period + tokens.2 == refilled(
            Some(*bucket),
            *params,
            now,
        ),
        tokens.1 < PARTS_PER_TOKEN,
        tokens.2 < period,
{
    let kept: u128 = if bucket.per == period {
        proof {
            lemma_fundamental_div_mod_converse(
                bucket.rest * period,
                period as int,
                bucket.rest as int,
                0,
            );
        }
        bucket.rest
    } else {
        let (quotient, remainder) = multiply_divide(bucket.rest, bucket.per, period);
        proof {
            lemma_fundamental_div_mod_converse(
                bucket.rest * period,
                bucket.per as int,
                quotient as int,
                remainder as int,
            );
        }
        quotient
    };
    let elapsed: u64 = if now > bucket.last {
        now - bucket.last
    } else {
        0
    };
    assert(elapsed * params.refill_tokens <= u64::MAX * u64::MAX) by (nonlinear_arith)
        requires
            elapsed <= u64::MAX,
            params.refill_tokens <= u64::MAX,
    ;
    let gained: u128 = elapsed as u128 * params.refill_tokens as u128;
    let (parts, fractions) = multiply_divide(gained % period, period, PARTS_PER_TOKEN as u128);
    let mut whole: u128 = bucket.whole as u128 + gained / period;
    let mut part: u128 = bucket.part as u128 + parts;
    let mut rest: u128 = kept + fractions;
    proof {
        let tokens = gained as int / period as int;
        let over = gained as int % period as int;
        lemma_fundamental_div_mod(gained as int, period as int);
        assert(whole * params.token() + part * period + rest == bucket.fractions(params.period())
            + elapsed * params.refill_tokens * PARTS_PER_TOKEN) by (nonlinear_arith)
            requires
                whole == bucket.whole + tokens,
                part == bucket.part + parts,
                rest == kept + fractions,
                params.token() == PARTS_PER_TOKEN * period,
                bucket.fractions(params.period()) == (bucket.whole * PARTS_PER_TOKEN + bucket.part)
                    * period + kept,
                elapsed * params.refill_tokens == period * tokens + over,
                over * PARTS_PER_TOKEN == parts * period + fractions,
        ;
    }
    let ghost token = params.token();
    let ghost filled = whole * token + part * period + rest;
    if rest >= period {
        assert((part + 1) * period == part * period + period) by (nonlinear_arith);
        part = part + 1;
        rest = rest - period;
    }
    if part >= PARTS_PER_TOKEN as u128 {
        assert((whole + 1) * token + (part - PARTS_PER_TOKEN) * period == whole * token + part
            * period) by (nonlinear_arith)
            requires
                token == PARTS_PER_TOKEN * period,
        ;
        whole = whole + 1;
        part = part - PARTS_PER_TOKEN as u128;
    }
    proof {
        lemma_split(filled as nat, period as nat, whole as nat, part as nat, rest as nat);
        assert((whole >= params.capacity) == (filled >= params.capacity * token))
            by (nonlinear_arith)
            requires
                whole * token + (part * period + rest) == filled,
                0 <= part * period + rest < token,
        ;
    }
    if whole >= params.capacity as u128 {
        (params.capacity, 0, 0)
    } else {
        (whole as u64, part as u64, rest)
    }
}

/// One run of the script: the key it works on and the bucket it keeps there.
#[derive(Debug, Clone, PartialEq, Eq)]
pub struct BucketCall {
    /// The bucket's key in the store.
    pub key: String,
    /// The bucket's parameters.
    pub params: BucketParams,
}

/// The run that charges one request of `limit_type` to a pubkey in a community,
/// for a limit of `limit` per `window_secs`.
pub fn pubkey_call(
    ctx: &TenantContext,
    pubkey: &PublicKey,
    limit_type: LimitType,
    window_secs: u64,
    limit: u64,
) -> (call: BucketCall)
    ensures
        call.key@ == rate_limit_key_text(ctx.community.bytes@, pubkey.bytes@, limit_type),
        call.params == params_for(window_secs, limit),
{
    BucketCall {
        key: rate_limit_key(ctx, pubkey, &limit_type),
        params: bucket_params(window_secs, limit),
    }
}

/// The run that charges one connection to an IP address, given as text, for a
/// limit of `limit` per `window_secs`.
pub fn ip_call(ip: &str, window_secs: u64, limit: u64) -> (call: BucketCall)
    ensures
        call.key@ == ip_rate_limit_key_text(ip@),
        call.params == params_for(window_secs, limit),
{
    BucketCall { key: ip_rate_limit_key(ip), params: bucket_params(window_secs, limit) }
}

/// The least whole number not below `a / b`.
pub open spec fn ceil_div(a: int, b: int) -> int {
    (a + b - 1) / b
}

/// Seconds in which `tokens` flow into a bucket: their number over the refill
/// rate, rounded up, and at least one. A rate below one token in
/// [`SLOWEST_SECS_PER_TOKEN`] seconds counts as that rate, so that a bucket which
/// never refills has such a time as well.
pub open spec fn secs_to_gain(params: BucketParams, tokens: int) -> u64 {
    let secs = if params.refill_secs <= params.refill_tokens * SLOWEST_SECS_PER_TOKEN {
        ceil_div(tokens * params.refill_secs, params.refill_tokens as int)
    } else {
        tokens * SLOWEST_SECS_PER_TOKEN
    };
    if tokens <= 0 {
        1
    } else if secs <= u64::MAX {
        secs as u64
    } else {
        u64::MAX
    }
}

/// Computes [`secs_to_gain`].
fn gain_secs(params: &BucketParams, tokens: i128) -> (secs: u64)
    requires
        params.wf(),
    ensures
        secs == secs_to_gain(*params, tokens as int),
{
    if tokens <= 0 {
        return 1;
    }
    let gain: u128 = tokens as u128;
    let rate: u128 = params.refill_tokens as u128;
    let period: u128 = params.refill_secs as u128;
    assert(rate * SLOWEST_SECS_PER_TOKEN <= u64::MAX * u64::MAX) by (nonlinear_arith)
        requires
            rate <= u64::MAX,
            SLOWEST_SECS_PER_TOKEN <= u64::MAX,
    ;
    let wait: Option<u128> = if period <= rate * SLOWEST_SECS_PER_TOKEN as u128 {
        proof {
            lemma_wide_quotient(gain * period + rate - 1, rate as int);
        }
        match gain.checked_mul(period) {
            Some(product) => match product.checked_add(rate - 1) {
                Some(sum) => Some(sum / rate),
                None => None,
            },
            None => None,
        }
    } else {
        gain.checked_mul(SLOWEST_SECS_PER_TOKEN as u128)
    };
    match wait {
        Some(secs) => if secs <= u64::MAX as u128 {
            secs as u64
        } else {
            u64::MAX
        },
        None => u64::MAX,
    }
}

/// What is too wide for an integer has a quotient that is too wide for half of
/// one.
proof fn lemma_wide_quotient(dividend: int, divisor: int)
    requires
        0 < divisor <= u64::MAX,
    ensures
        dividend > u128::MAX ==> dividend / divisor > u64::MAX,
{
    lemma_fundamental_div_mod(dividend, divisor);
    let quotient = dividend / divisor;
    let remainder = dividend % divisor;
    if quotient <= u64::MAX {
        assert(divisor * quotient <= u64::MAX * u64::MAX) by (nonlinear_arith)
            requires
                0 < divisor <= u64::MAX,
                quotient <= u64::MAX,
        ;
    }
}

/// The refill rate in tokens per second, as a double. A rate below one token in
/// [`SLOWEST_SECS_PER_TOKEN`] seconds counts as that rate.
pub open spec fn refill_rate(params: BucketParams) -> Binary {
    let rate = quotient(nearest(params.refill_tokens as nat), nearest(params.refill_secs as nat));
    if params.refill_tokens == 0 || rate.exp < -104 {
        Binary { mant: SIGNIFICAND as nat, exp: -104 }
    } else {
        rate
    }
}

/// Seconds until at least one token is available to a bucket that has
/// `remaining`: the missing tokens over the refill rate, rounded up, and at least
/// one. The script counts in doubles, so that a bucket may reach a token later
/// than its rate says; the wait is reckoned in doubles too, and is then the
/// longer one.
pub open spec fn wait_for(params: BucketParams, remaining: int) -> u64 {
    if remaining >= TOKEN_COST {
        1
    } else {
        let missing = nearest(TOKEN_COST as nat + ceiling(nearest((-remaining) as nat)));
        let secs = ceiling(quotient(missing, refill_rate(params)));
        if secs <= u64::MAX {
            secs as u64
        } else {
            u64::MAX
        }
    }
}

/// Computes [`wait_for`].
pub fn wait_secs(params: &BucketParams, remaining: i64) -> (secs: u64)
    requires
        params.wf(),
    ensures
        secs == wait_for(*params, remaining as int),
        secs >= 1,
{
    if remaining >= TOKEN_COST as i64 {
        return 1;
    }
    let below: u64 = (-(remaining as i128)) as u64;
    let missing: u64 = if below == 0 {
        proof {
            lemma_nothing_below_zero();
        }
        TOKEN_COST
    } else {
        proof {
            lemma_nearest_bound(below as nat);
        }
        TOKEN_COST + round_up(nearest_double(below))
    };
    let slowest = Double { mant: SIGNIFICAND, exp: -104 };
    let rate = if params.refill_tokens == 0 {
        slowest
    } else {
        let rate = divide(nearest_double(params.refill_tokens), nearest_double(params.refill_secs));
        proof {
            lemma_quotient_normal(
                nearest(params.refill_tokens as nat),
                nearest(params.refill_secs as nat),
            );
        }
        if rate.exp < -104 {
            slowest
        } else {
            rate
        }
    };
    let owed = nearest_double(missing);
    proof {
        lemma_quotient_normal(owed@, rate@);
    }
    round_up(divide(owed, rate))
}

/// Nothing is nothing as a double as well.
pub proof fn lemma_nothing_below_zero()
    ensures
        ceiling(nearest(0)) == 0,
{
    let unit = pow2(53) as int;
    lemma_pow2_pos(53);
    assert(bits(0) == 0);
    assert(nearest(0).mant == 0) by (nonlinear_arith)
        requires
            nearest(0).mant == 0 * pow2(53),
    ;
    lemma_fundamental_div_mod_converse(unit - 1, unit, 0, unit - 1);
}

/// The counter value that a reply stands for: the tokens of its capacity that
/// are spent. It is one after the first request on a full bucket, and the
/// capacity where nothing is left.
pub open spec fn spent(reply: BucketReply) -> u64 {
    if reply.remaining <= 0 {
        reply.capacity
    } else if reply.remaining >= reply.capacity {
        0
    } else {
        (reply.capacity - reply.remaining) as u64
    }
}

/// The result that a reply of a bucket with these parameters stands for. Where
/// the request is allowed, the window resets once the spent tokens have flowed
/// back; where it is denied, once a token is available.
pub open spec fn result_of(params: BucketParams, reply: BucketReply) -> RateLimitResult {
    RateLimitResult {
        allowed: reply.allowed == 1,
        current: spent(reply),
        limit: reply.capacity,
        reset_in_secs: if reply.allowed == 1 {
            secs_to_gain(params, reply.capacity - reply.remaining)
        } else {
            wait_for(params, reply.remaining as int)
        },
    }
}

/// Turns a reply into the result of the check: the tokens spent as counter, the
/// capacity as limit, and the seconds until the spent tokens have flowed back,
/// or, for a denied request, until there is a token.
pub fn interpret_reply(params: &BucketParams, reply: &BucketReply) -> (result: RateLimitResult)
    requires
        params.wf(),
    ensures
        result == result_of(*params, *reply),
        result.reset_in_secs >= 1,
{
    let current: u64 = if reply.remaining <= 0 {
        reply.capacity
    } else if reply.remaining as u64 >= reply.capacity {
        0
    } else {
        reply.capacity - reply.remaining as u64
    };
    proof {
        lemma_gain_takes_a_second(*params, reply.capacity - reply.remaining);
    }
    if reply.allowed == 1 {
        let reset_in_secs = gain_secs(params, reply.capacity as i128 - reply.remaining as i128);
        RateLimitResult::allowed(current, reply.capacity, reset_in_secs)
    } else {
        RateLimitResult::denied(current, reply.capacity, wait_secs(params, reply.remaining))
    }
}

/// No number of tokens flows in sooner than a second.
pub proof fn lemma_gain_takes_a_second(params: BucketParams, tokens: int)
    requires
        params.wf(),
    ensures
        secs_to_gain(params, tokens) >= 1,
{
    if tokens > 0 && params.refill_secs <= params.refill_tokens * SLOWEST_SECS_PER_TOKEN {
        let needed = tokens * params.refill_secs;
        let rate = params.refill_tokens as int;
        assert(needed >= 1) by (nonlinear_arith)
            requires
                needed == tokens * params.refill_secs,
                tokens >= 1,
                params.refill_secs >= 1,
        ;
        assert((needed + rate - 1) / rate >= 1) by (nonlinear_arith)
            requires
                needed >= 1,
                rate >= 1,
        ;
    }
}

/// How a run of the script failed; the text is the store's own.
#[derive(Debug, Clone, PartialEq, Eq)]
pub enum StoreFailure {
    /// No connection could be had from the pool.
    Pool(String),
    /// The script did not run, or its reply could not be read.
    Script(String),
}

impl StoreFailure {
    /// The message that reports this failure.
    pub open spec fn message(self) -> Seq<char> {
        match self {
            StoreFailure::Pool(text) => "Redis pool: "@ + text@,
            StoreFailure::Script(text) => "Redis token bucket script: "@ + text@,
        }
    }

    /// The error that reports this failure.
    pub fn to_error(&self) -> (error: AuthError)
        ensures
            error matches AuthError::Internal(text) && text@ == self.message(),
    {
        match self {
            StoreFailure::Pool(text) => {
                let mut message = "Redis pool: ".to_owned();
                message.append(text.as_str());
                AuthError::Internal(message)
            },
            StoreFailure::Script(text) => {
                let mut message = "Redis token bucket script: ".to_owned();
                message.append(text.as_str());
                AuthError::Internal(message)
            },
        }
    }
}

/// Concludes a check once the script has run, or has failed to.
pub fn conclude(params: &BucketParams, outcome: &Result<BucketReply, StoreFailure>) -> (result:
    Result<RateLimitResult, AuthError>)
    requires
        params.wf(),
    ensures
        match *outcome {
            Ok(reply) => result == Ok::<RateLimitResult, AuthError>(result_of(*params, reply)),
            Err(failure) => result matches Err(AuthError::Internal(text)) && text@
                == failure.message(),
        },
{
    match outcome {
        Ok(reply) => Ok(interpret_reply(params, reply)),
        Err(failure) => Err(failure.to_error()),
    }
}

} // verus!
