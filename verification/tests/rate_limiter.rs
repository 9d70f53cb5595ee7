use std::collections::HashMap;

use buzz_rate_limit::rate_limit::{
    ip_rate_limit_key, rate_limit_key, AuthError, LimitType, RateLimitResult,
};
use buzz_rate_limit::rate_limiter::{
    bucket_params, conclude, interpret_reply, ip_call, pubkey_call, token_bucket, wait_secs,
    BucketCall, BucketParams, BucketReply, BucketState, StoreFailure, NANOS_PER_SEC,
    SLOWEST_SECS_PER_TOKEN, TOKEN_BUCKET_SCRIPT, TOKEN_COST,
};
use buzz_rate_limit::tenant::{CommunityId, PublicKey, TenantContext};
use uuid::Uuid;

const START: u64 = 1_700_000_000 * NANOS_PER_SEC;

/// A store of buckets, with a clock that the test moves.
struct MemoryStore {
    now: u64,
    buckets: HashMap<String, BucketState>,
}

impl MemoryStore {
    fn new() -> Self {
        MemoryStore { now: START, buckets: HashMap::new() }
    }

    fn run(&mut self, call: &BucketCall) -> RateLimitResult {
        let state = self.buckets.get(&call.key).copied();
        let (kept, reply) = token_bucket(state, &call.params, self.now);
        self.buckets.insert(call.key.clone(), kept);
        conclude(&call.params, &Ok(reply)).expect("reply")
    }

    fn check_and_increment(
        &mut self,
        ctx: &TenantContext,
        pubkey: &PublicKey,
        limit_type: LimitType,
        window_secs: u64,
        limit: u64,
    ) -> RateLimitResult {
        self.run(&pubkey_call(ctx, pubkey, limit_type, window_secs, limit))
    }

    fn check_ip_connection(&mut self, ip: &str, window_secs: u64, limit: u64) -> RateLimitResult {
        self.run(&ip_call(ip, window_secs, limit))
    }
}

fn fresh_ctx() -> TenantContext {
    let host = format!("rate-test-{}.example", Uuid::new_v4().simple());
    TenantContext::resolved(CommunityId::from_bytes(*Uuid::new_v4().as_bytes()), &host)
}

fn generate_key() -> PublicKey {
    PublicKey::from_bytes(nostr::Keys::generate().public_key().to_bytes())
}

#[test]
fn consumes_tokens_until_denied() {
    let mut limiter = MemoryStore::new();
    let ctx = fresh_ctx();
    let pk = generate_key();

    let results = [
        limiter.check_and_increment(&ctx, &pk, LimitType::Messages, 60, 3),
        limiter.check_and_increment(&ctx, &pk, LimitType::Messages, 60, 3),
        limiter.check_and_increment(&ctx, &pk, LimitType::Messages, 60, 3),
        limiter.check_and_increment(&ctx, &pk, LimitType::Messages, 60, 3),
    ];
    assert!(results[0].allowed, "first must be allowed");
    assert!(results[1].allowed, "second must be allowed");
    assert!(results[2].allowed, "third must be allowed");
    assert!(!results[3].allowed, "fourth must be denied");
    assert!(results[3].reset_in_secs >= 1, "denied must report retry-in");
    assert_eq!(results[0], RateLimitResult::allowed(1, 3, 20));
    assert_eq!(results[1], RateLimitResult::allowed(2, 3, 40));
    assert_eq!(results[2], RateLimitResult::allowed(3, 3, 60));
    assert_eq!(results[3], RateLimitResult::denied(3, 3, 20));
}

#[test]
fn refills_tokens_over_time() {
    let mut limiter = MemoryStore::new();
    let ctx = fresh_ctx();
    let pk = generate_key();

    let first = limiter.check_and_increment(&ctx, &pk, LimitType::ApiCalls, 1, 1);
    assert!(first.allowed, "first must be allowed");

    let second = limiter.check_and_increment(&ctx, &pk, LimitType::ApiCalls, 1, 1);
    assert!(!second.allowed, "second must be denied (bucket empty)");

    limiter.now += 1100 * (NANOS_PER_SEC / 1000);

    let third = limiter.check_and_increment(&ctx, &pk, LimitType::ApiCalls, 1, 1);
    assert!(third.allowed, "third must be allowed after refill");
}

#[test]
fn quotas_are_isolated_per_community() {
    let mut limiter = MemoryStore::new();
    let ctx_a = fresh_ctx();
    let ctx_b = fresh_ctx();
    let pk = generate_key();

    // Exhaust the quota in community A (limit 1) ...
    let a1 = limiter.check_and_increment(&ctx_a, &pk, LimitType::Messages, 60, 1);
    let a2 = limiter.check_and_increment(&ctx_a, &pk, LimitType::Messages, 60, 1);
    assert!(a1.allowed);
    assert!(!a2.allowed, "A quota must be exhausted");

    // ... while community B has an independent quota.
    let b1 = limiter.check_and_increment(&ctx_b, &pk, LimitType::Messages, 60, 1);
    assert!(b1.allowed, "B must have an independent quota");
}

#[test]
fn ip_connections_are_operator_global() {
    let mut limiter = MemoryStore::new();
    let ip = "203.0.113.7";

    let first = limiter.check_ip_connection(ip, 60, 1);
    let second = limiter.check_ip_connection(ip, 60, 1);
    assert!(first.allowed);
    assert!(
        !second.allowed,
        "IP quota (operator-global) must be exhausted"
    );

    // A pubkey's connections are counted elsewhere.
    let other = limiter.check_and_increment(
        &fresh_ctx(),
        &generate_key(),
        LimitType::IpConnections,
        60,
        1,
    );
    assert!(other.allowed);
}

#[test]
fn params_follow_limit_and_window() {
    assert_eq!(
        bucket_params(60, 3),
        BucketParams { capacity: 3, refill_tokens: 3, refill_secs: 60, ttl_secs: 180 }
    );
    // A window of zero refills over one second.
    assert_eq!(
        bucket_params(0, 5),
        BucketParams { capacity: 5, refill_tokens: 5, refill_secs: 1, ttl_secs: 60 }
    );
    assert_eq!(bucket_params(u64::MAX, 1).ttl_secs, u64::MAX);
    assert_eq!(bucket_params(u64::MAX / 2 - 29, 1).ttl_secs, u64::MAX);
    assert_eq!(bucket_params(u64::MAX / 2 - 30, 1).ttl_secs, u64::MAX - 1);
    assert_eq!(TOKEN_COST, 1);
}

#[test]
fn calls_name_key_and_bucket() {
    let ctx = fresh_ctx();
    let pk = generate_key();
    let call = pubkey_call(&ctx, &pk, LimitType::WsEvents, 1, 10);
    assert_eq!(call.key, rate_limit_key(&ctx, &pk, &LimitType::WsEvents));
    assert_eq!(call.params, bucket_params(1, 10));
    let call = ip_call("::1", 60, 4);
    assert_eq!(call.key, ip_rate_limit_key("::1"));
    assert_eq!(call.key, "buzz:ratelimit:ip:::1:conn");
    assert_eq!(call.params, bucket_params(60, 4));
}

#[test]
fn waits_are_rounded_up() {
    let wait = |window: u64, limit: u64, remaining: i64| {
        wait_secs(&bucket_params(window, limit), remaining)
    };
    assert_eq!(wait(60, 3, 0), 20);
    assert_eq!(wait(60, 7, 0), 9);
    assert_eq!(wait(60, 600, 0), 1);
    // One over one forty-ninth is just above forty-nine in double precision.
    assert_eq!(wait(49, 1, 0), 50);
    assert_eq!(wait(196, 4, 0), 50);
    assert_eq!(wait(50, 1, 0), 50);
    assert_eq!(wait(60, 3, -2), 60);
    assert_eq!(wait(60, 3, 1), 1);
    assert_eq!(wait(60, 3, i64::MAX), 1);
    // A bucket that never refills, or hardly does, reports the slowest wait.
    assert_eq!(wait(60, 0, 0), SLOWEST_SECS_PER_TOKEN);
    assert_eq!(wait(u64::MAX, 1, 0), SLOWEST_SECS_PER_TOKEN);
    assert_eq!(wait(SLOWEST_SECS_PER_TOKEN, 1, 0), SLOWEST_SECS_PER_TOKEN);
    assert_eq!(wait(SLOWEST_SECS_PER_TOKEN + 1, 1, 0), SLOWEST_SECS_PER_TOKEN);
    assert_eq!(SLOWEST_SECS_PER_TOKEN as f64, 1.0 / f64::EPSILON);
    assert_eq!(wait(60, 0, i64::MIN), u64::MAX);
    assert_eq!(wait(SLOWEST_SECS_PER_TOKEN, 1, i64::MIN), u64::MAX);
}

/// The wait in floating point.
fn float_wait(window: u64, limit: u64, remaining: i64) -> u64 {
    let refill = limit as f64 / window.max(1) as f64;
    let wait = (TOKEN_COST as f64 - remaining as f64) / refill.max(f64::EPSILON);
    wait.ceil().max(1.0) as u64
}

#[test]
fn waits_round_as_doubles_do() {
    for window in 0..300 {
        for limit in 0..300 {
            for remaining in -2..2 {
                assert_eq!(
                    wait_secs(&bucket_params(window, limit), remaining),
                    float_wait(window, limit, remaining),
                    "window {window}, limit {limit}, remaining {remaining}"
                );
            }
        }
    }
}

#[test]
fn waits_round_as_doubles_do_at_any_size() {
    // A fixed stream of numbers, each cut to some number of bits.
    let mut state: u64 = 0x9e37_79b9_7f4a_7c15;
    let mut next = || {
        state ^= state << 13;
        state ^= state >> 7;
        state ^= state << 17;
        let bits = (state >> 3) % 64;
        state.wrapping_mul(0x2545_f491_4f6c_dd1d) >> bits
    };
    for _ in 0..200_000 {
        let (window, limit, below) = (next(), next(), next());
        let remaining = -((below >> 1) as i64);
        assert_eq!(
            wait_secs(&bucket_params(window, limit), remaining),
            float_wait(window, limit, remaining),
            "window {window}, limit {limit}, remaining {remaining}"
        );
    }
    let edges = [
        0,
        1,
        2,
        3,
        (1 << 52) - 1,
        1 << 52,
        (1 << 52) + 1,
        (1 << 53) - 1,
        1 << 53,
        (1 << 53) + 1,
        (1 << 53) + 2,
        (1 << 53) + 3,
        (1 << 54) + 2,
        (1 << 54) + 6,
        1 << 63,
        u64::MAX - 1024,
        u64::MAX - 1023,
        u64::MAX,
    ];
    for window in edges {
        for limit in edges {
            for below in edges {
                for remaining in [-((below >> 1) as i64), (below >> 1) as i64, i64::MIN] {
                    assert_eq!(
                        wait_secs(&bucket_params(window, limit), remaining),
                        float_wait(window, limit, remaining),
                        "window {window}, limit {limit}, remaining {remaining}"
                    );
                }
            }
        }
    }
}

#[test]
fn replies_are_interpreted() {
    let params = bucket_params(60, 3);
    let reply = |allowed: u64, remaining: i64| BucketReply { allowed, remaining, capacity: 3 };
    // The counter is what is spent; the window resets once that has flowed back.
    assert_eq!(interpret_reply(&params, &reply(1, 2)), RateLimitResult::allowed(1, 3, 20));
    assert_eq!(interpret_reply(&params, &reply(1, 0)), RateLimitResult::allowed(3, 3, 60));
    // A denied request waits for one token.
    assert_eq!(interpret_reply(&params, &reply(0, 0)), RateLimitResult::denied(3, 3, 20));
    // Tokens below zero are to be made up for, and only a one allows.
    assert_eq!(interpret_reply(&params, &reply(0, -1)), RateLimitResult::denied(3, 3, 40));
    assert_eq!(interpret_reply(&params, &reply(1, -1)), RateLimitResult::allowed(3, 3, 80));
    assert_eq!(interpret_reply(&params, &reply(2, 2)), RateLimitResult::denied(1, 3, 1));
    // Nothing spent still takes a second.
    assert_eq!(interpret_reply(&params, &reply(1, 3)), RateLimitResult::allowed(0, 3, 1));
    assert_eq!(interpret_reply(&params, &reply(1, 4)), RateLimitResult::allowed(0, 3, 1));
    // The limit is the one that the bucket reports.
    let other = BucketReply { allowed: 1, remaining: 8, capacity: 9 };
    assert_eq!(interpret_reply(&params, &other), RateLimitResult::allowed(1, 9, 20));
    // The first request of a limit of five per minute.
    let first = BucketReply { allowed: 1, remaining: 4, capacity: 5 };
    assert_eq!(
        interpret_reply(&bucket_params(60, 5), &first),
        RateLimitResult::allowed(1, 5, 12)
    );
    // Times too long for their number are the largest one.
    let widest = BucketReply { allowed: 1, remaining: i64::MIN, capacity: u64::MAX };
    assert_eq!(
        interpret_reply(&bucket_params(u64::MAX, SLOWEST_SECS_PER_TOKEN), &widest),
        RateLimitResult::allowed(u64::MAX, u64::MAX, u64::MAX)
    );
    let never = BucketReply { allowed: 1, remaining: 1, capacity: 3 };
    assert_eq!(
        interpret_reply(&bucket_params(60, 0), &never),
        RateLimitResult::allowed(2, 3, 2 * SLOWEST_SECS_PER_TOKEN)
    );
}

#[test]
fn failures_become_internal_errors() {
    let params = bucket_params(60, 3);
    assert_eq!(
        conclude(&params, &Err(StoreFailure::Pool("timed out".to_string()))),
        Err(AuthError::Internal("Redis pool: timed out".to_string()))
    );
    assert_eq!(
        conclude(&params, &Err(StoreFailure::Script("NOSCRIPT".to_string()))),
        Err(AuthError::Internal("Redis token bucket script: NOSCRIPT".to_string()))
    );
    let reply = BucketReply { allowed: 1, remaining: 2, capacity: 3 };
    assert_eq!(conclude(&params, &Ok(reply)), Ok(RateLimitResult::allowed(1, 3, 20)));
}

#[test]
fn bucket_keeps_fractions_exactly() {
    let params = bucket_params(60, 7);
    let empty = BucketState { whole: 0, part: 0, rest: 0, per: 60_000_000_000, last: START };
    // One second brings seven sixtieths of a token.
    let (kept, reply) = token_bucket(Some(empty), &params, START + NANOS_PER_SEC);
    assert_eq!(reply, BucketReply { allowed: 0, remaining: 0, capacity: 7 });
    assert_eq!(
        kept,
        BucketState {
            whole: 0,
            part: 116_666_666_666_666_666,
            rest: 40_000_000_000,
            per: 60_000_000_000,
            last: START + NANOS_PER_SEC
        }
    );
    // Polling every second loses nothing: the ninth one brings the token.
    let mut state = empty;
    for second in 1..9 {
        let (next, reply) = token_bucket(Some(state), &params, START + second * NANOS_PER_SEC);
        assert_eq!(reply.allowed, 0);
        state = next;
    }
    let (kept, reply) = token_bucket(Some(state), &params, START + 9 * NANOS_PER_SEC);
    assert_eq!(reply.allowed, 1);
    assert_eq!((kept.whole, kept.part, kept.rest), (0, 50_000_000_000_000_000, 0));
}

#[test]
fn bucket_never_holds_more_than_its_capacity() {
    let params = bucket_params(60, 3);
    let (kept, reply) = token_bucket(None, &params, START);
    assert_eq!(reply, BucketReply { allowed: 1, remaining: 2, capacity: 3 });
    let (_, reply) = token_bucket(Some(kept), &params, u64::MAX);
    assert_eq!(reply, BucketReply { allowed: 1, remaining: 2, capacity: 3 });
    // A lowered limit takes tokens away.
    let smaller = bucket_params(60, 1);
    let (_, reply) = token_bucket(Some(kept), &smaller, START);
    assert_eq!(reply, BucketReply { allowed: 1, remaining: 0, capacity: 1 });
}

#[test]
fn clock_that_goes_back_brings_nothing() {
    let params = bucket_params(1, 1);
    let (kept, reply) = token_bucket(None, &params, START);
    assert_eq!(reply.allowed, 1);
    let (kept, reply) = token_bucket(Some(kept), &params, START - NANOS_PER_SEC);
    assert_eq!(reply.allowed, 0);
    assert_eq!(kept.last, START - NANOS_PER_SEC);
}

#[test]
fn tokens_survive_a_change_of_window() {
    // Parts of a token are parts of a token under any window.
    let part = 123_456_789_012_000_000;
    let kept_parts = BucketState { whole: 2, part, rest: 0, per: 1_000_000_000, last: START };
    let (kept, reply) = token_bucket(Some(kept_parts), &bucket_params(60, 10), START);
    assert_eq!(reply, BucketReply { allowed: 1, remaining: 1, capacity: 10 });
    assert_eq!((kept.whole, kept.part, kept.rest, kept.per), (1, part, 0, 60_000_000_000));
    // What is less than a part is counted anew: a third of one in billionths.
    let third = BucketState { whole: 0, part: 5, rest: 1, per: 3, last: START };
    let (kept, _) = token_bucket(Some(third), &bucket_params(1, 10), START);
    assert_eq!((kept.whole, kept.part, kept.rest), (0, 5, 333_333_333));
    let half = BucketState { whole: 0, part: 5, rest: 1, per: 2, last: START };
    let (kept, _) = token_bucket(Some(half), &bucket_params(u64::MAX, u64::MAX), START);
    let per = u64::MAX as u128 * 1_000_000_000;
    assert_eq!((kept.whole, kept.part, kept.rest, kept.per), (0, 5, per / 2, per));
}

#[test]
fn no_more_than_limit_and_refill_across_a_boundary() {
    let params = bucket_params(60, 60);
    let mut state = None;
    let mut allowed = 0;
    // Ten requests a second for a minute, after an idle hour.
    for tenth in 0..600 {
        let now = START + 3600 * NANOS_PER_SEC + tenth * (NANOS_PER_SEC / 10);
        let (next, reply) = token_bucket(state, &params, now);
        state = Some(next);
        allowed += reply.allowed;
    }
    assert_eq!(allowed, 60 + 59);
}

#[test]
fn reported_wait_is_enough() {
    let params = bucket_params(60, 7);
    let mut state = None;
    for _ in 0..7 {
        let (next, reply) = token_bucket(state, &params, START);
        assert_eq!(reply.allowed, 1);
        state = Some(next);
    }
    let (kept, reply) = token_bucket(state, &params, START);
    let result = interpret_reply(&params, &reply);
    assert_eq!(result, RateLimitResult::denied(7, 7, 9));
    let early = START + (result.reset_in_secs - 1) * NANOS_PER_SEC;
    assert_eq!(token_bucket(Some(kept), &params, early).1.allowed, 0);
    let late = START + result.reset_in_secs * NANOS_PER_SEC;
    assert_eq!(token_bucket(Some(kept), &params, late).1.allowed, 1);
}

#[test]
fn bursts_on_a_store_are_bounded() {
    let mut limiter = MemoryStore::new();
    let (ctx_a, ctx_b) = (fresh_ctx(), fresh_ctx());
    let pk = generate_key();
    let mut allowed = 0;
    // Two communities take turns, ten requests a second each for ten seconds.
    for _ in 0..100 {
        let a = limiter.check_and_increment(&ctx_a, &pk, LimitType::Messages, 10, 20);
        limiter.check_and_increment(&ctx_b, &pk, LimitType::Messages, 10, 20);
        allowed += a.allowed as u64;
        limiter.now += NANOS_PER_SEC / 10;
    }
    // Twenty at once, and two a second for nine seconds and nine tenths.
    assert_eq!(allowed, 20 + 19);
}

#[test]
fn reported_reset_fills_the_bucket() {
    let params = bucket_params(60, 7);
    let mut state = None;
    for _ in 0..3 {
        state = Some(token_bucket(state, &params, START).0);
    }
    let (kept, reply) = token_bucket(state, &params, START);
    let result = interpret_reply(&params, &reply);
    // Four of seven are spent: thirty-four seconds and two sevenths.
    assert_eq!(result, RateLimitResult::allowed(4, 7, 35));
    let early = START + (result.reset_in_secs - 1) * NANOS_PER_SEC;
    assert_eq!(token_bucket(Some(kept), &params, early).1.remaining, 5);
    let late = START + result.reset_in_secs * NANOS_PER_SEC;
    assert_eq!(token_bucket(Some(kept), &params, late), token_bucket(None, &params, late));
}

#[test]
fn idle_bucket_is_as_fresh_after_a_window() {
    let params = bucket_params(60, 3);
    let empty = BucketState { whole: 0, part: 0, rest: 0, per: 60_000_000_000, last: START };
    let now = START + 60 * NANOS_PER_SEC;
    assert_eq!(token_bucket(Some(empty), &params, now), token_bucket(None, &params, now));
    assert_ne!(token_bucket(Some(empty), &params, now - 1), token_bucket(None, &params, now - 1));
    // The store forgets a bucket later than that.
    assert!(params.ttl_secs >= 60);
}

#[test]
fn limit_of_zero_denies() {
    let params = bucket_params(60, 0);
    let (kept, reply) = token_bucket(None, &params, START);
    assert_eq!(reply, BucketReply { allowed: 0, remaining: 0, capacity: 0 });
    assert_eq!(token_bucket(Some(kept), &params, u64::MAX).1.allowed, 0);
}

#[test]
fn remaining_is_held_in_a_signed_integer() {
    let params = bucket_params(1, u64::MAX);
    let (kept, reply) = token_bucket(None, &params, START);
    assert_eq!(kept.whole, u64::MAX - 1);
    assert_eq!(reply, BucketReply { allowed: 1, remaining: i64::MAX, capacity: u64::MAX });
}

#[test]
fn script_works_on_one_key_with_five_arguments() {
    assert!(TOKEN_BUCKET_SCRIPT.contains("KEYS[1]"));
    assert!(!TOKEN_BUCKET_SCRIPT.contains("KEYS[2]"));
    assert!(TOKEN_BUCKET_SCRIPT.contains("redis.call('EXPIRE', KEYS[1], tonumber(ARGV[5]))"));
    assert!(!TOKEN_BUCKET_SCRIPT.contains("ARGV[6]"));
    assert!(TOKEN_BUCKET_SCRIPT.ends_with("return {allowed, tokens, tonumber(ARGV[1])}\n"));
}
