# buzz_rate_limit

Rate limiting for a multi-tenant relay, verified with Verus.

- `src/rate_limit.rs`: outcomes, operation categories, tiers and their limits, store keys.
- `src/rate_limiter.rs`: the token bucket. The script that keeps shared buckets in Redis, what goes
  into a run of it and what is made of its reply, and `token_bucket`, which serves a request on a
  bucket in memory.
- `src/double.rs`: the roundings of double-precision numbers that a reported wait goes through.
- `src/tenant.rs`, `src/hex.rs`: communities, public keys and their text.
- `src/laws.rs`: what holds of keys, tiers, buckets and a store of buckets. Of a bucket that
  `token_bucket` serves: bursts are bounded, the average rate is granted, waits and resets suffice. Of
  a store of such buckets: bursts are bounded, quotas are isolated, waits suffice, every bucket has a
  deadline, and forgetting it then changes nothing.
- `app/`: the async interface, its Redis-backed implementation, and the configuration file types.

`token_bucket` counts exactly, so a bucket that is polled often loses nothing to rounding. The Redis
script counts in double precision. A wait that is reported for a denied request is rounded as the
script rounds. The Redis-backed limiter in `app/` runs the script and never calls `token_bucket`: the
laws on buckets are proved of `token_bucket`, not of the script.
