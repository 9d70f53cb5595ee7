//! Rate limiting types: outcomes, operation categories, tier thresholds, and
//! the store keys that counters live under.

use vstd::prelude::*;

use crate::hex::lower_hex;
use crate::promises::{law_tiers_are_spelled_out, spelled};
use crate::tenant::{uuid_text, PublicKey, TenantContext};

verus! {

/// The outcome of a rate-limit check, including counter state for response headers.
#[derive(Debug, Clone, Copy, PartialEq, Eq, Structural)]
pub struct RateLimitResult {
    /// Whether the request is permitted (`true`) or should be rejected (`false`).
    pub allowed: bool,
    /// Current counter value after this increment.
    pub current: u64,
    /// The configured limit for this window.
    pub limit: u64,
    /// Seconds until the current window resets.
    pub reset_in_secs: u64,
}

impl RateLimitResult {
    /// Construct an **allowed** result.
    pub fn allowed(current: u64, limit: u64, reset_in_secs: u64) -> (result: Self)
        ensures
            result == (RateLimitResult { allowed: true, current, limit, reset_in_secs }),
    {
        RateLimitResult { allowed: true, current, limit, reset_in_secs }
    }

    /// Construct a **denied** result.
    pub fn denied(current: u64, limit: u64, reset_in_secs: u64) -> (result: Self)
        ensures
            result == (RateLimitResult { allowed: false, current, limit, reset_in_secs }),
    {
        RateLimitResult { allowed: false, current, limit, reset_in_secs }
    }
}

/// Why a rate-limit check could not be made.
#[derive(Debug, Clone, PartialEq, Eq)]
pub enum AuthError {
    /// The counter store failed; the text says how.
    Internal(String),
}

/// The category of operation being rate-limited.
///
/// Each variant has a key suffix of its own, so limits are tracked
/// independently per operation type.
#[derive(Debug, Clone, Copy, PartialEq, Eq, Hash, Structural)]
pub enum LimitType {
    /// Nostr message events sent via WebSocket.
    Messages,
    /// HTTP REST API calls.
    ApiCalls,
    /// All WebSocket events (broader than `Messages`).
    WsEvents,
    /// Concurrent WebSocket connections from a single IP address.
    IpConnections,
}

impl LimitType {
    /// The suffix of this category, as a sequence of characters.
    pub open spec fn suffix(self) -> Seq<char> {
        match self {
            LimitType::Messages => "msg"@,
            LimitType::ApiCalls => "api"@,
            LimitType::WsEvents => "ws"@,
            LimitType::IpConnections => "conn"@,
        }
    }

    /// Short suffix used in key construction (e.g. `"msg"`, `"api"`).
    pub fn key_suffix(&self) -> (suffix: &'static str)
        ensures
            suffix@ == self.suffix(),
    {
        match self {
            LimitType::Messages => "msg",
            LimitType::ApiCalls => "api",
            LimitType::WsEvents => "ws",
            LimitType::IpConnections => "conn",
        }
    }
}

/// Per-tier rate limit thresholds.
///
/// All values are counts per the relevant time window (per-minute or per-second).
#[derive(Debug, Clone)]
pub struct RateLimitConfig {
    /// Maximum messages per minute for human users. Default: 60.
    pub human_messages_per_min: u64,
    /// Maximum HTTP API calls per minute for human users. Default: 300.
    pub human_api_calls_per_min: u64,
    /// Maximum WebSocket events per second for human users. Default: 10.
    pub human_ws_events_per_sec: u64,
    /// Maximum messages per minute for standard-tier agent tokens. Default: 120.
    pub agent_standard_messages_per_min: u64,
    /// Maximum HTTP API calls per minute for standard-tier agent tokens. Default: 600.
    pub agent_standard_api_calls_per_min: u64,
    /// Maximum messages per minute for elevated-tier agent tokens. Default: 300.
    pub agent_elevated_messages_per_min: u64,
    /// Maximum messages per minute for platform-tier agent tokens. Default: 600.
    pub agent_platform_messages_per_min: u64,
    /// Hex pubkeys of agents granted the **elevated** message tier. Empty by
    /// default (no agent is elevated until an operator lists one).
    pub elevated_pubkeys: Vec<String>,
    /// Hex pubkeys of agents granted the **platform** message tier. Empty by
    /// default. A pubkey listed in both allowlists resolves to platform.
    pub platform_pubkeys: Vec<String>,
}

/// Default of `human_messages_per_min`.
pub fn default_human_msg() -> (n: u64)
    ensures
        n == 60,
{
    60
}

/// Default of `human_api_calls_per_min`.
pub fn default_human_api() -> (n: u64)
    ensures
        n == 300,
{
    300
}

/// Default of `human_ws_events_per_sec`.
pub fn default_human_ws() -> (n: u64)
    ensures
        n == 10,
{
    10
}

/// Default of `agent_standard_messages_per_min`.
pub fn default_agent_std_msg() -> (n: u64)
    ensures
        n == 120,
{
    120
}

/// Default of `agent_standard_api_calls_per_min`.
pub fn default_agent_std_api() -> (n: u64)
    ensures
        n == 600,
{
    600
}

/// Default of `agent_elevated_messages_per_min`.
pub fn default_agent_elev_msg() -> (n: u64)
    ensures
        n == 300,
{
    300
}

/// Default of `agent_platform_messages_per_min`.
pub fn default_agent_plat_msg() -> (n: u64)
    ensures
        n == 600,
{
    600
}

impl Default for RateLimitConfig {
    fn default() -> (limits: Self)
        ensures
            limits.human_messages_per_min == 60,
            limits.human_api_calls_per_min == 300,
            limits.human_ws_events_per_sec == 10,
            limits.agent_standard_messages_per_min == 120,
            limits.agent_standard_api_calls_per_min == 600,
            limits.agent_elevated_messages_per_min == 300,
            limits.agent_platform_messages_per_min == 600,
            limits.elevated_pubkeys@ == Seq::<String>::empty(),
            limits.platform_pubkeys@ == Seq::<String>::empty(),
    {
        RateLimitConfig {
            human_messages_per_min: default_human_msg(),
            human_api_calls_per_min: default_human_api(),
            human_ws_events_per_sec: default_human_ws(),
            agent_standard_messages_per_min: default_agent_std_msg(),
            agent_standard_api_calls_per_min: default_agent_std_api(),
            agent_elevated_messages_per_min: default_agent_elev_msg(),
            agent_platform_messages_per_min: default_agent_plat_msg(),
            elevated_pubkeys: Vec::new(),
            platform_pubkeys: Vec::new(),
        }
    }
}

/// The agent tier a principal is rate-limited as.
///
/// Resolution is a pure function of the config's operator-provided
/// elevated/platform pubkey allowlists. See [`resolve_tier`].
#[derive(Debug, Clone, Copy, PartialEq, Eq, Structural)]
pub enum AgentTier {
    /// Human (non-agent) principal.
    Human,
    /// Agent not present in either operator allowlist.
    Standard,
    /// Agent listed in the operator's elevated allowlist.
    Elevated,
    /// Agent listed in the operator's platform allowlist.
    Platform,
}

/// A character with `A` to `Z` mapped to `a` to `z`.
pub open spec fn ascii_lower(c: char) -> char {
    if 'A' <= c <= 'Z' {
        (c as int + 32) as char
    } else {
        c
    }
}

/// Whether two texts are equal up to the case of ASCII letters.
pub open spec fn same_ignoring_case(a: Seq<char>, b: Seq<char>) -> bool {
    &&& a.len() == b.len()
    &&& forall|i: int| 0 <= i < a.len() ==> ascii_lower(#[trigger] a[i]) == ascii_lower(b[i])
}

/// `str::eq_ignore_ascii_case`: an ASCII case-insensitive comparison, true
/// exactly when the two texts are equal once `A` to `Z` are mapped to `a` to `z`.
pub assume_specification[ str::eq_ignore_ascii_case ](a: &str, b: &str) -> (same: bool)
    ensures
        same == same_ignoring_case(a@, b@),
;

/// Whether an allowlist holds the given hexadecimal key, in either case.
pub open spec fn listed(allowlist: Seq<String>, hex: Seq<char>) -> bool {
    exists|i: int| 0 <= i < allowlist.len() && same_ignoring_case(#[trigger] allowlist[i]@, hex)
}

/// The tier of a principal with the given hexadecimal key.
pub open spec fn tier_of(limits: RateLimitConfig, hex: Seq<char>, is_agent: bool) -> AgentTier {
    if !is_agent {
        AgentTier::Human
    } else if listed(limits.platform_pubkeys@, hex) {
        AgentTier::Platform
    } else if listed(limits.elevated_pubkeys@, hex) {
        AgentTier::Elevated
    } else {
        AgentTier::Standard
    }
}

/// Whether `allowlist` holds `hex`, ignoring case.
fn is_listed(allowlist: &Vec<String>, hex: &str) -> (found: bool)
    ensures
        found == listed(allowlist@, hex@),
{
    let mut i: usize = 0;
    while i < allowlist.len()
        invariant
            i <= allowlist.len(),
            forall|j: int| 0 <= j < i ==> !same_ignoring_case(#[trigger] allowlist@[j]@, hex@),
        decreases allowlist.len() - i,
    {
        if allowlist[i].as_str().eq_ignore_ascii_case(hex) {
            return true;
        }
        i += 1;
    }
    false
}

/// Resolve the rate-limit tier for a principal.
///
/// `is_agent` is the agent determination; the operator's elevated/platform
/// pubkey allowlists lift an agent into a higher tier. Platform wins over
/// elevated when a pubkey is listed in both.
pub fn resolve_tier(limits: &RateLimitConfig, pubkey: &PublicKey, is_agent: bool) -> (tier:
    AgentTier)
    ensures
        tier == tier_of(*limits, lower_hex(pubkey.bytes@), is_agent),
        tier == AgentTier::Human <==> !is_agent,
        tier == AgentTier::Platform <==> is_agent && spelled(
            limits.platform_pubkeys@,
            pubkey.bytes@,
        ),
        tier == AgentTier::Elevated <==> is_agent && spelled(
            limits.elevated_pubkeys@,
            pubkey.bytes@,
        ) && !spelled(limits.platform_pubkeys@, pubkey.bytes@),
{
    proof {
        law_tiers_are_spelled_out(*limits, pubkey.bytes@, is_agent);
    }
    if !is_agent {
        return AgentTier::Human;
    }
    let hex = pubkey.to_hex();
    if is_listed(&limits.platform_pubkeys, hex.as_str()) {
        AgentTier::Platform
    } else if is_listed(&limits.elevated_pubkeys, hex.as_str()) {
        AgentTier::Elevated
    } else {
        AgentTier::Standard
    }
}

/// The messages per minute that a tier is granted.
pub open spec fn message_limit(limits: RateLimitConfig, tier: AgentTier) -> u64 {
    match tier {
        AgentTier::Human => limits.human_messages_per_min,
        AgentTier::Standard => limits.agent_standard_messages_per_min,
        AgentTier::Elevated => limits.agent_elevated_messages_per_min,
        AgentTier::Platform => limits.agent_platform_messages_per_min,
    }
}

/// The API calls per minute that a tier is granted.
pub open spec fn api_limit(limits: RateLimitConfig, tier: AgentTier) -> u64 {
    if tier == AgentTier::Human {
        limits.human_api_calls_per_min
    } else {
        limits.agent_standard_api_calls_per_min
    }
}

/// The message-per-minute limit for a resolved tier.
pub fn message_limit_for(limits: &RateLimitConfig, tier: AgentTier) -> (limit: u64)
    ensures
        limit == message_limit(*limits, tier),
        limit == match tier {
            AgentTier::Human => limits.human_messages_per_min,
            AgentTier::Standard => limits.agent_standard_messages_per_min,
            AgentTier::Elevated => limits.agent_elevated_messages_per_min,
            AgentTier::Platform => limits.agent_platform_messages_per_min,
        },
{
    match tier {
        AgentTier::Human => limits.human_messages_per_min,
        AgentTier::Standard => limits.agent_standard_messages_per_min,
        AgentTier::Elevated => limits.agent_elevated_messages_per_min,
        AgentTier::Platform => limits.agent_platform_messages_per_min,
    }
}

/// The API-calls-per-minute limit for a resolved tier.
///
/// The config exposes a single agent API tier (`agent_standard_api_calls_per_min`);
/// elevated/platform agents share it.
pub fn api_limit_for(limits: &RateLimitConfig, tier: AgentTier) -> (limit: u64)
    ensures
        limit == api_limit(*limits, tier),
        tier == AgentTier::Human ==> limit == limits.human_api_calls_per_min,
        tier != AgentTier::Human ==> limit == limits.agent_standard_api_calls_per_min,
{
    match tier {
        AgentTier::Human => limits.human_api_calls_per_min,
        AgentTier::Standard | AgentTier::Elevated | AgentTier::Platform => {
            limits.agent_standard_api_calls_per_min
        },
    }
}

/// The text of the key that [`rate_limit_key`] builds.
pub open spec fn rate_limit_key_text(
    community: Seq<u8>,
    pubkey: Seq<u8>,
    limit_type: LimitType,
) -> Seq<char> {
    "buzz:"@ + uuid_text(community) + ":ratelimit:"@ + lower_hex(pubkey)
        + ":"@ + limit_type.suffix()
}

/// Store key for pubkey-based rate limit:
/// `buzz:{community}:ratelimit:{pubkey_hex}:{suffix}`.
///
/// Community-prefixed: the same pubkey in two communities maps to two distinct
/// keys, so quotas don't bleed across the tenancy fence.
pub fn rate_limit_key(ctx: &TenantContext, pubkey: &PublicKey, limit_type: &LimitType) -> (key:
    String)
    ensures
        key@ == rate_limit_key_text(ctx.community.bytes@, pubkey.bytes@, *limit_type),
{
    let mut key = "buzz:".to_owned();
    key.append(ctx.community().to_text().as_str());
    key.append(":ratelimit:");
    key.append(pubkey.to_hex().as_str());
    key.append(":");
    key.append(limit_type.key_suffix());
    key
}

/// The text of the key that [`ip_rate_limit_key`] builds.
pub open spec fn ip_rate_limit_key_text(ip: Seq<char>) -> Seq<char> {
    "buzz:ratelimit:ip:"@ + ip + ":conn"@
}

/// Store key for IP-based rate limit: `buzz:ratelimit:ip:{ip}:conn`, where `ip`
/// is the address as text.
///
/// Operator-global by design: no community is part of it.
pub fn ip_rate_limit_key(ip: &str) -> (key: String)
    ensures
        key@ == ip_rate_limit_key_text(ip@),
{
    let mut key = "buzz:ratelimit:ip:".to_owned();
    key.append(ip);
    key.append(":conn");
    key
}

/// Always-allow rate limiter for unit tests.
pub struct AlwaysAllowRateLimiter;

impl AlwaysAllowRateLimiter {
    /// Allows the request: one counted, the whole window left.
    pub fn check_and_increment(
        &self,
        _ctx: &TenantContext,
        _pubkey: &PublicKey,
        _limit_type: LimitType,
        window_secs: u64,
        limit: u64,
    ) -> (result: Result<RateLimitResult, AuthError>)
        ensures
            result == Ok::<RateLimitResult, AuthError>(
                RateLimitResult { allowed: true, current: 1, limit, reset_in_secs: window_secs },
            ),
    {
        Ok(RateLimitResult::allowed(1, limit, window_secs))
    }

    /// Allows the connection: one counted, the whole window left.
    pub fn check_ip_connection(&self, _ip: &str, window_secs: u64, limit: u64) -> (result: Result<
        RateLimitResult,
        AuthError,
    >)
        ensures
            result == Ok::<RateLimitResult, AuthError>(
                RateLimitResult { allowed: true, current: 1, limit, reset_in_secs: window_secs },
            ),
    {
        Ok(RateLimitResult::allowed(1, limit, window_secs))
    }
}

} // verus!
