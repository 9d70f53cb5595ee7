use buzz_rate_limit::rate_limit::{
    api_limit_for, default_agent_elev_msg, default_agent_plat_msg, default_agent_std_api,
    default_agent_std_msg, default_human_api, default_human_msg, default_human_ws,
    ip_rate_limit_key, message_limit_for, rate_limit_key, resolve_tier, AgentTier,
    AlwaysAllowRateLimiter, LimitType, RateLimitConfig, RateLimitResult,
};
use buzz_rate_limit::tenant::{CommunityId, PublicKey, TenantContext};
use nostr::Keys;
use sha2::Digest;
use uuid::Uuid;

fn fixture_ctx(host: &str) -> TenantContext {
    // Deterministic community id from host so test assertions can name the prefix.
    let bytes = sha2::Sha256::digest(host.as_bytes());
    let mut uuid_bytes = [0u8; 16];
    uuid_bytes.copy_from_slice(&bytes[..16]);
    let id = CommunityId::from_bytes(*Uuid::from_bytes(uuid_bytes).as_bytes());
    TenantContext::resolved(id, host)
}

fn generate_key() -> PublicKey {
    PublicKey::from_bytes(Keys::generate().public_key().to_bytes())
}

fn counting_key() -> PublicKey {
    let mut bytes = [0u8; 32];
    for (i, byte) in bytes.iter_mut().enumerate() {
        *byte = (i * 8 + 7) as u8;
    }
    PublicKey::from_bytes(bytes)
}

const COUNTING_HEX: &str = "070f171f272f373f474f575f676f777f878f979fa7afb7bfc7cfd7dfe7eff7ff";

#[test]
fn rate_limit_key_includes_community_prefix() {
    let ctx = fixture_ctx("relay-a.example");
    let pubkey = generate_key();
    let key = rate_limit_key(&ctx, &pubkey, &LimitType::Messages);
    let expected_prefix = format!("buzz:{}:ratelimit:", ctx.community().to_text());
    assert!(
        key.starts_with(&expected_prefix),
        "key {key} should start with {expected_prefix}"
    );
    assert!(key.ends_with(":msg"));
}

#[test]
fn rate_limit_key_isolates_communities_for_same_pubkey() {
    // Same pubkey, two communities -> two distinct keys -> independent quotas.
    let pubkey = generate_key();
    let ctx_a = fixture_ctx("relay-a.example");
    let ctx_b = fixture_ctx("relay-b.example");
    let key_a = rate_limit_key(&ctx_a, &pubkey, &LimitType::Messages);
    let key_b = rate_limit_key(&ctx_b, &pubkey, &LimitType::Messages);
    assert_ne!(
        key_a, key_b,
        "same pubkey in two communities must not share a rate-limit key"
    );
}

#[test]
fn rate_limit_key_components_are_lowercase() {
    // If pubkey hex or community text ever held uppercase, the same
    // (community, pubkey) could have two distinct keys and twice the quota.
    let ctx = fixture_ctx("relay-a.example");
    let pubkey = generate_key();
    let key = rate_limit_key(&ctx, &pubkey, &LimitType::Messages);
    for c in key.chars() {
        assert!(
            !c.is_ascii_uppercase(),
            "rate-limit key {key} must be all-lowercase ASCII"
        );
    }
}

#[test]
fn ip_rate_limit_key_format() {
    // IP fence stays operator-global: no community in the key.
    assert_eq!(
        ip_rate_limit_key("192.168.1.1"),
        "buzz:ratelimit:ip:192.168.1.1:conn"
    );
}

#[test]
fn always_allow_limiter() {
    let limiter = AlwaysAllowRateLimiter;
    let ctx = fixture_ctx("relay-a.example");
    let result = limiter
        .check_and_increment(&ctx, &generate_key(), LimitType::Messages, 60, 60)
        .unwrap();
    assert!(result.allowed);
    assert_eq!(result, RateLimitResult::allowed(1, 60, 60));
    let connection = limiter.check_ip_connection("203.0.113.7", 30, 5).unwrap();
    assert_eq!(connection, RateLimitResult::allowed(1, 5, 30));
}

#[test]
fn humans_resolve_to_human_tier_even_when_listed() {
    // A pubkey in the operator allowlists is only elevated when the
    // principal is an agent: a human listing must not grant agent tiers.
    let pubkey = generate_key();
    let limits = RateLimitConfig {
        elevated_pubkeys: vec![pubkey.to_hex()],
        ..RateLimitConfig::default()
    };
    assert_eq!(resolve_tier(&limits, &pubkey, false), AgentTier::Human);
}

#[test]
fn unlisted_agent_is_standard_tier() {
    let pubkey = generate_key();
    let limits = RateLimitConfig::default();
    assert_eq!(resolve_tier(&limits, &pubkey, true), AgentTier::Standard);
}

#[test]
fn elevated_allowlist_lifts_agent() {
    let pubkey = generate_key();
    let limits = RateLimitConfig {
        elevated_pubkeys: vec![pubkey.to_hex()],
        ..RateLimitConfig::default()
    };
    assert_eq!(resolve_tier(&limits, &pubkey, true), AgentTier::Elevated);
}

#[test]
fn platform_allowlist_wins_over_elevated() {
    let pubkey = generate_key();
    let hex = pubkey.to_hex();
    let limits = RateLimitConfig {
        elevated_pubkeys: vec![hex.clone()],
        platform_pubkeys: vec![hex],
        ..RateLimitConfig::default()
    };
    assert_eq!(resolve_tier(&limits, &pubkey, true), AgentTier::Platform);
}

#[test]
fn allowlist_matching_is_case_insensitive() {
    let pubkey = generate_key();
    let limits = RateLimitConfig {
        elevated_pubkeys: vec![pubkey.to_hex().to_uppercase()],
        ..RateLimitConfig::default()
    };
    assert_eq!(resolve_tier(&limits, &pubkey, true), AgentTier::Elevated);
}

#[test]
fn message_limits_follow_resolved_tier() {
    let limits = RateLimitConfig {
        human_messages_per_min: 10,
        agent_standard_messages_per_min: 20,
        agent_elevated_messages_per_min: 30,
        agent_platform_messages_per_min: 40,
        ..RateLimitConfig::default()
    };

    assert_eq!(message_limit_for(&limits, AgentTier::Human), 10);
    assert_eq!(message_limit_for(&limits, AgentTier::Standard), 20);
    assert_eq!(message_limit_for(&limits, AgentTier::Elevated), 30);
    assert_eq!(message_limit_for(&limits, AgentTier::Platform), 40);
}

#[test]
fn api_limits_share_one_agent_tier() {
    let limits = RateLimitConfig {
        human_api_calls_per_min: 100,
        agent_standard_api_calls_per_min: 200,
        ..RateLimitConfig::default()
    };

    assert_eq!(api_limit_for(&limits, AgentTier::Human), 100);
    assert_eq!(api_limit_for(&limits, AgentTier::Standard), 200);
    assert_eq!(api_limit_for(&limits, AgentTier::Elevated), 200);
    assert_eq!(api_limit_for(&limits, AgentTier::Platform), 200);
}

#[test]
fn public_key_hex_is_that_of_nostr() {
    assert_eq!(counting_key().to_hex(), COUNTING_HEX);
    let key = Keys::generate().public_key();
    assert_eq!(PublicKey::from_bytes(key.to_bytes()).to_hex(), key.to_hex());
}

#[test]
fn community_text_is_the_hyphenated_uuid() {
    let uuid = Uuid::new_v4();
    assert_eq!(CommunityId::from_bytes(*uuid.as_bytes()).to_text(), uuid.to_string());
    let bytes = [
        0x67, 0xe5, 0x50, 0x44, 0x10, 0xb1, 0x42, 0x6f, 0x92, 0x47, 0xbb, 0x68, 0x0e, 0x5f, 0xe0,
        0xc8,
    ];
    assert_eq!(
        CommunityId::from_bytes(bytes).to_text(),
        "67e55044-10b1-426f-9247-bb680e5fe0c8"
    );
}

#[test]
fn rate_limit_key_is_exact() {
    let ctx = TenantContext::resolved(CommunityId::from_bytes([0xab; 16]), "relay.example");
    assert_eq!(ctx.host, "relay.example");
    let prefix = format!("buzz:abababab-abab-abab-abab-abababababab:ratelimit:{COUNTING_HEX}:");
    let suffixes = [
        (LimitType::Messages, "msg"),
        (LimitType::ApiCalls, "api"),
        (LimitType::WsEvents, "ws"),
        (LimitType::IpConnections, "conn"),
    ];
    for (limit_type, suffix) in suffixes {
        assert_eq!(limit_type.key_suffix(), suffix);
        assert_eq!(
            rate_limit_key(&ctx, &counting_key(), &limit_type),
            format!("{prefix}{suffix}")
        );
    }
}

#[test]
fn keys_tell_pubkeys_and_addresses_apart() {
    let ctx = fixture_ctx("relay-a.example");
    let other = PublicKey::from_bytes([1; 32]);
    assert_ne!(
        rate_limit_key(&ctx, &counting_key(), &LimitType::ApiCalls),
        rate_limit_key(&ctx, &other, &LimitType::ApiCalls)
    );
    assert_ne!(ip_rate_limit_key("::1"), ip_rate_limit_key("::2"));
    assert_ne!(
        ip_rate_limit_key("::1"),
        rate_limit_key(&ctx, &other, &LimitType::IpConnections)
    );
}

#[test]
fn config_defaults() {
    let limits = RateLimitConfig::default();
    assert_eq!(limits.human_messages_per_min, 60);
    assert_eq!(limits.human_api_calls_per_min, 300);
    assert_eq!(limits.human_ws_events_per_sec, 10);
    assert_eq!(limits.agent_standard_messages_per_min, 120);
    assert_eq!(limits.agent_standard_api_calls_per_min, 600);
    assert_eq!(limits.agent_elevated_messages_per_min, 300);
    assert_eq!(limits.agent_platform_messages_per_min, 600);
    assert!(limits.elevated_pubkeys.is_empty());
    assert!(limits.platform_pubkeys.is_empty());
    assert_eq!(default_human_msg(), 60);
    assert_eq!(default_human_api(), 300);
    assert_eq!(default_human_ws(), 10);
    assert_eq!(default_agent_std_msg(), 120);
    assert_eq!(default_agent_std_api(), 600);
    assert_eq!(default_agent_elev_msg(), 300);
    assert_eq!(default_agent_plat_msg(), 600);
}

#[test]
fn allowlist_entries_must_match_in_full() {
    let limits = RateLimitConfig {
        elevated_pubkeys: vec![COUNTING_HEX[..63].to_string(), format!("{COUNTING_HEX}0")],
        platform_pubkeys: vec![String::new()],
        ..RateLimitConfig::default()
    };
    assert_eq!(resolve_tier(&limits, &counting_key(), true), AgentTier::Standard);
    let listed = RateLimitConfig {
        platform_pubkeys: vec!["x".to_string(), COUNTING_HEX.to_uppercase()],
        ..limits
    };
    assert_eq!(resolve_tier(&listed, &counting_key(), true), AgentTier::Platform);
}

#[test]
fn results_carry_their_fields() {
    let denied = RateLimitResult::denied(3, 4, 5);
    assert!(!denied.allowed);
    assert_eq!((denied.current, denied.limit, denied.reset_in_secs), (3, 4, 5));
    let allowed = RateLimitResult::allowed(3, 4, 5);
    assert!(allowed.allowed);
    assert_eq!((allowed.current, allowed.limit, allowed.reset_in_secs), (3, 4, 5));
}
