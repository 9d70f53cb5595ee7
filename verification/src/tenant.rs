//! Who a request is charged to: the community it came in through and the
//! public key that signed it.

use vstd::prelude::*;

use crate::hex::{
    is_lower_hex_digit, lemma_lower_hex_digits, lemma_lower_hex_injective, lower_hex,
};

verus! {

/// The identifier of a community: the sixteen bytes of its UUID.
#[derive(Debug, Clone, Copy, PartialEq, Eq, Hash)]
pub struct CommunityId {
    pub bytes: [u8; 16],
}

impl CommunityId {
    /// The community with these UUID bytes.
    pub fn from_bytes(bytes: [u8; 16]) -> (id: Self)
        ensures
            id.bytes@ == bytes@,
    {
        CommunityId { bytes }
    }

    /// The identifier as text: the hyphenated form of its UUID, in lowercase.
    pub fn to_text(&self) -> (text: String)
        ensures
            text@ == uuid_text(self.bytes@),
    {
        uuid_to_string(&self.bytes)
    }
}

/// The hyphenated lowercase form of a UUID: its hexadecimal text in groups of
/// eight, four, four, four and twelve digits.
pub open spec fn uuid_text(bytes: Seq<u8>) -> Seq<char> {
    let digits = lower_hex(bytes);
    digits.subrange(0, 8) + seq!['-'] + digits.subrange(8, 12) + seq!['-'] + digits.subrange(12, 16)
        + seq!['-'] + digits.subrange(16, 20) + seq!['-'] + digits.subrange(20, 32)
}

/// `uuid::Uuid`'s `Display`, through `to_string`, on the UUID that
/// `uuid::Uuid::from_bytes` makes of the bytes. It writes the hyphenated form
/// with lowercase digits.
#[verifier::external_body]
fn uuid_to_string(bytes: &[u8; 16]) -> (text: String)
    ensures
        text@ == uuid_text(bytes@),
{
    uuid::Uuid::from_bytes(*bytes).to_string()
}

/// The tenant that a request was resolved to: its community, and the host name
/// that led there.
#[derive(Debug, Clone, PartialEq, Eq, Hash)]
pub struct TenantContext {
    pub community: CommunityId,
    pub host: String,
}

impl TenantContext {
    /// The tenant of `community`, as resolved from `host`.
    pub fn resolved(community: CommunityId, host: &str) -> (ctx: Self)
        ensures
            ctx.community == community,
            ctx.host@ == host@,
    {
        TenantContext { community, host: host.to_owned() }
    }

    /// The community of this tenant.
    pub fn community(&self) -> (id: CommunityId)
        ensures
            id == self.community,
    {
        self.community
    }
}

/// A Nostr public key: its thirty-two bytes.
#[derive(Debug, Clone, Copy, PartialEq, Eq, Hash)]
pub struct PublicKey {
    pub bytes: [u8; 32],
}

impl PublicKey {
    /// The public key with these bytes.
    pub fn from_bytes(bytes: [u8; 32]) -> (key: Self)
        ensures
            key.bytes@ == bytes@,
    {
        PublicKey { bytes }
    }

    /// The key as text: sixty-four lowercase hexadecimal digits.
    pub fn to_hex(&self) -> (hex: String)
        ensures
            hex@ == lower_hex(self.bytes@),
    {
        nostr_to_hex(&self.bytes)
    }
}

/// `nostr::PublicKey::to_hex`, on the key that
/// `nostr::PublicKey::from_byte_array` makes of the bytes. It writes two
/// lowercase hexadecimal digits for each byte.
#[verifier::external_body]
fn nostr_to_hex(bytes: &[u8; 32]) -> (hex: String)
    ensures
        hex@ == lower_hex(bytes@),
{
    nostr::PublicKey::from_byte_array(*bytes).to_hex()
}

/// Different communities have different text.
pub proof fn lemma_uuid_text_injective(a: Seq<u8>, b: Seq<u8>)
    requires
        a.len() == 16,
        b.len() == 16,
        uuid_text(a) == uuid_text(b),
    ensures
        a == b,
{
    let da = lower_hex(a);
    let db = lower_hex(b);
    let ta = uuid_text(a);
    let tb = uuid_text(b);
    assert forall|i: int| 0 <= i < 32 implies da[i] == db[i] by {
        let at = if i < 8 {
            i
        } else if i < 12 {
            i + 1
        } else if i < 16 {
            i + 2
        } else if i < 20 {
            i + 3
        } else {
            i + 4
        };
        assert(ta[at] == da[i]);
        assert(tb[at] == db[i]);
    }
    assert(da =~= db);
    lemma_lower_hex_injective(a, b);
}

/// The text of a community is thirty-six characters, each a lowercase
/// hexadecimal digit or a hyphen, and it begins with a digit.
pub proof fn lemma_uuid_text_chars(bytes: Seq<u8>)
    requires
        bytes.len() == 16,
    ensures
        uuid_text(bytes).len() == 36,
        is_lower_hex_digit(uuid_text(bytes)[0]),
        forall|i: int|
            0 <= i < 36 ==> is_lower_hex_digit(#[trigger] uuid_text(bytes)[i])
                || uuid_text(bytes)[i] == '-',
{
    lemma_lower_hex_digits(bytes);
    assert(uuid_text(bytes)[0] == lower_hex(bytes)[0]);
}

} // verus!
