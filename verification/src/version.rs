//! The node version that a `getVersion` request is answered with.

use solana_version::Version;
use vstd::prelude::*;

verus! {

/// The version of the Solana software this relay is built against.
#[derive(Clone, Copy)]
pub struct NodeVersion {
    pub major: u16,
    pub minor: u16,
    pub patch: u16,
    /// The first 4 bytes of the commit's sha1, where the build knew it.
    pub commit: Option<u32>,
    /// The first 4 bytes of the feature-set identifier.
    pub feature_set: u32,
}

/// The answer to `getVersion`.
pub struct VersionInfo {
    pub solana_core: String,
    pub feature_set: Option<u32>,
}

/// The decimal digit for `d < 10`.
pub open spec fn digit_char(d: nat) -> char {
    (48 + d) as char
}

/// `n` written in decimal, without leading zeros.
pub open spec fn decimal(n: nat) -> Seq<char>
    decreases n,
{
    if n < 10 {
        seq![digit_char(n)]
    } else {
        decimal(n / 10).push(digit_char(n % 10))
    }
}

/// `major.minor.patch`, each in decimal.
pub open spec fn version_text(major: u16, minor: u16, patch: u16) -> Seq<char> {
    decimal(major as nat) + seq!['.'] + decimal(minor as nat) + seq!['.'] + decimal(patch as nat)
}

/// The version's `major.minor.patch` text.
pub open spec fn version_string(v: NodeVersion) -> Seq<char> {
    version_text(v.major, v.minor, v.patch)
}

/// The feature set of solana-sdk 1.14.29: the first four bytes, read
/// little-endian, of `feature_set::ID`, the SHA-256 of the sorted identifiers
/// of its `FEATURE_NAMES`.
pub const FEATURE_SET_1_14_29: u32 = 139196142;

/// Calls `Version::default()` of solana-version and hands out its fields.
/// Claimed: `major.minor.patch` is the version of the solana-version crate
/// itself, which `default()` reads from `CARGO_PKG_VERSION_*`; Cargo.toml pins
/// it at 1.14.29. The feature set is the first four bytes, little-endian, of
/// solana-sdk's `feature_set::ID` (also pinned at 1.14.29), a hash of the
/// feature identifiers that source lists. The commit, read from the build's
/// environment, is left unsaid.
#[verifier::external_body]
fn default_version() -> (res: NodeVersion)
    ensures
        res.major == 1,
        res.minor == 14,
        res.patch == 29,
        res.feature_set == FEATURE_SET_1_14_29,
{
    let v = Version::default();
    NodeVersion {
        major: v.major,
        minor: v.minor,
        patch: v.patch,
        commit: v.commit,
        feature_set: v.feature_set,
    }
}

/// Calls `Version`'s `Display` (through `to_string`) on the version with the
/// given fields. Claimed: the text is `major.minor.patch`, each written in
/// decimal, as the `Display` impl writes `"{}.{}.{}"` of the three `u16`s.
#[verifier::external_body]
fn text_of_version(v: &NodeVersion) -> (res: String)
    ensures
        res@ == version_string(*v),
{
    Version {
        major: v.major,
        minor: v.minor,
        patch: v.patch,
        commit: v.commit,
        feature_set: v.feature_set,
    }.to_string()
}

/// The `getVersion` answer for a given version: its `major.minor.patch` text
/// and its feature set.
pub fn version_info(v: &NodeVersion) -> (res: VersionInfo)
    ensures
        res.solana_core@ == version_string(*v),
        res.feature_set == Some(v.feature_set),
{
    VersionInfo { solana_core: text_of_version(v), feature_set: Some(v.feature_set) }
}

/// The `getVersion` answer for the Solana version this relay is built
/// against: `1.14.29`, with the feature set of solana-sdk 1.14.29.
pub fn get_version() -> (res: VersionInfo)
    ensures
        res.solana_core@ == version_text(1, 14, 29),
        res.feature_set == Some(FEATURE_SET_1_14_29),
{
    let v = default_version();
    version_info(&v)
}

} // verus!
