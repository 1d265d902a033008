//! Products and the paths under which their objects are served.
use vstd::prelude::*;
use vstd::string::StrSliceExecFns;
use vstd::string::StringExecFns;

use crate::hash::{hex_string, Md5Hash};

verus! {

/// The products whose content can be resolved.
#[derive(Debug, Clone, Copy, PartialEq, Eq, Structural)]
pub enum Product {
    Diablo3,
    Diablo3Ptr,
    Diablo4,
    Diablo4Beta,
    Hearthstone,
    HearthstoneTournament,
    Overwatch,
    OverwatchTest,
    Warcraft3,
    Wow,
    WowBeta,
    WowClassic,
    WowClassicBeta,
    WowClassicPtr,
    WowClassicEra,
    WowClassicEraBeta,
    WowClassicEraPtr,
}

/// The path segment under which a product's tables are served.
pub open spec fn product_path(p: Product) -> Seq<char> {
    match p {
        Product::Warcraft3 => "w3"@,
        Product::Wow => "wow"@,
        Product::WowBeta => "wow_beta"@,
        Product::WowClassic => "wow_classic"@,
        Product::WowClassicBeta => "wow_classic_beta"@,
        Product::WowClassicPtr => "wow_classic_ptr"@,
        Product::WowClassicEra => "wow_classic_era"@,
        Product::WowClassicEraBeta => "wow_classic_era_beta"@,
        Product::WowClassicEraPtr => "wow_classic_era_ptr"@,
        Product::Diablo3 => "d3"@,
        Product::Diablo3Ptr => "d3t"@,
        Product::Diablo4 => "fenris"@,
        Product::Diablo4Beta => "fenrisb"@,
        Product::Hearthstone => "hsb"@,
        Product::HearthstoneTournament => "hsc"@,
        Product::Overwatch => "pro"@,
        Product::OverwatchTest => "prot"@,
    }
}

impl Product {
    /// The URL-safe path segment for this product.
    pub fn cdn_path(&self) -> (r: &'static str)
        ensures
            r@ == product_path(*self),
    {
        match self {
            Product::Warcraft3 => "w3",
            Product::Wow => "wow",
            Product::WowBeta => "wow_beta",
            Product::WowClassic => "wow_classic",
            Product::WowClassicBeta => "wow_classic_beta",
            Product::WowClassicPtr => "wow_classic_ptr",
            Product::WowClassicEra => "wow_classic_era",
            Product::WowClassicEraBeta => "wow_classic_era_beta",
            Product::WowClassicEraPtr => "wow_classic_era_ptr",
            Product::Diablo3 => "d3",
            Product::Diablo3Ptr => "d3t",
            Product::Diablo4 => "fenris",
            Product::Diablo4Beta => "fenrisb",
            Product::Hearthstone => "hsb",
            Product::HearthstoneTournament => "hsc",
            Product::Overwatch => "pro",
            Product::OverwatchTest => "prot",
        }
    }
}

/// The two kinds of objects a CDN serves.
#[derive(Debug, Clone, Copy, PartialEq, Eq, Structural)]
pub enum ObjectKind {
    /// Configuration text.
    Config,
    /// Binary data in a block table.
    Data,
}

/// The directory of a kind of object.
pub open spec fn kind_dir(k: ObjectKind) -> Seq<char> {
    match k {
        ObjectKind::Config => "config"@,
        ObjectKind::Data => "data"@,
    }
}

/// The path of an object: its kind, the first two and the next two hex digits
/// of its key, then the whole key.
pub open spec fn object_path_of(k: ObjectKind, key: Seq<u8>) -> Seq<char> {
    let h = hex_string(key);
    kind_dir(k) + seq!['/'] + h.subrange(0, 2) + seq!['/'] + h.subrange(2, 4) + seq!['/'] + h
}

proof fn lemma_hex_string_len(b: Seq<u8>)
    ensures
        hex_string(b).len() == 2 * b.len(),
    decreases b.len(),
{
    if b.len() > 0 {
        lemma_hex_string_len(b.drop_last());
    }
}

/// The path, relative to a CDN's root, of the object with key `key`.
pub fn object_path(kind: ObjectKind, key: &Md5Hash) -> (r: String)
    ensures
        r@ == object_path_of(kind, key@),
{
    let hex = key.as_str();
    proof {
        lemma_hex_string_len(key@);
        reveal_strlit("/");
    }
    let mut r = match kind {
        ObjectKind::Config => String::from_str("config"),
        ObjectKind::Data => String::from_str("data"),
    };
    r.append("/");
    r.append(hex.as_str().substring_char(0, 2));
    r.append("/");
    r.append(hex.as_str().substring_char(2, 4));
    r.append("/");
    r.append(hex.as_str());
    assert(r@ =~= object_path_of(kind, key@));
    r
}

} // verus!
