//! Official asset metadata. The icon is a text descriptor with a small SVG glyph;
//! its hash is the SHA-256 of that descriptor.

use vstd::prelude::*;
use vstd::utf8::encode_utf8;

use crate::crypto::hash::{sha256, sha256_of};
use crate::economics::UNITS_PER_COIN;
use crate::kron::{NETWORK_NAME, TICKER};

verus! {

/// Canonical glyph description.
pub const KRON_ICON_DESCRIPTOR: &'static str = "KRON Network official icon v1\nmotif: 3D letter K formed by intersecting lattice basis vectors\nstyle: minimalist cyberpunk geometric lattice\nbackground: matte black / dark metallic\naccent: electric neon blue\n<svg xmlns=\"http://www.w3.org/2000/svg\" viewBox=\"0 0 32 32\" fill=\"none\"><rect width=\"32\" height=\"32\" fill=\"#0a0a0c\"/><path d=\"M7 3 L16 16 L7 29\" stroke=\"#00e5ff\" stroke-width=\"2.2\" fill=\"none\"/><path d=\"M16 16 L26 4\" stroke=\"#00e5ff\" stroke-width=\"2.2\" fill=\"none\"/><path d=\"M16 16 L26 28\" stroke=\"#00e5ff\" stroke-width=\"2.2\" fill=\"none\"/></svg>\n";

/// Presentation hints.
#[derive(Clone, Copy, Debug, PartialEq, Eq)]
pub struct KronVisualSpec {
    pub style: &'static str,
    pub background: &'static str,
    pub accent: &'static str,
    pub motif: &'static str,
}

/// Brand record of the native asset.
#[derive(Clone, Copy, Debug, PartialEq, Eq)]
pub struct AssetMetadata {
    pub name: &'static str,
    pub ticker: &'static str,
    pub decimals: u8,
    pub icon_hash: [u8; 32],
    pub visual: KronVisualSpec,
}

/// How often ten divides `n`.
pub open spec fn factors_of_ten(n: nat) -> nat
    decreases n,
{
    if n >= 10 && n % 10 == 0 {
        1 + factors_of_ten(n / 10)
    } else {
        0
    }
}

/// Brand metadata. The decimals are those of the minor unit.
pub fn get_kron_metadata() -> (r: AssetMetadata)
    ensures
        r.name@ == NETWORK_NAME@,
        r.ticker@ == TICKER@,
        r.decimals == factors_of_ten(UNITS_PER_COIN as nat),
        r.decimals == 6,
        r.icon_hash == sha256_of(encode_utf8(KRON_ICON_DESCRIPTOR@)),
        r.visual.style@ == "minimalist cyberpunk geometric lattice"@,
        r.visual.background@ == "matte black / dark metallic"@,
        r.visual.accent@ == "electric neon blue"@,
        r.visual.motif@ == "3D letter K formed by intersecting lattice basis vectors"@,
{
    proof {
        reveal_with_fuel(factors_of_ten, 8);
        assert(factors_of_ten(1_000_000) == 6);
    }
    let decimals: u8 = decimals_from_units(UNITS_PER_COIN);
    AssetMetadata {
        name: NETWORK_NAME,
        ticker: TICKER,
        decimals,
        icon_hash: sha256(KRON_ICON_DESCRIPTOR.as_bytes()),
        visual: KronVisualSpec {
            style: "minimalist cyberpunk geometric lattice",
            background: "matte black / dark metallic",
            accent: "electric neon blue",
            motif: "3D letter K formed by intersecting lattice basis vectors",
        },
    }
}

/// The decimal places of a minor-unit scale.
fn decimals_from_units(units: u64) -> (r: u8)
    requires
        factors_of_ten(units as nat) <= 255,
    ensures
        r == factors_of_ten(units as nat),
{
    let mut n: u64 = units;
    let mut d: u8 = 0;
    while n >= 10 && n % 10 == 0
        invariant
            factors_of_ten(units as nat) <= 255,
            factors_of_ten(units as nat) == d + factors_of_ten(n as nat),
        decreases n,
    {
        n = n / 10;
        d = d + 1;
    }
    d
}

} // verus!
