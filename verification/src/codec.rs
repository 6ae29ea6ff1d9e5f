//! Sample codec: bidirectional mapping between fixed-width sample encodings
//! and a canonical integer domain sized to the widest bit depth in use.
//!
//! Integer kinds scale bit-exactly: promotion into a wider domain is a left
//! shift (multiplication by a power of two) and the way back truncates toward
//! zero (division by the same power of two), so no rounding noise is added.

use vstd::prelude::*;
use vstd::arithmetic::power2::pow2;
use vstd::arithmetic::power2::lemma_pow2_adds;
use vstd::arithmetic::power2::lemma_pow2_strictly_increases;
use vstd::arithmetic::power2::lemma2_to64;
use vstd::arithmetic::div_mod::lemma_div_multiples_vanish;
use vstd::arithmetic::mul::lemma_mul_strict_inequality;

verus! {

/// One of the supported physical sample encodings: unsigned integers of
/// 8/10/12/16 bits, or IEEE half/single precision floats.  The float kinds
/// are tags only as far as this crate's verified arithmetic is concerned;
/// their sample values are aggregated by the unverified host shell.
#[derive(Clone, Copy, PartialEq, Eq, Structural, Debug)]
pub enum SampleKind {
    U8,
    U10,
    U12,
    U16,
    F16,
    F32,
}

impl SampleKind {
    /// Whether this kind is an unsigned-integer encoding, the domain the
    /// verified aggregation engine covers.
    pub open spec fn is_integer(self) -> bool {
        match self {
            SampleKind::U8 | SampleKind::U10 | SampleKind::U12 | SampleKind::U16 => true,
            SampleKind::F16 | SampleKind::F32 => false,
        }
    }

    /// Significant bits of one sample of this kind.
    pub open spec fn spec_depth(self) -> nat {
        match self {
            SampleKind::U8 => 8,
            SampleKind::U10 => 10,
            SampleKind::U12 => 12,
            SampleKind::U16 => 16,
            SampleKind::F16 => 16,
            SampleKind::F32 => 32,
        }
    }

    /// Bits of storage one sample of this kind occupies.
    pub open spec fn spec_storage_bits(self) -> nat {
        match self {
            SampleKind::U8 => 8,
            SampleKind::U10 => 16,
            SampleKind::U12 => 16,
            SampleKind::U16 => 16,
            SampleKind::F16 => 16,
            SampleKind::F32 => 32,
        }
    }

    /// Executable twin of [`Self::spec_depth`].
    pub fn depth(&self) -> (d: u32)
        ensures
            d == self.spec_depth(),
    {
        match self {
            SampleKind::U8 => 8,
            SampleKind::U10 => 10,
            SampleKind::U12 => 12,
            SampleKind::U16 => 16,
            SampleKind::F16 => 16,
            SampleKind::F32 => 32,
        }
    }

    /// Executable twin of [`Self::spec_storage_bits`].
    pub fn storage_bits(&self) -> (b: u32)
        ensures
            b == self.spec_storage_bits(),
    {
        match self {
            SampleKind::U8 => 8,
            SampleKind::U10 => 16,
            SampleKind::U12 => 16,
            SampleKind::U16 => 16,
            SampleKind::F16 => 16,
            SampleKind::F32 => 32,
        }
    }

    /// Executable twin of [`Self::is_integer`].
    pub fn kind_is_integer(&self) -> (r: bool)
        ensures
            r == self.is_integer(),
    {
        match self {
            SampleKind::U8 | SampleKind::U10 | SampleKind::U12 | SampleKind::U16 => true,
            SampleKind::F16 | SampleKind::F32 => false,
        }
    }

    /// The codec table: resolves a host-reported (is-float, bit depth) pair
    /// to a sample kind.  A pair outside the table is a configuration error,
    /// reported before any aggregation begins.
    pub fn from_parts(is_float: bool, bits: u32) -> (r: Result<SampleKind, crate::CoreError>)
        ensures
            r == Self::spec_from_parts(is_float, bits),
    {
        match (is_float, bits) {
            (false, 8) => Ok(SampleKind::U8),
            (false, 10) => Ok(SampleKind::U10),
            (false, 12) => Ok(SampleKind::U12),
            (false, 16) => Ok(SampleKind::U16),
            (true, 16) => Ok(SampleKind::F16),
            (true, 32) => Ok(SampleKind::F32),
            _ => Err(crate::CoreError::UnsupportedSampleKind),
        }
    }

    /// What [`Self::from_parts`] resolves each pair to.
    pub open spec fn spec_from_parts(is_float: bool, bits: u32) -> Result<SampleKind, crate::CoreError> {
        if is_float {
            if bits == 16 {
                Ok(SampleKind::F16)
            } else if bits == 32 {
                Ok(SampleKind::F32)
            } else {
                Err(crate::CoreError::UnsupportedSampleKind)
            }
        } else {
            if bits == 8 {
                Ok(SampleKind::U8)
            } else if bits == 10 {
                Ok(SampleKind::U10)
            } else if bits == 12 {
                Ok(SampleKind::U12)
            } else if bits == 16 {
                Ok(SampleKind::U16)
            } else {
                Err(crate::CoreError::UnsupportedSampleKind)
            }
        }
    }
}

/// The canonical value an integer raw sample maps to: the raw value promoted
/// into a `domain`-bit range by a bit-exact left shift.
pub open spec fn spec_to_canonical(kind: SampleKind, domain: nat, raw: int) -> int {
    raw * pow2((domain - kind.spec_depth()) as nat)
}

/// The raw sample a canonical value maps back to: inverse scaling followed by
/// truncation toward zero.
pub open spec fn spec_from_canonical(kind: SampleKind, domain: nat, canonical: int) -> int {
    canonical / pow2((domain - kind.spec_depth()) as nat) as int
}

/// `2^e` as an executable value.
pub fn pow2_u64(e: u32) -> (r: u64)
    requires
        e < 64,
    ensures
        r == pow2(e as nat),
{
    proof {
        lemma2_to64();
        vstd::arithmetic::power2::lemma2_to64_rest();
        assert(pow2(e as nat) <= pow2(63)) by {
            if e < 63 {
                lemma_pow2_strictly_increases(e as nat, 63);
            }
        }
    }
    let table: [u64; 64] = [
        0x1, 0x2, 0x4, 0x8, 0x10, 0x20, 0x40, 0x80,
        0x100, 0x200, 0x400, 0x800, 0x1000, 0x2000, 0x4000, 0x8000,
        0x10000, 0x20000, 0x40000, 0x80000,
        0x100000, 0x200000, 0x400000, 0x800000,
        0x1000000, 0x2000000, 0x4000000, 0x8000000,
        0x10000000, 0x20000000, 0x40000000, 0x80000000,
        0x100000000, 0x200000000, 0x400000000, 0x800000000,
        0x1000000000, 0x2000000000, 0x4000000000, 0x8000000000,
        0x10000000000, 0x20000000000, 0x40000000000, 0x80000000000,
        0x100000000000, 0x200000000000, 0x400000000000, 0x800000000000,
        0x1000000000000, 0x2000000000000, 0x4000000000000, 0x8000000000000,
        0x10000000000000, 0x20000000000000, 0x40000000000000, 0x80000000000000,
        0x100000000000000, 0x200000000000000, 0x400000000000000, 0x800000000000000,
        0x1000000000000000, 0x2000000000000000, 0x4000000000000000, 0x8000000000000000,
    ];
    table[e as usize]
}

/// Promotes an integer raw sample into the canonical `domain`-bit range.
///
/// The shift is bit-exact: an 8-bit value promoted to a 16-bit domain is
/// multiplied by 256, never rescaled, so no rounding noise is introduced.
pub fn to_canonical(kind: SampleKind, domain: u32, raw: u64) -> (r: u64)
    requires
        kind.is_integer(),
        kind.spec_depth() <= domain <= 32,
        raw < pow2(kind.spec_depth()),
    ensures
        r == spec_to_canonical(kind, domain as nat, raw as int),
        r < pow2(domain as nat),
{
    let shift = domain - kind.depth();
    let scale = pow2_u64(shift);
    proof {
        lemma_pow2_adds(kind.spec_depth(), shift as nat);
        vstd::arithmetic::power2::lemma_pow2_pos(shift as nat);
        lemma_mul_strict_inequality(raw as int, pow2(kind.spec_depth()) as int, scale as int);
        assert(pow2(kind.spec_depth()) * pow2(shift as nat) == pow2(domain as nat));
        assert(pow2(domain as nat) <= pow2(32)) by {
            if domain < 32 {
                lemma_pow2_strictly_increases(domain as nat, 32);
            }
        }
        lemma2_to64();
    }
    raw * scale
}

/// Narrows a canonical value back to an integer raw sample.  Inverse scaling
/// truncates toward zero (no rounding to nearest), matching the engine's
/// bit-exact output rule.
pub fn from_canonical(kind: SampleKind, domain: u32, canonical: u64) -> (r: u64)
    requires
        kind.is_integer(),
        kind.spec_depth() <= domain <= 32,
        canonical < pow2(domain as nat),
    ensures
        r == spec_from_canonical(kind, domain as nat, canonical as int),
        r < pow2(kind.spec_depth()),
{
    let shift = domain - kind.depth();
    let scale = pow2_u64(shift);
    proof {
        lemma_pow2_adds(kind.spec_depth(), shift as nat);
        vstd::arithmetic::power2::lemma_pow2_pos(shift as nat);
        assert(kind.spec_depth() + (shift as nat) == domain as nat);
        assert(pow2(domain as nat) == pow2(kind.spec_depth()) * pow2(shift as nat));
        vstd::arithmetic::mul::lemma_mul_is_commutative(
            scale as int,
            pow2(kind.spec_depth()) as int,
        );
        assert((canonical as int) < (scale as int) * (pow2(kind.spec_depth()) as int));
        assert((canonical as int) / (scale as int) < pow2(kind.spec_depth()) as int) by {
            vstd::arithmetic::div_mod::lemma_multiply_divide_lt(
                canonical as int,
                scale as int,
                pow2(kind.spec_depth()) as int,
            );
        }
    }
    canonical / scale
}

/// Law: the codec round-trips.  For every integer sample kind and every
/// representable raw value, narrowing a promoted value returns it unchanged.
pub proof fn lemma_codec_round_trip(kind: SampleKind, domain: nat, raw: int)
    requires
        kind.is_integer(),
        kind.spec_depth() <= domain,
        0 <= raw < pow2(kind.spec_depth()),
    ensures
        spec_from_canonical(kind, domain, spec_to_canonical(kind, domain, raw)) == raw,
{
    let scale = pow2((domain - kind.spec_depth()) as nat) as int;
    vstd::arithmetic::power2::lemma_pow2_pos((domain - kind.spec_depth()) as nat);
    assert(raw * scale == scale * raw) by {
        vstd::arithmetic::mul::lemma_mul_is_commutative(raw, scale);
    }
    lemma_div_multiples_vanish(raw, scale);
}

} // verus!
