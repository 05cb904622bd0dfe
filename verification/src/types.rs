use vstd::prelude::*;

verus! {

/// Error-correction robustness requested by the caller: the approximate
/// fraction of codewords that may be lost while the payload stays readable
/// (Low ~7%, Medium ~15%, Quartile ~25%, High ~30%).
#[derive(Clone, Copy, PartialEq, Eq, Structural, Debug)]
pub enum EcLevel {
    Low,
    Medium,
    Quartile,
    High,
}

/// Data encoding mode of a segment: the narrowest character set that can
/// represent the payload losslessly.
#[derive(Clone, Copy, PartialEq, Eq, Structural, Debug)]
pub enum SegMode {
    Numeric,
    Alphanumeric,
    Byte,
}

/// Every failure the engine can report. Encoding and rendering never panic
/// and never truncate: each bad input maps to exactly one of these.
#[derive(Clone, Copy, PartialEq, Eq, Structural, Debug)]
pub enum QrError {
    /// The payload exceeds the capacity of version 40 at the requested level.
    CapacityError,
    /// A caller-pinned version is too small for the payload.
    VersionTooSmallError,
    /// A caller-forced mode cannot represent the payload.
    InvalidCharacterError,
    /// A zero unit size was handed to the renderer.
    RenderConfigError,
}

/// Rank of a level by the share of codewords it spends on error correction;
/// a smaller rank demands fewer correction codewords.
pub open spec fn level_rank_s(l: EcLevel) -> int {
    match l {
        EcLevel::Low => 0,
        EcLevel::Medium => 1,
        EcLevel::Quartile => 2,
        EcLevel::High => 3,
    }
}

/// Two-bit code of a level inside the format information.
pub open spec fn level_bits_s(l: EcLevel) -> u32 {
    match l {
        EcLevel::Low => 1,
        EcLevel::Medium => 0,
        EcLevel::Quartile => 3,
        EcLevel::High => 2,
    }
}

/// Executable copy of `level_bits_s`.
pub fn level_bits(l: EcLevel) -> (r: u32)
    ensures
        r == level_bits_s(l),
{
    match l {
        EcLevel::Low => 1,
        EcLevel::Medium => 0,
        EcLevel::Quartile => 3,
        EcLevel::High => 2,
    }
}

} // verus!
