//! Literal numbers, by their bit patterns.
use vstd::prelude::*;

verus! {

/// 0
pub const ZERO: u64 = 0x0000_0000_0000_0000;

/// 1
pub const ONE: u64 = 0x3ff0_0000_0000_0000;

/// -1
pub const MINUS_ONE: u64 = 0xbff0_0000_0000_0000;

/// 2
pub const TWO: u64 = 0x4000_0000_0000_0000;

/// 4
pub const FOUR: u64 = 0x4010_0000_0000_0000;

/// 8
pub const EIGHT: u64 = 0x4020_0000_0000_0000;

/// -8
pub const MINUS_EIGHT: u64 = 0xc020_0000_0000_0000;

/// 64
pub const SIXTY_FOUR: u64 = 0x4050_0000_0000_0000;

/// -64
pub const MINUS_SIXTY_FOUR: u64 = 0xc050_0000_0000_0000;

/// 128
pub const HUNDRED_TWENTY_EIGHT: u64 = 0x4060_0000_0000_0000;

/// -128
pub const MINUS_HUNDRED_TWENTY_EIGHT: u64 = 0xc060_0000_0000_0000;

/// 2^-44
pub const TRIFLE: u64 = 0x3d30_0000_0000_0000;

/// 10
pub const TEN: u64 = 0x4024_0000_0000_0000;

/// 0.5
pub const HALF: u64 = 0x3fe0_0000_0000_0000;

/// -0.5
pub const MINUS_HALF: u64 = 0xbfe0_0000_0000_0000;

/// Positive infinity.
pub const PLUS_INFINITY: u64 = 0x7ff0_0000_0000_0000;

/// Negative infinity.
pub const MINUS_INFINITY: u64 = 0xfff0_0000_0000_0000;

} // verus!
