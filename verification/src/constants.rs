//! Often used limits of the element types.

use vstd::prelude::*;

verus! {

/// Largest value of an `i8`.
pub const MAXI8: i8 = 127;

/// Smallest value of an `i8`.
pub const MINI8: i8 = -128;

/// Largest value of an `i32`.
pub const MAXI32: i32 = 2147483647;

/// Smallest value of an `i32`.
pub const MINI32: i32 = -2147483648;

/// Largest value of an `i64`.
pub const MAXI64: i64 = 9223372036854775807;

/// Smallest value of an `i64`.
pub const MINI64: i64 = -9223372036854775808;

/// Largest value of an `i128`.
pub const MAXI128: i128 = 170141183460469231731687303715884105727;

/// Smallest value of an `i128`.
pub const MINI128: i128 = -170141183460469231731687303715884105728;

} // verus!
