//! Marker traits for the primitive integer and floating-point types.
use vstd::prelude::*;

verus! {

/// The primitive integer types.
pub trait PrimInt {}

impl PrimInt for i8 {}
impl PrimInt for i16 {}
impl PrimInt for i32 {}
impl PrimInt for i64 {}
impl PrimInt for i128 {}
impl PrimInt for isize {}
impl PrimInt for u8 {}
impl PrimInt for u16 {}
impl PrimInt for u32 {}
impl PrimInt for u64 {}
impl PrimInt for u128 {}
impl PrimInt for usize {}

/// The primitive floating-point types. The library implements it for none of its own; a user
/// crate marks the types it reads as such.
pub trait PrimFloat {}

} // verus!
