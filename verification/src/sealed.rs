//! What keeps a trait of this crate from being implemented elsewhere.

use vstd::prelude::*;

verus! {

/// A bound that no other crate can meet.
pub trait Sealed {

}

impl Sealed for i32 {

}

impl Sealed for String {

}

impl Sealed for [u8; 20] {

}

impl Sealed for [u8; 40] {

}

impl<K: Sealed> Sealed for ([u8; 20], K) {

}

} // verus!
