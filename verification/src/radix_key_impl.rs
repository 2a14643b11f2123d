//! [`RadixKey`] implementations for the unsigned integer types: level 0 is
//! the most significant byte of the big-endian representation.

use vstd::prelude::*;
use crate::radix_key::RadixKey;

verus! {

impl RadixKey for u8 {
    open spec fn spec_levels() -> nat {
        1
    }

    open spec fn key_byte(self, level: int) -> u8 {
        self
    }

    fn levels() -> (r: usize) {
        1
    }

    fn get_level(&self, level: usize) -> (r: u8) {
        *self
    }
}

impl RadixKey for u16 {
    open spec fn spec_levels() -> nat {
        2
    }

    open spec fn key_byte(self, level: int) -> u8 {
        (self >> (((1 - level) * 8) as u16)) as u8
    }

    fn levels() -> (r: usize) {
        2
    }

    fn get_level(&self, level: usize) -> (r: u8) {
        (*self >> (((2 - 1 - level) * 8) as u16)) as u8
    }
}

impl RadixKey for u32 {
    open spec fn spec_levels() -> nat {
        4
    }

    open spec fn key_byte(self, level: int) -> u8 {
        (self >> (((3 - level) * 8) as u32)) as u8
    }

    fn levels() -> (r: usize) {
        4
    }

    fn get_level(&self, level: usize) -> (r: u8) {
        (*self >> (((4 - 1 - level) * 8) as u32)) as u8
    }
}

impl RadixKey for u64 {
    open spec fn spec_levels() -> nat {
        8
    }

    open spec fn key_byte(self, level: int) -> u8 {
        (self >> (((7 - level) * 8) as u64)) as u8
    }

    fn levels() -> (r: usize) {
        8
    }

    fn get_level(&self, level: usize) -> (r: u8) {
        (*self >> (((8 - 1 - level) * 8) as u64)) as u8
    }
}

impl RadixKey for u128 {
    open spec fn spec_levels() -> nat {
        16
    }

    open spec fn key_byte(self, level: int) -> u8 {
        (self >> (((15 - level) * 8) as u128)) as u8
    }

    fn levels() -> (r: usize) {
        16
    }

    fn get_level(&self, level: usize) -> (r: u8) {
        (*self >> (((16 - 1 - level) * 8) as u128)) as u8
    }
}

impl RadixKey for usize {
    open spec fn spec_levels() -> nat {
        8
    }

    open spec fn key_byte(self, level: int) -> u8 {
        ((self as u64) >> (((7 - level) * 8) as u64)) as u8
    }

    fn levels() -> (r: usize) {
        8
    }

    fn get_level(&self, level: usize) -> (r: u8) {
        ((*self as u64) >> (((8 - 1 - level) * 8) as u64)) as u8
    }
}

} // verus!
