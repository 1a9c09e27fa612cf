//! The machine integers that serve as hash values and vertical words.

use crate::dyft::bit_tools::vcode_tools::{VCodeTools, VCodeToolsBase};
use vstd::prelude::*;

verus! {

impl VCodeToolsBase for u8 {
    open spec fn width() -> nat {
        8
    }

    open spec fn modulus() -> nat {
        0x100
    }

    open spec fn half_modulus() -> nat {
        0x10
    }

    open spec fn val(self) -> u64 {
        self as u64
    }

    proof fn lemma_width() {
    }

    proof fn lemma_modulus(v: u64) {
        assert((v < 0x100) == (v >> 8 == 0)) by (bit_vector);
    }

    proof fn lemma_val(self) {
    }

    proof fn lemma_val_injective(a: Self, b: Self) {
    }

    fn size_of() -> (r: usize) {
        8
    }

    fn to_u64(self) -> (r: u64) {
        self as u64
    }

    fn from_u64(v: u64) -> (r: Self) {
        v as u8
    }

    fn zero() -> (r: Self) {
        0
    }

    fn wrapping_add(self, rhs: Self) -> (r: Self) {
        u8::wrapping_add(self, rhs)
    }

    fn wrapping_mul(self, rhs: Self) -> (r: Self) {
        u8::wrapping_mul(self, rhs)
    }

    fn shr_half(self) -> (r: Self) {
        assert(self >> 4 == self / 0x10) by (bit_vector);
        self >> 4
    }

    fn wrap_to_t(g: i64) -> (r: Self) {
        if g >= 0 {
            ((g as u64) % 0x100) as u8
        } else {
            let m: u64 = (-(g + 1)) as u64;
            ((u64::MAX - m) % 0x100) as u8
        }
    }
}

impl VCodeTools for u8 {
}

impl VCodeToolsBase for u16 {
    open spec fn width() -> nat {
        16
    }

    open spec fn modulus() -> nat {
        0x1_0000
    }

    open spec fn half_modulus() -> nat {
        0x100
    }

    open spec fn val(self) -> u64 {
        self as u64
    }

    proof fn lemma_width() {
    }

    proof fn lemma_modulus(v: u64) {
        assert((v < 0x1_0000) == (v >> 16 == 0)) by (bit_vector);
    }

    proof fn lemma_val(self) {
    }

    proof fn lemma_val_injective(a: Self, b: Self) {
    }

    fn size_of() -> (r: usize) {
        16
    }

    fn to_u64(self) -> (r: u64) {
        self as u64
    }

    fn from_u64(v: u64) -> (r: Self) {
        v as u16
    }

    fn zero() -> (r: Self) {
        0
    }

    fn wrapping_add(self, rhs: Self) -> (r: Self) {
        u16::wrapping_add(self, rhs)
    }

    fn wrapping_mul(self, rhs: Self) -> (r: Self) {
        u16::wrapping_mul(self, rhs)
    }

    fn shr_half(self) -> (r: Self) {
        assert(self >> 8 == self / 0x100) by (bit_vector);
        self >> 8
    }

    fn wrap_to_t(g: i64) -> (r: Self) {
        if g >= 0 {
            ((g as u64) % 0x1_0000) as u16
        } else {
            let m: u64 = (-(g + 1)) as u64;
            ((u64::MAX - m) % 0x1_0000) as u16
        }
    }
}

impl VCodeTools for u16 {
}

impl VCodeToolsBase for u32 {
    open spec fn width() -> nat {
        32
    }

    open spec fn modulus() -> nat {
        0x1_0000_0000
    }

    open spec fn half_modulus() -> nat {
        0x1_0000
    }

    open spec fn val(self) -> u64 {
        self as u64
    }

    proof fn lemma_width() {
    }

    proof fn lemma_modulus(v: u64) {
        assert((v < 0x1_0000_0000) == (v >> 32 == 0)) by (bit_vector);
    }

    proof fn lemma_val(self) {
    }

    proof fn lemma_val_injective(a: Self, b: Self) {
    }

    fn size_of() -> (r: usize) {
        32
    }

    fn to_u64(self) -> (r: u64) {
        self as u64
    }

    fn from_u64(v: u64) -> (r: Self) {
        v as u32
    }

    fn zero() -> (r: Self) {
        0
    }

    fn wrapping_add(self, rhs: Self) -> (r: Self) {
        u32::wrapping_add(self, rhs)
    }

    fn wrapping_mul(self, rhs: Self) -> (r: Self) {
        u32::wrapping_mul(self, rhs)
    }

    fn shr_half(self) -> (r: Self) {
        assert(self >> 16 == self / 0x1_0000) by (bit_vector);
        self >> 16
    }

    fn wrap_to_t(g: i64) -> (r: Self) {
        if g >= 0 {
            ((g as u64) % 0x1_0000_0000) as u32
        } else {
            let m: u64 = (-(g + 1)) as u64;
            ((u64::MAX - m) % 0x1_0000_0000) as u32
        }
    }
}

impl VCodeTools for u32 {
}

impl VCodeToolsBase for u64 {
    open spec fn width() -> nat {
        64
    }

    open spec fn modulus() -> nat {
        0x1_0000_0000_0000_0000
    }

    open spec fn half_modulus() -> nat {
        0x1_0000_0000
    }

    open spec fn val(self) -> u64 {
        self as u64
    }

    proof fn lemma_width() {
    }

    proof fn lemma_modulus(v: u64) {
    }

    proof fn lemma_val(self) {
    }

    proof fn lemma_val_injective(a: Self, b: Self) {
    }

    fn size_of() -> (r: usize) {
        64
    }

    fn to_u64(self) -> (r: u64) {
        self as u64
    }

    fn from_u64(v: u64) -> (r: Self) {
        v
    }

    fn zero() -> (r: Self) {
        0
    }

    fn wrapping_add(self, rhs: Self) -> (r: Self) {
        u64::wrapping_add(self, rhs)
    }

    fn wrapping_mul(self, rhs: Self) -> (r: Self) {
        u64::wrapping_mul(self, rhs)
    }

    fn shr_half(self) -> (r: Self) {
        assert(self >> 32 == self / 0x1_0000_0000) by (bit_vector);
        self >> 32
    }

    fn wrap_to_t(g: i64) -> (r: Self) {
        if g >= 0 {
            g as u64
        } else {
            let m: u64 = (-(g + 1)) as u64;
            u64::MAX - m
        }
    }
}

impl VCodeTools for u64 {
}

} // verus!
