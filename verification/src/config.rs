//! The settings of an index: those of the hashing and those of the trie.

use crate::dyft::mart::structure::MartConfig;
use vstd::prelude::*;
use vstd::string::StringSliceAdditionalSpecFns;

verus! {

/// The settings of the hashing.
#[derive(Debug, Clone, Copy)]
pub struct LshConfig {
    /// Number of hash functions that go into one hash.
    pub k: usize,
    /// Number of hashes of a curve.
    pub l: usize,
    /// The seed of the random numbers.
    pub seed: u64,
}

impl Default for LshConfig {
    fn default() -> (r: Self)
        ensures
            r.k == 2,
            r.l == 8,
            r.seed == 0,
    {
        LshConfig { k: 2, l: 8, seed: 0 }
    }
}

/// The settings of the hashing together with those of an index.
#[derive(Debug)]
pub struct IndexConfig<T> {
    pub lsh: LshConfig,
    pub index: T,
}

impl Default for IndexConfig<MartConfig> {
    fn default() -> (r: Self)
        ensures
            r.lsh.k == 2,
            r.lsh.l == 8,
            r.lsh.seed == 0,
            r.index.bits == 8,
            r.index.splitthreshold is None,
            r.index.radius == 8,
            r.index.errors == 8,
    {
        IndexConfig {
            lsh: LshConfig { k: 2, l: 8, seed: 0 },
            index: MartConfig { bits: 8, splitthreshold: None, radius: 8, errors: 8 },
        }
    }
}

impl IndexConfig<MartConfig> {
    pub fn with_bits(self, bits: usize) -> (r: Self)
        ensures
            r.lsh == self.lsh,
            r.index == (MartConfig { bits, ..self.index }),
    {
        IndexConfig { lsh: self.lsh, index: MartConfig { bits, ..self.index } }
    }

    pub fn with_splitthreshold(self, splitthreshold: u32) -> (r: Self)
        ensures
            r.lsh == self.lsh,
            r.index == (MartConfig { splitthreshold: Some(splitthreshold), ..self.index }),
    {
        IndexConfig {
            lsh: self.lsh,
            index: MartConfig { splitthreshold: Some(splitthreshold), ..self.index },
        }
    }

    pub fn with_radius(self, radius: u32) -> (r: Self)
        ensures
            r.lsh == self.lsh,
            r.index == (MartConfig { radius, ..self.index }),
    {
        IndexConfig { lsh: self.lsh, index: MartConfig { radius, ..self.index } }
    }

    pub fn with_errors(self, errors: u8) -> (r: Self)
        ensures
            r.lsh == self.lsh,
            r.index == (MartConfig { errors, ..self.index }),
    {
        IndexConfig { lsh: self.lsh, index: MartConfig { errors, ..self.index } }
    }
}

impl<T> IndexConfig<T> {
    pub fn k(self, k: usize) -> (r: Self)
        ensures
            r.lsh == (LshConfig { k, ..self.lsh }),
            r.index == self.index,
    {
        IndexConfig { lsh: LshConfig { k, ..self.lsh }, index: self.index }
    }

    pub fn l(self, l: usize) -> (r: Self)
        ensures
            r.lsh == (LshConfig { l, ..self.lsh }),
            r.index == self.index,
    {
        IndexConfig { lsh: LshConfig { l, ..self.lsh }, index: self.index }
    }

    pub fn lsh_params(&self) -> (r: &LshConfig)
        ensures
            *r == self.lsh,
    {
        &self.lsh
    }

    pub fn index_params(&self) -> (r: &T)
        ensures
            *r == self.index,
    {
        &self.index
    }
}

/// Why a setting was refused.
#[derive(Debug, Clone, Copy, PartialEq, Eq)]
pub enum ConfigError {
    /// The text is not a number from 0 to 255 in decimal notation.
    NotANumber,
    /// The search may use up 16 errors at most.
    TooManyErrors,
}

/// The digits of a number in decimal notation: the text without a plus
/// sign at its head.
pub open spec fn digits_of(text: Seq<u8>) -> Seq<u8> {
    if text.len() > 0 && text[0] == 0x2B {
        text.subrange(1, text.len() as int)
    } else {
        text
    }
}

/// Every byte is one of the digits from `0` to `9`.
pub open spec fn all_digits(digits: Seq<u8>) -> bool {
    forall|i: int| 0 <= i < digits.len() ==> 0x30 <= #[trigger] digits[i] <= 0x39
}

/// The number that the first `n` digits stand for.
pub open spec fn digits_value(digits: Seq<u8>, n: int) -> nat
    decreases n,
{
    if n <= 0 {
        0
    } else {
        (digits_value(digits, n - 1) * 10 + (digits[n - 1] - 0x30)) as nat
    }
}

/// The number that a text stands for: one digit at least, with or
/// without a plus sign before the first, and nothing else.
pub open spec fn parsed_number(text: Seq<u8>) -> Option<nat> {
    let digits = digits_of(text);
    if digits.len() >= 1 && all_digits(digits) {
        Some(digits_value(digits, digits.len() as int))
    } else {
        None
    }
}

/// The number of errors that a text stands for: the number itself if it
/// is 16 at most.
pub open spec fn errors_of(text: Seq<u8>) -> Result<u8, ConfigError> {
    match parsed_number(text) {
        Some(v) => if v < 17 {
            Ok(v as u8)
        } else if v <= 255 {
            Err(ConfigError::TooManyErrors)
        } else {
            Err(ConfigError::NotANumber)
        },
        None => Err(ConfigError::NotANumber),
    }
}

/// More digits do not make a number smaller.
proof fn lemma_digits_grow(digits: Seq<u8>, n: int, m: int)
    requires
        0 <= n <= m <= digits.len(),
        all_digits(digits),
    ensures
        digits_value(digits, n) <= digits_value(digits, m),
    decreases m - n,
{
    if n < m {
        lemma_digits_grow(digits, n + 1, m);
        assert(0x30 <= digits[n] <= 0x39);
    }
}

impl MartConfig {
    /// The number of errors that the text stands for.
    pub fn parse_errors(s: &str) -> (r: Result<u8, ConfigError>)
        ensures
            r == errors_of(s.spec_bytes()),
    {
        let text = s.as_bytes();
        let total = text.len();
        let from: usize = if total > 0 && text[0] == 0x2B {
            1
        } else {
            0
        };
        let ghost digits = digits_of(text@);
        proof {
            assert(digits =~= text@.subrange(from as int, total as int));
        }
        if from == total {
            return Err(ConfigError::NotANumber);
        }
        let mut value: u32 = 0;
        let mut i: usize = from;
        while i < total
            invariant
                from <= i <= total,
                from <= 1,
                total == text@.len(),
                digits == text@.subrange(from as int, total as int),
                digits == digits_of(s.spec_bytes()),
                forall|j: int| 0 <= j < i - from ==> 0x30 <= #[trigger] digits[j] <= 0x39,
                value <= 255,
                value == digits_value(digits, i - from),
            decreases total - i,
        {
            let byte = text[i];
            assert(digits[i - from] == byte);
            if byte < 0x30 || byte > 0x39 {
                assert(!all_digits(digits));
                return Err(ConfigError::NotANumber);
            }
            let next: u32 = value * 10 + (byte - 0x30) as u32;
            if next > 255 {
                proof {
                    assert(digits_value(digits, i - from + 1) == next);
                    if all_digits(digits) {
                        lemma_digits_grow(digits, i - from + 1, digits.len() as int);
                    }
                }
                return Err(ConfigError::NotANumber);
            }
            value = next;
            i = i + 1;
        }
        if value < 17 {
            Ok(value as u8)
        } else {
            Err(ConfigError::TooManyErrors)
        }
    }
}

} // verus!
