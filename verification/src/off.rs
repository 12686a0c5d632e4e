//! Bit offsets written `byte.bit`.

use vstd::prelude::*;
use vstd::string::*;

verus! {

/// A position `byte` bytes and `bit` bits from the start.
#[derive(Debug, Copy, Clone, PartialEq, Eq, Structural, PartialOrd, Ord)]
pub struct Offset {
    pub byte: usize,
    pub bit: usize,
}

impl Offset {
    /// The position in bits.
    pub open spec fn spec_bits(self) -> int {
        self.byte * 8 + self.bit
    }

    /// The position `bits` bits from the start.
    pub fn from_bits(bits: usize) -> (r: Offset)
        ensures
            r.byte == bits / 8,
            r.bit == bits % 8,
            r.spec_bits() == bits,
    {
        Offset { byte: bits / 8, bit: bits % 8 }
    }

    /// The position `bytes` whole bytes from the start.
    pub fn from_bytes(bytes: usize) -> (r: Offset)
        ensures
            r.byte == bytes,
            r.bit == 0,
    {
        Offset { byte: bytes, bit: 0 }
    }

    /// The position in bits.
    pub fn bits(self) -> (r: usize)
        requires
            self.spec_bits() <= usize::MAX,
        ensures
            r == self.spec_bits(),
    {
        self.byte * 8 + self.bit
    }

    /// The sum of two positions, with the bits carried into bytes.
    pub fn add(self, rhs: Offset) -> (r: Offset)
        requires
            self.bit + rhs.bit <= usize::MAX,
            self.byte + rhs.byte + (self.bit + rhs.bit) / 8 <= usize::MAX,
        ensures
            r.byte == self.byte + rhs.byte + (self.bit + rhs.bit) / 8,
            r.bit == (self.bit + rhs.bit) % 8,
            r.spec_bits() == self.spec_bits() + rhs.spec_bits(),
    {
        let bits = self.bit + rhs.bit;
        Offset { byte: self.byte + rhs.byte + bits / 8, bit: bits % 8 }
    }
}

/// An offset as its literal tokens carry it.
#[derive(Debug)]
pub enum OffsetLit {
    /// One float literal `byte.bit`, by its text.
    Float { text: String },
    /// An integer literal, then, after a `.`, another one for the bit.
    Ints { byte: String, bit: Option<String> },
}

/// Why an offset is refused.
#[derive(Debug, Copy, Clone, PartialEq, Eq, Structural)]
pub enum OffsetError {
    /// The float literal has a type suffix.
    Suffix,
    /// The dot is not followed by a bit offset.
    MissingBit,
    /// The byte literal has a type suffix.
    ByteSuffix,
    /// The bit literal has a type suffix.
    BitSuffix,
    /// A literal does not fit `usize`.
    TooLarge,
    /// The bit offset is not 0-7.
    BitRange,
    /// A part is not a literal of its kind, or the float has no `.`.
    NotAnOffset,
}

/// How syn reads `text` as an integer literal: none when it does not;
/// otherwise its type suffix, and its value as a `usize` when it fits.
pub uninterp spec fn syn_int(text: Seq<char>) -> Option<(Seq<char>, Option<usize>)>;

/// How syn reads `text` as a float literal: none when it does not;
/// otherwise its type suffix.
pub uninterp spec fn syn_float(text: Seq<char>) -> Option<Seq<char>>;

/// A read of an integer literal, its suffix taken as text.
pub open spec fn int_read_view(r: Option<(String, Option<usize>)>) -> Option<(Seq<char>, Option<usize>)> {
    match r {
        Some((s, v)) => Some((s@, v)),
        None => None,
    }
}

/// `syn::parse_str::<syn::LitInt>(text)`, then, of the literal it reads,
/// `LitInt::suffix` and `LitInt::base10_parse::<usize>` (its value, if it
/// fits). The contract names the result: it depends on the text alone.
#[verifier::external_body]
fn read_int(text: &str) -> (r: Option<(String, Option<usize>)>)
    ensures
        int_read_view(r) == syn_int(text@),
{
    match syn::parse_str::<syn::LitInt>(text) {
        Ok(lit) => Some((lit.suffix().to_string(), lit.base10_parse::<usize>().ok())),
        Err(_) => None,
    }
}

/// `syn::parse_str::<syn::LitFloat>(text)`, then, of the literal it reads,
/// `LitFloat::suffix`. The contract names the result.
#[verifier::external_body]
fn read_float(text: &str) -> (r: Option<String>)
    ensures
        match r {
            Some(s) => syn_float(text@) == Some(s@),
            None => syn_float(text@) is None,
        },
{
    match syn::parse_str::<syn::LitFloat>(text) {
        Ok(lit) => Some(lit.suffix().to_string()),
        Err(_) => None,
    }
}

/// What one integer part of an offset reads as, from syn's read of it: its
/// value, or why it is refused (`suffix` is the error for a type suffix).
pub open spec fn part_spec(read: Option<(Seq<char>, Option<usize>)>, suffix: OffsetError) -> Result<int, OffsetError> {
    match read {
        None => Err(OffsetError::NotAnOffset),
        Some((sfx, value)) => if sfx.len() != 0 {
            Err(suffix)
        } else {
            match value {
                None => Err(OffsetError::TooLarge),
                Some(v) => Ok(v as int),
            }
        },
    }
}

/// What `byte[.bit]` reads as, from syn's reads of the byte literal and, when
/// there is one, of the bit literal: `(byte, bit)`, or the first problem found.
pub open spec fn reads_spec(
    byte: Option<(Seq<char>, Option<usize>)>,
    bit: Option<Option<(Seq<char>, Option<usize>)>>,
) -> Result<(int, int), OffsetError> {
    match part_spec(byte, OffsetError::ByteSuffix) {
        Err(e) => Err(e),
        Ok(b) => match bit {
            None => Ok((b, 0)),
            Some(r) => match part_spec(r, OffsetError::BitSuffix) {
                Err(e) => Err(e),
                Ok(x) => if x >= 8 {
                    Err(OffsetError::BitRange)
                } else {
                    Ok((b, x))
                },
            },
        },
    }
}

/// What `byte[.bit]` reads as, from the literals' texts.
pub open spec fn offset_spec(byte: Seq<char>, bit: Option<Seq<char>>) -> Result<(int, int), OffsetError> {
    reads_spec(
        syn_int(byte),
        match bit {
            Some(t) => Some(syn_int(t)),
            None => None,
        },
    )
}

/// The text has a `.`.
pub open spec fn has_dot(s: Seq<char>) -> bool {
    exists|i: int| 0 <= i < s.len() && s[i] == '.'
}

/// The position of the first `.` in `s`.
pub open spec fn first_dot(s: Seq<char>) -> int {
    choose|i: int| 0 <= i < s.len() && s[i] == '.' && forall|k: int| 0 <= k < i ==> s[k] != '.'
}

/// What an offset literal reads as.
pub open spec fn offset_lit_spec(lit: OffsetLit) -> Result<(int, int), OffsetError> {
    match lit {
        OffsetLit::Float { text } => match syn_float(text@) {
            None => Err(OffsetError::NotAnOffset),
            Some(sfx) => if sfx.len() != 0 {
                Err(OffsetError::Suffix)
            } else if !has_dot(text@) {
                Err(OffsetError::NotAnOffset)
            } else if first_dot(text@) + 1 == text@.len() {
                Err(OffsetError::MissingBit)
            } else {
                offset_spec(
                    text@.subrange(0, first_dot(text@)),
                    Some(text@.subrange(first_dot(text@) + 1, text@.len() as int)),
                )
            },
        },
        OffsetLit::Ints { byte, bit } => offset_spec(
            byte@,
            match bit {
                Some(b) => Some(b@),
                None => None,
            },
        ),
    }
}

/// The offset from syn's reads of the byte literal and, when there is one,
/// of the bit literal (see `reads_spec`).
pub fn offset_from_reads(
    byte: Option<(String, Option<usize>)>,
    bit: Option<Option<(String, Option<usize>)>>,
) -> (r: Result<Offset, OffsetError>)
    ensures
        match reads_spec(
            int_read_view(byte),
            match bit {
                Some(b) => Some(int_read_view(b)),
                None => None,
            },
        ) {
            Ok((a, b)) => r == Ok::<Offset, OffsetError>(Offset { byte: a as usize, bit: b as usize }),
            Err(e) => r == Err::<Offset, OffsetError>(e),
        },
{
    let byte_value = match byte {
        None => return Err(OffsetError::NotAnOffset),
        Some((sfx, value)) => {
            if sfx.as_str().unicode_len() != 0 {
                return Err(OffsetError::ByteSuffix);
            }
            match value {
                None => return Err(OffsetError::TooLarge),
                Some(v) => v,
            }
        },
    };
    let bit_value = match bit {
        None => 0,
        Some(read) => match read {
            None => return Err(OffsetError::NotAnOffset),
            Some((sfx, value)) => {
                if sfx.as_str().unicode_len() != 0 {
                    return Err(OffsetError::BitSuffix);
                }
                match value {
                    None => return Err(OffsetError::TooLarge),
                    Some(v) => {
                        if v >= 8 {
                            return Err(OffsetError::BitRange);
                        }
                        v
                    },
                }
            },
        },
    };
    Ok(Offset { byte: byte_value, bit: bit_value })
}

/// Reads `byte[.bit]` from its literal texts.
fn parse_ints(byte: &str, bit: Option<&str>) -> (r: Result<Offset, OffsetError>)
    ensures
        match offset_spec(byte@, match bit { Some(b) => Some(b@), None => None }) {
            Ok((a, b)) => r == Ok::<Offset, OffsetError>(Offset { byte: a as usize, bit: b as usize }),
            Err(e) => r == Err::<Offset, OffsetError>(e),
        },
{
    let b = read_int(byte);
    match bit {
        Some(t) => offset_from_reads(b, Some(read_int(t))),
        None => offset_from_reads(b, None),
    }
}

impl Offset {
    /// Reads an offset written `byte.bit` or `byte`: the bit must be 0-7,
    /// and no literal may have a type suffix.
    pub fn parse(lit: &OffsetLit) -> (r: Result<Offset, OffsetError>)
        ensures
            match offset_lit_spec(*lit) {
                Ok((a, b)) => r == Ok::<Offset, OffsetError>(Offset { byte: a as usize, bit: b as usize }),
                Err(e) => r == Err::<Offset, OffsetError>(e),
            },
    {
        match lit {
            OffsetLit::Float { text } => {
                let t = text.as_str();
                match read_float(t) {
                    None => return Err(OffsetError::NotAnOffset),
                    Some(sfx) => {
                        if sfx.as_str().unicode_len() != 0 {
                            return Err(OffsetError::Suffix);
                        }
                    },
                }
                let n = t.unicode_len();
                let mut dot: usize = 0;
                while dot < n && t.get_char(dot) != '.'
                    invariant
                        n == t@.len(),
                        dot <= n,
                        forall|k: int| 0 <= k < dot ==> t@[k] != '.',
                    decreases n - dot,
                {
                    dot = dot + 1;
                }
                if dot == n {
                    return Err(OffsetError::NotAnOffset);
                }
                proof {
                    assert(t@[dot as int] == '.');
                    let f = first_dot(t@);
                    assert(0 <= f < t@.len() && t@[f] == '.' && forall|k: int| 0 <= k < f ==> t@[k] != '.');
                    assert(f == dot) by {
                        if f < dot {
                            assert(t@[f] != '.');
                        } else if f > dot {
                            assert(t@[dot as int] != '.');
                        }
                    }
                }
                if dot + 1 == n {
                    return Err(OffsetError::MissingBit);
                }
                let byte = t.substring_char(0, dot);
                let bit = t.substring_char(dot + 1, n);
                parse_ints(byte, Some(bit))
            },
            OffsetLit::Ints { byte, bit } => {
                match bit {
                    Some(b) => parse_ints(byte.as_str(), Some(b.as_str())),
                    None => parse_ints(byte.as_str(), None),
                }
            },
        }
    }
}

} // verus!
