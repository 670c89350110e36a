//! The two character kinds of firmware text and their checked conversions.
use vstd::prelude::*;

verus! {

/// The carriage return that precedes every line feed in firmware text.
pub const CARRIAGE_RETURN_ORD: u32 = 13;

/// Whether `v` is a Unicode scalar value: at most 0x10FFFF and not a surrogate.
pub open spec fn is_scalar(v: u32) -> bool {
    v <= 0x10FFFF && !(0xD800 <= v && v <= 0xDFFF)
}

/// Relies on `char::from_u32`: `Some` exactly for a Unicode scalar value, holding it.
#[verifier::external_body]
fn char_from_u32(v: u32) -> (r: Option<char>)
    ensures
        r is Some <==> is_scalar(v),
        r matches Some(c) ==> c as u32 == v,
{
    char::from_u32(v)
}

/// Relies on `u32::from(char)`: a `char` is always a Unicode scalar value, and
/// the conversion gives that value.
#[verifier::external_body]
pub(crate) fn scalar_of(c: char) -> (r: u32)
    ensures
        r == c as u32,
        is_scalar(r),
{
    u32::from(c)
}

/// Error of a failed character conversion.
#[derive(Clone, Copy, Debug, PartialEq, Eq, Structural)]
pub enum CharConversionError {
    /// The input is a valid Unicode code point, but too wide for this kind.
    TooWide,
    /// The input is not a valid Unicode code point.
    InvalidChar,
}

/// A character kind of firmware text: a fixed-width unit whose value is a
/// Unicode scalar value that fits the width.
pub trait Character: Sized + Copy {
    /// The integer unit that stores one character of this kind.
    type IntRepr: Copy;

    /// The scalar value that this character stands for.
    spec fn ord(self) -> u32;

    /// The numeric value of an integer unit.
    spec fn int_ord(i: Self::IntRepr) -> u32;

    /// The largest ordinal that fits this kind's width.
    spec fn max_ord() -> u32;

    /// Whether an integer unit of this kind holds a valid character.
    spec fn valid_int(i: Self::IntRepr) -> bool;

    /// The character of this kind with ordinal `v`.
    spec fn of_ord(v: u32) -> Self;

    /// The ordinal of the replacement character of this kind.
    spec fn replacement_ord() -> u32;

    /// A character made from an ordinal that fits has that ordinal.
    proof fn lemma_of_ord(v: u32)
        requires
            v <= Self::max_ord(),
        ensures
            Self::of_ord(v).ord() == v,
    ;

    /// Every kind holds at least the Latin-1 range.
    proof fn lemma_max_ord()
        ensures
            Self::max_ord() >= 0xFF,
    ;

    /// Characters with equal ordinals are equal.
    proof fn lemma_ord_injective(a: Self, b: Self)
        requires
            a.ord() == b.ord(),
        ensures
            a == b,
    ;

    /// The unit of ordinal 0 is a valid character, NUL.
    proof fn lemma_zero_valid(i: Self::IntRepr)
        requires
            Self::int_ord(i) == 0,
        ensures
            Self::valid_int(i),
    ;

    /// A valid integer unit holds a scalar value that fits this kind.
    proof fn lemma_valid_int(i: Self::IntRepr)
        requires
            Self::valid_int(i),
        ensures
            Self::int_ord(i) <= Self::max_ord(),
            is_scalar(Self::int_ord(i)),
    ;

    /// Converts a scalar value; fails with `TooWide` where it does not fit.
    fn from_char(c: char) -> (r: Result<Self, CharConversionError>)
        ensures
            r == (if c as u32 <= Self::max_ord() {
                Ok(Self::of_ord(c as u32))
            } else {
                Err(CharConversionError::TooWide)
            }),
    ;

    /// Converts an integer unit; fails with `InvalidChar` where it is no character.
    fn from_int(i: Self::IntRepr) -> (r: Result<Self, CharConversionError>)
        ensures
            r == (if Self::valid_int(i) {
                Ok(Self::of_ord(Self::int_ord(i)))
            } else {
                Err(CharConversionError::InvalidChar)
            }),
    ;

    /// The scalar value of this character.
    fn to_char(self) -> (r: char)
        ensures
            r as u32 == self.ord(),
    ;

    /// The integer unit of this character.
    fn to_int(self) -> (r: Self::IntRepr)
        ensures
            Self::int_ord(r) == self.ord(),
            Self::valid_int(r),
    ;

    /// The NUL character, which terminates strings.
    fn nul() -> (r: Self)
        ensures
            r.ord() == 0,
    ;

    /// The character to put in place of one that cannot be converted.
    fn replacement() -> (r: Self)
        ensures
            r.ord() == Self::replacement_ord(),
            r.ord() <= Self::max_ord(),
            r.ord() != 0,
    ;

    /// The carriage return character.
    fn carriage_return() -> (r: Self)
        ensures
            r.ord() == CARRIAGE_RETURN_ORD,
    ;

    /// Whether this character is NUL.
    fn is_nul(&self) -> (r: bool)
        ensures
            r == (self.ord() == 0),
    ;
}

/// What the conversion from a scalar value gives.
pub open spec fn spec_from_char<C: Character>(c: char) -> Result<C, CharConversionError> {
    if c as u32 <= C::max_ord() {
        Ok(C::of_ord(c as u32))
    } else {
        Err(CharConversionError::TooWide)
    }
}

/// What the conversion from an integer unit gives.
pub open spec fn spec_from_int<C: Character>(i: C::IntRepr) -> Result<C, CharConversionError> {
    if C::valid_int(i) {
        Ok(C::of_ord(C::int_ord(i)))
    } else {
        Err(CharConversionError::InvalidChar)
    }
}

/// A Latin-1 character.
#[derive(Clone, Copy, Debug, PartialEq, Eq, Structural, PartialOrd, Ord)]
pub struct Char8(u8);

impl Char8 {
    /// Every byte is a Latin-1 character.
    pub fn from_u8(value: u8) -> (r: Char8)
        ensures
            r == Char8::of_ord(value as u32),
            r.ord() == value as u32,
    {
        Char8(value)
    }

    /// The byte of this character.
    pub fn to_u8(self) -> (r: u8)
        ensures
            r as u32 == self.ord(),
    {
        self.0
    }
}

impl Character for Char8 {
    type IntRepr = u8;

    closed spec fn ord(self) -> u32 {
        self.0 as u32
    }

    open spec fn int_ord(i: u8) -> u32 {
        i as u32
    }

    open spec fn max_ord() -> u32 {
        0xFF
    }

    open spec fn replacement_ord() -> u32 {
        0x3F
    }

    open spec fn valid_int(i: u8) -> bool {
        true
    }

    closed spec fn of_ord(v: u32) -> Char8 {
        Char8(v as u8)
    }

    proof fn lemma_of_ord(v: u32) {
    }

    proof fn lemma_valid_int(i: Self::IntRepr) {
    }

    proof fn lemma_max_ord() {
    }

    proof fn lemma_ord_injective(a: Self, b: Self) {
    }

    proof fn lemma_zero_valid(i: Self::IntRepr) {
    }


    fn from_char(c: char) -> (r: Result<Char8, CharConversionError>) {
        let code_point = scalar_of(c);
        if code_point <= 0xFF {
            Ok(Char8(code_point as u8))
        } else {
            Err(CharConversionError::TooWide)
        }
    }

    fn from_int(i: u8) -> (r: Result<Char8, CharConversionError>) {
        Ok(Char8(i))
    }

    fn to_char(self) -> (r: char) {
        self.0 as char
    }

    fn to_int(self) -> (r: u8) {
        self.0
    }

    fn nul() -> (r: Char8) {
        Char8(0)
    }

    fn replacement() -> (r: Char8) {
        Char8(0x3F)
    }

    fn carriage_return() -> (r: Char8) {
        Char8(13)
    }

    fn is_nul(&self) -> (r: bool) {
        self.0 == 0
    }
}

/// A UCS-2 code point: a scalar value of the basic multilingual plane.
#[derive(Clone, Copy, Debug, PartialEq, Eq, Structural, PartialOrd, Ord)]
pub struct Char16(u16);

impl Char16 {
    #[verifier::type_invariant]
    spec fn inv(self) -> bool {
        is_scalar(self.0 as u32)
    }
}

impl Character for Char16 {
    type IntRepr = u16;

    closed spec fn ord(self) -> u32 {
        self.0 as u32
    }

    open spec fn int_ord(i: u16) -> u32 {
        i as u32
    }

    open spec fn max_ord() -> u32 {
        0xFFFF
    }

    open spec fn replacement_ord() -> u32 {
        0xFFFD
    }

    open spec fn valid_int(i: u16) -> bool {
        is_scalar(i as u32)
    }

    closed spec fn of_ord(v: u32) -> Char16 {
        Char16(v as u16)
    }

    proof fn lemma_of_ord(v: u32) {
    }

    proof fn lemma_valid_int(i: Self::IntRepr) {
    }

    proof fn lemma_max_ord() {
    }

    proof fn lemma_ord_injective(a: Self, b: Self) {
    }

    proof fn lemma_zero_valid(i: Self::IntRepr) {
    }


    fn from_char(c: char) -> (r: Result<Char16, CharConversionError>) {
        let code_point = scalar_of(c);
        if code_point <= 0xFFFF {
            Ok(Char16(code_point as u16))
        } else {
            Err(CharConversionError::TooWide)
        }
    }

    fn from_int(i: u16) -> (r: Result<Char16, CharConversionError>) {
        match char_from_u32(i as u32) {
            Some(c) => Self::from_char(c),
            None => Err(CharConversionError::InvalidChar),
        }
    }

    fn to_char(self) -> (r: char) {
        proof {
            use_type_invariant(self);
        }
        match char_from_u32(self.0 as u32) {
            Some(c) => c,
            None => '\u{FFFD}',
        }
    }

    fn to_int(self) -> (r: u16) {
        proof {
            use_type_invariant(self);
        }
        self.0
    }

    fn nul() -> (r: Char16) {
        Char16(0)
    }

    fn replacement() -> (r: Char16) {
        Char16(0xFFFD)
    }

    fn carriage_return() -> (r: Char16) {
        Char16(13)
    }

    fn is_nul(&self) -> (r: bool) {
        self.0 == 0
    }
}

} // verus!
