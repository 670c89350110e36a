//! NUL-terminated string views over integer buffers.
use vstd::prelude::*;
use vstd::slice::slice_subrange;
use crate::chars::Character;

verus! {

/// The ordinals of a sequence of integer units of kind `C`.
pub open spec fn ords<C: Character>(codes: Seq<C::IntRepr>) -> Seq<u32> {
    codes.map_values(|i: C::IntRepr| C::int_ord(i))
}

/// Whether `codes` is one NUL-terminated run of valid characters of kind `C`:
/// not empty, NUL at the end, no NUL before it.
pub open spec fn is_nul_terminated<C: Character>(codes: Seq<C::IntRepr>) -> bool {
    &&& codes.len() >= 1
    &&& C::int_ord(codes.last()) == 0
    &&& forall|j: int| 0 <= j < codes.len() ==> C::valid_int(#[trigger] codes[j])
    &&& forall|j: int| 0 <= j < codes.len() - 1 ==> C::int_ord(#[trigger] codes[j]) != 0
}

/// Whether the units before position `p` are valid characters other than NUL.
pub open spec fn clean_prefix<C: Character>(codes: Seq<C::IntRepr>, p: int) -> bool {
    forall|j: int| 0 <= j < p ==> C::valid_int(#[trigger] codes[j]) && C::int_ord(codes[j]) != 0
}

/// A borrowed NUL-terminated string of characters of kind `C`.
pub struct CStr<'a, C: Character> {
    codes: &'a [C::IntRepr],
}

/// Errors of the checked conversion from integer units to a string.
#[derive(Clone, Copy, Debug, PartialEq, Eq, Structural)]
pub enum FromIntsWithNulError {
    /// An invalid character was encountered before the end of the slice.
    InvalidChar(usize),
    /// A NUL character was encountered before the end of the slice.
    InteriorNul(usize),
    /// The slice was not NUL-terminated.
    NotNulTerminated,
}

impl<'a, C: Character> CStr<'a, C> {
    #[verifier::type_invariant]
    spec fn inv(self) -> bool {
        is_nul_terminated::<C>(self.codes@)
    }

    /// The integer units of this string, terminator included.
    pub closed spec fn units(self) -> Seq<C::IntRepr> {
        self.codes@
    }

    /// The ordinals of this string, terminator included.
    pub open spec fn view(self) -> Seq<u32> {
        ords::<C>(self.units())
    }

    /// Creates a string from a NUL-terminated slice of integer units, checking
    /// each unit in order and reporting the first one at fault.
    pub fn from_ints_with_nul(codes: &'a [C::IntRepr]) -> (r: Result<CStr<'a, C>, FromIntsWithNulError>)
        ensures
            r is Ok <==> is_nul_terminated::<C>(codes@),
            r matches Ok(s) ==> s.units() == codes@,
            r matches Err(FromIntsWithNulError::InvalidChar(p)) ==> {
                &&& p < codes@.len()
                &&& clean_prefix::<C>(codes@, p as int)
                &&& !C::valid_int(codes@[p as int])
            },
            r matches Err(FromIntsWithNulError::InteriorNul(p)) ==> {
                &&& p + 1 < codes@.len()
                &&& clean_prefix::<C>(codes@, p as int)
                &&& C::valid_int(codes@[p as int])
                &&& C::int_ord(codes@[p as int]) == 0
            },
            r matches Err(FromIntsWithNulError::NotNulTerminated) ==> clean_prefix::<C>(
                codes@,
                codes@.len() as int,
            ),
    {
        let n = codes.len();
        let mut pos: usize = 0;
        while pos < n
            invariant
                n == codes@.len(),
                pos <= n,
                clean_prefix::<C>(codes@, pos as int),
            decreases n - pos,
        {
            match C::from_int(codes[pos]) {
                Ok(c) => {
                    proof {
                        C::lemma_valid_int(codes@[pos as int]);
                        C::lemma_of_ord(C::int_ord(codes@[pos as int]));
                    }
                    if c.is_nul() {
                        if pos != n - 1 {
                            assert(C::int_ord(codes@[pos as int]) == 0);
                            return Err(FromIntsWithNulError::InteriorNul(pos));
                        } else {
                            return Ok(CStr { codes });
                        }
                    }
                },
                Err(_) => {
                    return Err(FromIntsWithNulError::InvalidChar(pos));
                },
            }
            pos = pos + 1;
        }
        Err(FromIntsWithNulError::NotNulTerminated)
    }

    /// Creates a string from integer units already known to form one
    /// NUL-terminated run of valid characters.
    pub fn from_ints_with_nul_unchecked(codes: &'a [C::IntRepr]) -> (r: CStr<'a, C>)
        requires
            is_nul_terminated::<C>(codes@),
        ensures
            r.units() == codes@,
    {
        CStr { codes }
    }

    /// The integer units of this string, without the terminator.
    pub fn to_ints_slice(&self) -> (r: &'a [C::IntRepr])
        ensures
            r@ == self.units().drop_last(),
    {
        proof {
            use_type_invariant(self);
        }
        slice_subrange(self.codes, 0, self.codes.len() - 1)
    }

    /// The integer units of this string, terminator included; they always
    /// form one NUL-terminated run of valid characters.
    pub fn to_ints_slice_with_nul(&self) -> (r: &'a [C::IntRepr])
        ensures
            r@ == self.units(),
            is_nul_terminated::<C>(r@),
    {
        proof {
            use_type_invariant(self);
        }
        self.codes
    }
}

} // verus!
