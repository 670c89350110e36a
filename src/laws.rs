//! Laws of the character conversions and of the encoder.
use vstd::prelude::*;
use crate::chars::{
    CharConversionError, Char16, Char8, Character, spec_from_char, spec_from_int,
};
use crate::encoder::{
    all_nonempty, byte_len, committed, convertible, encode_outcome, joined, lemma_committed_at,
    lemma_joined_split, lemma_joined_step, lemma_scan_past_room, lemma_scan_prefix_error,
    lemma_units_concat, scan_error, units, StrEncodeError,
};

verus! {

/// Whether every character of `cs` is other than NUL and fits kind `C`.
pub open spec fn encodable<C: Character>(cs: Seq<char>) -> bool {
    forall|j: int| 0 <= j < cs.len() ==> (#[trigger] cs[j]) != '\0' && convertible::<C>(cs[j])
}

/// A Latin-1 character is made from every scalar value up to 0xFF, and holds
/// that value; every wider scalar value is refused as too wide.
pub proof fn lemma_char8_from_char(c: char)
    ensures
        c as u32 <= 0xFF ==> (spec_from_char::<Char8>(c) matches Ok(x) && x.ord() == c as u32),
        c as u32 > 0xFF ==> spec_from_char::<Char8>(c) == Err::<Char8, CharConversionError>(
            CharConversionError::TooWide,
        ),
{
    if c as u32 <= 0xFF {
        Char8::lemma_of_ord(c as u32);
    }
}

/// A UCS-2 character is made from a scalar value exactly when it is at most
/// 0xFFFF, and then holds that value.
pub proof fn lemma_char16_from_char(c: char)
    ensures
        c as u32 <= 0xFFFF ==> (spec_from_char::<Char16>(c) matches Ok(x) && x.ord() == c as u32),
        c as u32 > 0xFFFF ==> spec_from_char::<Char16>(c) == Err::<Char16, CharConversionError>(
            CharConversionError::TooWide,
        ),
{
    if c as u32 <= 0xFFFF {
        Char16::lemma_of_ord(c as u32);
    }
}

/// A 16-bit unit is refused as an invalid character exactly when it lies in
/// the surrogate range; every other unit gives the character with its value.
pub proof fn lemma_char16_from_int(i: u16)
    ensures
        0xD800 <= i <= 0xDFFF ==> spec_from_int::<Char16>(i) == Err::<Char16, CharConversionError>(
            CharConversionError::InvalidChar,
        ),
        !(0xD800 <= i <= 0xDFFF) ==> (spec_from_int::<Char16>(i) matches Ok(x) && x.ord() == i as u32),
{
    if !(0xD800 <= i <= 0xDFFF) {
        Char16::lemma_of_ord(i as u32);
    }
}

/// Text of encodable characters meets no content error.
proof fn lemma_encodable_no_error<C: Character>(cs: Seq<char>, cap: nat)
    requires
        encodable::<C>(cs),
    ensures
        scan_error::<C>(cs, cap) is None,
    decreases cs.len(),
{
    if cs.len() > 0 {
        let dl = cs.drop_last();
        assert forall|j: int| 0 <= j < dl.len() implies (#[trigger] dl[j]) != '\0'
            && convertible::<C>(dl[j]) by {
            assert(dl[j] == cs[j]);
        }
        assert(cs.last() == cs[cs.len() - 1]);
        lemma_encodable_no_error::<C>(cs.drop_last(), cap);
    }
}

/// Text that met no content error and fit whole was encodable.
proof fn lemma_fitting_encodable<C: Character>(cs: Seq<char>, cap: nat)
    requires
        scan_error::<C>(cs, cap) is None,
        units(cs).len() <= cap,
    ensures
        encodable::<C>(cs),
    decreases cs.len(),
{
    if cs.len() > 0 {
        let dl = cs.drop_last();
        lemma_fitting_encodable::<C>(dl, cap);
        assert forall|j: int| 0 <= j < cs.len() implies (#[trigger] cs[j]) != '\0'
            && convertible::<C>(cs[j]) by {
            if j < cs.len() - 1 {
                assert(cs[j] == dl[j]);
            }
        }
    }
}

/// Every character gives at least one unit.
proof fn lemma_units_len(cs: Seq<char>)
    ensures
        units(cs).len() >= cs.len(),
    decreases cs.len(),
{
    if cs.len() > 0 {
        lemma_units_len(cs.drop_last());
    }
}

/// The committed clusters fit.
proof fn lemma_committed_fits(gs: Seq<Seq<char>>, cap: nat)
    ensures
        committed(gs, cap) <= gs.len(),
        units(joined(gs.take(committed(gs, cap) as int))).len() <= cap || committed(gs, cap) == 0,
    decreases gs.len(),
{
    if units(joined(gs)).len() <= cap {
        assert(gs.take(gs.len() as int) =~= gs);
    } else if gs.len() > 0 {
        let dl = gs.drop_last();
        lemma_committed_fits(dl, cap);
        assert(dl.take(committed(dl, cap) as int) =~= gs.take(committed(dl, cap) as int));
    }
}

/// With no room, no non-empty cluster is committed.
proof fn lemma_committed_no_room(gs: Seq<Seq<char>>)
    requires
        all_nonempty(gs),
    ensures
        committed(gs, 0) == 0,
    decreases gs.len(),
{
    if gs.len() > 0 {
        lemma_joined_step(gs, gs.len() - 1);
        assert(gs.take(gs.len() as int) =~= gs);
        assert(gs.take(gs.len() - 1) =~= gs.drop_last());
        assert(gs[gs.len() - 1].len() > 0);
        lemma_units_len(joined(gs));
        assert(all_nonempty(gs.drop_last())) by {
            assert forall|k: int| 0 <= k < gs.drop_last().len() implies (#[trigger] gs.drop_last()[
                k
            ]).len() > 0 by {
                assert(gs.drop_last()[k] == gs[k]);
            }
        }
        lemma_committed_no_room(gs.drop_last());
    }
}

/// Round trip: text of encodable characters whose units, line feeds doubled,
/// fit the room is encoded whole, with nothing left over; the string holds
/// its units followed by the terminator.
pub proof fn lemma_encode_round_trip<C: Character>(gs: Seq<Seq<char>>, cap: nat)
    requires
        all_nonempty(gs),
        encodable::<C>(joined(gs)),
        units(joined(gs)).len() <= cap,
    ensures
        encode_outcome::<C>(gs, cap) == Ok::<nat, StrEncodeError>(gs.len()),
        joined(gs.take(gs.len() as int)) == joined(gs),
{
    lemma_encodable_no_error::<C>(joined(gs), cap);
    assert(gs.take(gs.len() as int) =~= gs);
}

/// With room for the terminator only, text whose first character is
/// encodable fails as too large for the buffer.
pub proof fn lemma_encode_no_room<C: Character>(gs: Seq<Seq<char>>)
    requires
        all_nonempty(gs),
        joined(gs).len() > 0,
        joined(gs)[0] != '\0',
        convertible::<C>(joined(gs)[0]),
    ensures
        encode_outcome::<C>(gs, 0) == Err::<nat, StrEncodeError>(StrEncodeError::BufferTooSmall),
{
    let cs = joined(gs);
    assert(cs.take(1).drop_last() =~= Seq::<char>::empty());
    assert(cs.take(1).last() == cs[0]);
    assert(units(Seq::<char>::empty()).len() == 0);
    assert(scan_error::<C>(Seq::<char>::empty(), 0) is None);
    assert(scan_error::<C>(cs.take(1), 0) is None);
    lemma_units_len(cs.take(1));
    lemma_scan_past_room::<C>(cs, 1, 0);
    lemma_committed_no_room(gs);
}

/// A NUL character reached with every character before it encodable fails
/// the whole call, at its byte offset, whatever follows.
pub proof fn lemma_encode_interior_nul<C: Character>(gs: Seq<Seq<char>>, cap: nat, j: int)
    requires
        0 <= j < joined(gs).len(),
        joined(gs)[j] == '\0',
        encodable::<C>(joined(gs).take(j)),
        units(joined(gs).take(j)).len() <= cap,
    ensures
        encode_outcome::<C>(gs, cap) == Err::<nat, StrEncodeError>(
            StrEncodeError::InteriorNul(byte_len(joined(gs).take(j)) as usize),
        ),
{
    let cs = joined(gs);
    lemma_encodable_no_error::<C>(cs.take(j), cap);
    assert(cs.take(j + 1).drop_last() =~= cs.take(j));
    assert(cs.take(j + 1).last() == cs[j]);
    lemma_scan_prefix_error::<C>(cs, j + 1, cap);
}

/// Truncation keeps whole clusters: where cluster `k` is the first that does
/// not fit and every character up to its end is encodable, exactly the `k`
/// clusters before it are committed, so what is left starts at cluster `k`.
pub proof fn lemma_encode_truncates_at_cluster<C: Character>(gs: Seq<Seq<char>>, cap: nat, k: int)
    requires
        0 < k < gs.len(),
        units(joined(gs.take(k))).len() <= cap,
        units(joined(gs.take(k + 1))).len() > cap,
        encodable::<C>(joined(gs.take(k + 1))),
    ensures
        encode_outcome::<C>(gs, cap) == Ok::<nat, StrEncodeError>(k as nat),
{
    let cs = joined(gs);
    let head = joined(gs.take(k + 1));
    lemma_joined_split(gs, k + 1);
    assert(cs.take(head.len() as int) =~= head);
    lemma_encodable_no_error::<C>(head, cap);
    lemma_scan_past_room::<C>(cs, head.len() as int, cap);
    lemma_committed_at(gs, k, cap);
}

/// Resuming: where an encoding committed `k` clusters and encoding the rest
/// committed all of it, the two strings together are the units of the whole
/// text, which an encoding with room for everything gives in one call.
pub proof fn lemma_encode_resume<C: Character>(
    gs: Seq<Seq<char>>,
    cap1: nat,
    cap2: nat,
    k: nat,
)
    requires
        all_nonempty(gs),
        encode_outcome::<C>(gs, cap1) == Ok::<nat, StrEncodeError>(k),
        k <= gs.len(),
        encode_outcome::<C>(gs.skip(k as int), cap2) == Ok::<nat, StrEncodeError>(
            (gs.len() - k) as nat,
        ),
    ensures
        units(joined(gs.take(k as int))) + units(joined(gs.skip(k as int).take(gs.len() - k)))
            == units(joined(gs)),
        encode_outcome::<C>(gs, units(joined(gs)).len()) == Ok::<nat, StrEncodeError>(gs.len()),
{
    let cs = joined(gs);
    let head = joined(gs.take(k as int));
    let rest = gs.skip(k as int);
    lemma_joined_split(gs, k as int);
    lemma_units_concat(head, joined(rest));
    assert(rest.take(gs.len() - k) =~= rest);
    // the committed head met no error and fit
    lemma_committed_fits(gs, cap1);
    if k > 0 {
        assert(cs.take(head.len() as int) =~= head);
        if scan_error::<C>(head, cap1) is Some {
            lemma_scan_prefix_error::<C>(cs, head.len() as int, cap1);
        }
        lemma_fitting_encodable::<C>(head, cap1);
    } else {
        assert(gs.take(0) =~= Seq::<Seq<char>>::empty());
    }
    // the rest met no error and fit whole
    lemma_committed_fits(rest, cap2);
    if rest.len() > 0 {
        lemma_fitting_encodable::<C>(joined(rest), cap2);
    } else {
        assert(rest =~= Seq::<Seq<char>>::empty());
    }
    assert(encodable::<C>(cs)) by {
        assert forall|j: int| 0 <= j < cs.len() implies (#[trigger] cs[j]) != '\0'
            && convertible::<C>(cs[j]) by {
            if j < head.len() {
                assert(cs[j] == head[j]);
            } else {
                assert(cs[j] == joined(rest)[j - head.len()]);
            }
        }
    }
    lemma_encode_round_trip::<C>(gs, units(cs).len());
}

} // verus!
