//! Transcoding native text into firmware strings, truncated at grapheme
//! cluster boundaries when the output buffer runs out.
use vstd::prelude::*;
use vstd::slice::slice_subrange;
use vstd::string::StrSliceExecFns;
use vstd::utf8::encode_utf8;
use unicode_segmentation::UnicodeSegmentation;
use crate::chars::{Character, CARRIAGE_RETURN_ORD, scalar_of};
use crate::strs::{CStr, is_nul_terminated};

verus! {

/// Things that can go wrong when encoding native text.
#[derive(Clone, Copy, Debug, PartialEq, Eq, Structural)]
pub enum StrEncodeError {
    /// Not enough output space to encode even the first grapheme cluster.
    BufferTooSmall,
    /// The input holds a character with no equivalent in the output
    /// encoding, at the given byte offset.
    UnsupportedChar(usize),
    /// The input holds a NUL character at the given byte offset.
    InteriorNul(usize),
}

/// The units that one input character becomes: a line feed is preceded by a
/// carriage return.
pub open spec fn char_units(c: char) -> Seq<u32> {
    if c == '\n' {
        seq![CARRIAGE_RETURN_ORD, c as u32]
    } else {
        seq![c as u32]
    }
}

/// The units that a sequence of input characters becomes.
pub open spec fn units(cs: Seq<char>) -> Seq<u32>
    decreases cs.len(),
{
    if cs.len() == 0 {
        Seq::empty()
    } else {
        units(cs.drop_last()) + char_units(cs.last())
    }
}

/// The characters of a sequence of clusters, one after the other.
pub open spec fn joined(gs: Seq<Seq<char>>) -> Seq<char>
    decreases gs.len(),
{
    if gs.len() == 0 {
        Seq::empty()
    } else {
        joined(gs.drop_last()) + gs.last()
    }
}

/// The characters of each of a sequence of string slices.
pub open spec fn cluster_views(v: Seq<&str>) -> Seq<Seq<char>> {
    v.map_values(|g: &str| g@)
}

/// Whether each cluster holds at least one character.
pub open spec fn all_nonempty(gs: Seq<Seq<char>>) -> bool {
    forall|k: int| 0 <= k < gs.len() ==> (#[trigger] gs[k]).len() > 0
}

/// The byte offset that follows the characters `cs` in UTF-8 text.
pub open spec fn byte_len(cs: Seq<char>) -> nat {
    encode_utf8(cs).len()
}

/// Whether character kind `C` can represent `c`.
pub open spec fn convertible<C: Character>(c: char) -> bool {
    c as u32 <= C::max_ord()
}

/// The first content error met while encoding `cs` with `cap` units of room:
/// a character is examined only when every character before it was written.
pub open spec fn scan_error<C: Character>(cs: Seq<char>, cap: nat) -> Option<StrEncodeError>
    decreases cs.len(),
{
    if cs.len() == 0 {
        None
    } else {
        let p = cs.drop_last();
        match scan_error::<C>(p, cap) {
            Some(e) => Some(e),
            None => if units(p).len() <= cap && cs.last() == '\0' {
                Some(StrEncodeError::InteriorNul(byte_len(p) as usize))
            } else if units(p).len() <= cap && !convertible::<C>(cs.last()) {
                Some(StrEncodeError::UnsupportedChar(byte_len(p) as usize))
            } else {
                None
            },
        }
    }
}

/// How many leading clusters fit, whole, in `cap` units.
pub open spec fn committed(gs: Seq<Seq<char>>, cap: nat) -> nat
    decreases gs.len(),
{
    if units(joined(gs)).len() <= cap {
        gs.len()
    } else {
        committed(gs.drop_last(), cap)
    }
}

/// The outcome of encoding clusters `gs` with `cap` units of room before the
/// terminator: the number of clusters written, or the error.
pub open spec fn encode_outcome<C: Character>(gs: Seq<Seq<char>>, cap: nat) -> Result<nat, StrEncodeError> {
    match scan_error::<C>(joined(gs), cap) {
        Some(e) => Err(e),
        None => {
            let k = committed(gs, cap);
            if k == 0 && joined(gs).len() > 0 {
                Err(StrEncodeError::BufferTooSmall)
            } else {
                Ok(k)
            }
        },
    }
}


/// The units of a concatenation are the units of its parts, in order.
pub proof fn lemma_units_concat(a: Seq<char>, b: Seq<char>)
    ensures
        units(a + b) == units(a) + units(b),
    decreases b.len(),
{
    if b.len() == 0 {
        assert(a + b =~= a);
        assert(units(a) + units(b) =~= units(a));
    } else {
        assert((a + b).drop_last() =~= a + b.drop_last());
        assert((a + b).last() == b.last());
        lemma_units_concat(a, b.drop_last());
        assert(units(a + b) =~= units(a) + units(b));
    }
}

/// The characters of the first `k + 1` clusters are those of the first `k`
/// followed by cluster `k`.
pub proof fn lemma_joined_step(gs: Seq<Seq<char>>, k: int)
    requires
        0 <= k < gs.len(),
    ensures
        joined(gs.take(k + 1)) == joined(gs.take(k)) + gs[k],
{
    assert(gs.take(k + 1).drop_last() =~= gs.take(k));
}

/// The characters of all clusters are those of the first `k` followed by
/// those of the rest.
pub proof fn lemma_joined_split(gs: Seq<Seq<char>>, k: int)
    requires
        0 <= k <= gs.len(),
    ensures
        joined(gs) == joined(gs.take(k)) + joined(gs.skip(k)),
    decreases gs.len(),
{
    if k == gs.len() {
        assert(gs.take(k) =~= gs);
        assert(gs.skip(k) =~= Seq::<Seq<char>>::empty());
        assert(joined(gs) + Seq::<char>::empty() =~= joined(gs));
    } else {
        let dl = gs.drop_last();
        lemma_joined_split(dl, k);
        assert(dl.take(k) =~= gs.take(k));
        assert(gs.skip(k).drop_last() =~= dl.skip(k));
        assert(gs.skip(k).last() == gs.last());
        assert(joined(gs) =~= joined(gs.take(k)) + joined(gs.skip(k)));
    }
}

/// The UTF-8 encoding of a concatenation is the encodings of its parts.
pub proof fn lemma_encode_utf8_concat(a: Seq<char>, b: Seq<char>)
    ensures
        encode_utf8(a + b) == encode_utf8(a) + encode_utf8(b),
    decreases a.len(),
{
    if a.len() == 0 {
        assert(a + b =~= b);
        assert(encode_utf8(a) + encode_utf8(b) =~= encode_utf8(b));
    } else {
        assert((a + b).drop_first() =~= a.drop_first() + b);
        assert((a + b)[0] == a[0]);
        lemma_encode_utf8_concat(a.drop_first(), b);
        assert(encode_utf8(a + b) =~= encode_utf8(a) + encode_utf8(b));
    }
}

/// Once the units written exceed the room, no later character is examined.
pub proof fn lemma_scan_past_room<C: Character>(cs: Seq<char>, j: int, cap: nat)
    requires
        0 <= j <= cs.len(),
        scan_error::<C>(cs.take(j), cap) is None,
        units(cs.take(j)).len() > cap,
    ensures
        scan_error::<C>(cs, cap) is None,
    decreases cs.len(),
{
    if j == cs.len() {
        assert(cs.take(j) =~= cs);
    } else {
        let dl = cs.drop_last();
        assert(dl.take(j) =~= cs.take(j));
        lemma_scan_past_room::<C>(dl, j, cap);
        assert(dl =~= dl.take(j) + dl.skip(j));
        lemma_units_concat(dl.take(j), dl.skip(j));
    }
}

/// An error met in a prefix is the error of the whole text.
pub proof fn lemma_scan_prefix_error<C: Character>(cs: Seq<char>, j: int, cap: nat)
    requires
        0 <= j <= cs.len(),
        scan_error::<C>(cs.take(j), cap) is Some,
    ensures
        scan_error::<C>(cs, cap) == scan_error::<C>(cs.take(j), cap),
    decreases cs.len(),
{
    if j == cs.len() {
        assert(cs.take(j) =~= cs);
    } else {
        let dl = cs.drop_last();
        assert(dl.take(j) =~= cs.take(j));
        lemma_scan_prefix_error::<C>(dl, j, cap);
    }
}

/// Where cluster `k` is the first that does not fit, `k` clusters are committed.
pub proof fn lemma_committed_at(gs: Seq<Seq<char>>, k: int, cap: nat)
    requires
        0 <= k < gs.len(),
        units(joined(gs.take(k))).len() <= cap,
        units(joined(gs.take(k + 1))).len() > cap,
    ensures
        committed(gs, cap) == k,
    decreases gs.len(),
{
    lemma_joined_split(gs, k + 1);
    lemma_units_concat(joined(gs.take(k + 1)), joined(gs.skip(k + 1)));
    let dl = gs.drop_last();
    assert(units(joined(gs)).len() > cap);
    if gs.len() == k + 1 {
        assert(dl =~= gs.take(k));
        assert(committed(dl, cap) == k);
    } else {
        assert(dl.take(k) =~= gs.take(k));
        assert(dl.take(k + 1) =~= gs.take(k + 1));
        lemma_committed_at(dl, k, cap);
    }
    assert(committed(gs, cap) == committed(dl, cap));
}


/// The number of UTF-8 bytes of `c`.
fn utf8_width(c: char) -> (w: usize)
    ensures
        w == encode_utf8(seq![c]).len(),
        1 <= w <= 4,
{
    let v = scalar_of(c);
    proof {
        assert(seq![c].drop_first() =~= Seq::<char>::empty());
        assert(encode_utf8(Seq::<char>::empty()).len() == 0);
        assert(seq![c][0] == c);
        assert(encode_utf8(seq![c]) == vstd::utf8::encode_scalar(v) + encode_utf8(
            Seq::<char>::empty(),
        ));
    }
    if v < 0x80 {
        1
    } else if v < 0x800 {
        2
    } else if v < 0x10000 {
        3
    } else {
        4
    }
}

/// Whether the first units of `buf` hold the non-NUL units `u` as valid
/// characters of kind `C`.
pub open spec fn holds_units<C: Character>(buf: Seq<C::IntRepr>, u: Seq<u32>) -> bool {
    &&& u.len() <= buf.len()
    &&& forall|j: int|
        0 <= j < u.len() ==> C::int_ord(#[trigger] buf[j]) == u[j] && C::valid_int(buf[j]) && u[j]
            != 0
}

/// Every character takes at least one byte.
proof fn lemma_byte_len_bound(cs: Seq<char>)
    ensures
        cs.len() <= byte_len(cs),
    decreases cs.len(),
{
    if cs.len() > 0 {
        lemma_byte_len_bound(cs.drop_first());
    }
}

/// What one more input character adds to the units and to the byte offset.
proof fn lemma_char_step(cs: Seq<char>, pos: int)
    requires
        0 <= pos < cs.len(),
    ensures
        cs.take(pos + 1) == cs.take(pos).push(cs[pos]),
        units(cs.take(pos + 1)) == units(cs.take(pos)) + char_units(cs[pos]),
        byte_len(cs.take(pos + 1)) == byte_len(cs.take(pos)) + encode_utf8(seq![cs[pos]]).len(),
        byte_len(cs.take(pos + 1)) <= byte_len(cs),
{
    let p = cs.take(pos);
    let c = cs[pos];
    assert(cs.take(pos + 1) =~= p.push(c));
    assert(p.push(c) =~= p + seq![c]);
    lemma_units_concat(p, seq![c]);
    assert(seq![c].drop_last() =~= Seq::<char>::empty());
    assert(units(seq![c]) =~= units(Seq::<char>::empty()) + char_units(c));
    assert(units(seq![c]) =~= char_units(c));
    lemma_encode_utf8_concat(p, seq![c]);
    lemma_encode_utf8_concat(cs.take(pos + 1), cs.skip(pos + 1));
    assert(cs =~= cs.take(pos + 1) + cs.skip(pos + 1));
}

/// What became of one cluster.
enum ClusterStep {
    /// Written whole: the new output length and input byte offset.
    Written(usize, usize),
    /// The room ran out inside it.
    Full,
    /// A content error inside it.
    Failed(StrEncodeError),
}

/// Writes cluster `g`, which stands at character `start` of text `cs`, into
/// `buffer` after the `o` units already there.
fn encode_cluster<C: Character>(
    g: &str,
    buffer: &mut [C::IntRepr],
    cap: usize,
    o: usize,
    byte: usize,
    Ghost(cs): Ghost<Seq<char>>,
    Ghost(start): Ghost<int>,
) -> (r: ClusterStep)
    requires
        cap < old(buffer)@.len(),
        0 <= start,
        start + g@.len() <= cs.len(),
        cs.subrange(start, start + g@.len()) == g@,
        byte_len(cs) <= usize::MAX,
        scan_error::<C>(cs.take(start), cap as nat) is None,
        o == units(cs.take(start)).len(),
        o <= cap,
        byte == byte_len(cs.take(start)),
        holds_units::<C>(old(buffer)@, units(cs.take(start))),
    ensures
        final(buffer)@.len() == old(buffer)@.len(),
        ({
            let q = start + g@.len();
            match r {
                ClusterStep::Written(o2, b2) => {
                    &&& scan_error::<C>(cs.take(q), cap as nat) is None
                    &&& o2 == units(cs.take(q)).len()
                    &&& o2 <= cap
                    &&& b2 == byte_len(cs.take(q))
                    &&& holds_units::<C>(final(buffer)@, units(cs.take(q)))
                },
                ClusterStep::Full => {
                    &&& scan_error::<C>(cs.take(q), cap as nat) is None
                    &&& units(cs.take(q)).len() > cap
                    &&& holds_units::<C>(final(buffer)@, units(cs.take(start)))
                },
                ClusterStep::Failed(e) => scan_error::<C>(cs.take(q), cap as nat) == Some(e),
            }
        }),
{
    let glen = g.unicode_len();
    let ghost q = start + glen;
    let ghost u0 = units(cs.take(start));
    let mut o = o;
    let mut byte = byte;
    let mut i: usize = 0;
    while i < glen
        invariant
            cap < buffer@.len(),
            buffer@.len() == old(buffer)@.len(),
            glen == g@.len(),
            q == start + glen,
            0 <= start,
            q <= cs.len(),
            cs.subrange(start, q) == g@,
            byte_len(cs) <= usize::MAX,
            u0 == units(cs.take(start)),
            i <= glen,
            scan_error::<C>(cs.take(start + i), cap as nat) is None,
            o == units(cs.take(start + i)).len(),
            o <= cap,
            byte == byte_len(cs.take(start + i)),
            holds_units::<C>(buffer@, units(cs.take(start + i))),
        decreases glen - i,
    {
        let c = g.get_char(i);
        let ghost pos = start + i;
        let ghost p = cs.take(pos);
        let ghost b0 = buffer@;
        proof {
            assert(cs[pos] == c) by {
                assert(cs.subrange(start, q)[i as int] == c);
            }
            lemma_char_step(cs, pos);
        }
        if c == '\0' {
            proof {
                assert(cs.take(q).take(pos + 1) =~= cs.take(pos + 1));
                assert(cs.take(pos + 1).drop_last() =~= p);
                assert(scan_error::<C>(cs.take(pos + 1), cap as nat) is Some);
                lemma_scan_prefix_error::<C>(cs.take(q), pos + 1, cap as nat);
            }
            return ClusterStep::Failed(StrEncodeError::InteriorNul(byte));
        }
        let mut w = o;
        let mut full = false;
        if c == '\n' {
            if w < cap {
                buffer[w] = C::carriage_return().to_int();
                w = w + 1;
            } else {
                full = true;
            }
        }
        if !full {
            match C::from_char(c) {
                Err(_) => {
                    proof {
                        assert(cs.take(q).take(pos + 1) =~= cs.take(pos + 1));
                        assert(cs.take(pos + 1).drop_last() =~= p);
                        assert(scan_error::<C>(cs.take(pos + 1), cap as nat) is Some);
                        lemma_scan_prefix_error::<C>(cs.take(q), pos + 1, cap as nat);
                    }
                    return ClusterStep::Failed(StrEncodeError::UnsupportedChar(byte));
                },
                Ok(x) => {
                    if w < cap {
                        proof {
                            C::lemma_of_ord(c as u32);
                        }
                        buffer[w] = x.to_int();
                        w = w + 1;
                    } else {
                        full = true;
                    }
                },
            }
        }
        if full {
            proof {
                C::lemma_max_ord();
                assert forall|j: int| 0 <= j < o implies buffer@[j] == b0[j] by {}
                assert(holds_units::<C>(buffer@, units(p)));
                assert(cs.take(pos + 1).drop_last() =~= p);
                assert(cs.take(pos + 1).last() == c);
                assert(scan_error::<C>(cs.take(pos + 1), cap as nat) is None);
                assert(units(cs.take(pos + 1)).len() > cap);
                assert(cs.take(q).take(pos + 1) =~= cs.take(pos + 1));
                lemma_scan_past_room::<C>(cs.take(q), pos + 1, cap as nat);
                assert(cs.take(q) =~= cs.take(pos + 1) + cs.take(q).skip(pos + 1));
                lemma_units_concat(cs.take(pos + 1), cs.take(q).skip(pos + 1));
                assert(units(cs.take(q)).len() > cap);
                assert(cs.take(q).take(start) =~= cs.take(start));
                assert(p =~= cs.take(start) + p.skip(start));
                lemma_units_concat(cs.take(start), p.skip(start));
                assert(units(p) == u0 + units(p.skip(start)));
                assert(u0.len() <= units(p).len());
                assert forall|j: int| 0 <= j < u0.len() implies C::int_ord(#[trigger] buffer@[j])
                    == u0[j] && C::valid_int(buffer@[j]) && u0[j] != 0 by {
                    assert(u0[j] == units(p)[j]);
                }
                assert(holds_units::<C>(buffer@, u0));
            }
            return ClusterStep::Full;
        }
        o = w;
        let width = utf8_width(c);
        byte = byte + width;
        i = i + 1;
        proof {
            assert(cs.take(pos + 1).drop_last() =~= p);
        }
    }
    proof {
        assert(start + i == q);
    }
    ClusterStep::Written(o, byte)
}

/// Encodes text, split into the clusters `clusters`, into `buffer` as a
/// string of kind `C`: line feeds become carriage return and line feed, the
/// last unit is kept for the terminator, and only whole clusters are kept.
/// Gives the string and the part of the text that did not fit, if any.
pub fn encode_graphemes<'buf, 'inp, C: Character>(
    input: &'inp str,
    clusters: &Vec<&str>,
    buffer: &'buf mut [C::IntRepr],
) -> (r: Result<(CStr<'buf, C>, Option<&'inp str>), StrEncodeError>)
    requires
        old(buffer)@.len() >= 1,
        joined(cluster_views(clusters@)) == input@,
        all_nonempty(cluster_views(clusters@)),
        byte_len(input@) <= usize::MAX,
    ensures
        final(buffer)@.len() == old(buffer)@.len(),
        ({
            let gs = cluster_views(clusters@);
            let cap = (old(buffer)@.len() - 1) as nat;
            match r {
                Ok((s, rem)) => encode_outcome::<C>(gs, cap) matches Ok(k) && {
                    let done = joined(gs.take(k as int));
                    &&& s@ == units(done).push(0)
                    &&& s.units() == final(buffer)@.take(units(done).len() + 1 as int)
                    &&& (rem matches Some(t) ==> done.len() < input@.len() && t@ == input@.skip(
                        done.len() as int,
                    ))
                    &&& (rem is None ==> done.len() == input@.len())
                },
                Err(e) => encode_outcome::<C>(gs, cap) == Err::<nat, StrEncodeError>(e),
            }
        }),
{
    let ghost gs = cluster_views(clusters@);
    let ghost cs = input@;
    let cap = buffer.len() - 1;
    let n = clusters.len();
    let mut k: usize = 0;
    let mut start: usize = 0;
    let mut o: usize = 0;
    let mut byte: usize = 0;
    let mut full = false;
    proof {
        lemma_byte_len_bound(cs);
        assert(gs.take(0) =~= Seq::<Seq<char>>::empty());
        assert(cs.take(0) =~= Seq::<char>::empty());
    }
    while k < n && !full
        invariant
            n == clusters@.len(),
            gs == cluster_views(clusters@),
            cs == input@,
            joined(gs) == cs,
            all_nonempty(gs),
            byte_len(cs) <= usize::MAX,
            cs.len() <= usize::MAX,
            cap == old(buffer)@.len() - 1,
            buffer@.len() == old(buffer)@.len(),
            k <= n,
            start <= cs.len(),
            cs.take(start as int) == joined(gs.take(k as int)),
            scan_error::<C>(cs.take(start as int), cap as nat) is None,
            o == units(cs.take(start as int)).len(),
            o <= cap,
            byte == byte_len(cs.take(start as int)),
            holds_units::<C>(buffer@, units(cs.take(start as int))),
            full ==> k < n && scan_error::<C>(cs, cap as nat) is None && committed(gs, cap as nat)
                == k,
        decreases n - k, (if full { 0int } else { 1int }),
    {
        let g: &str = clusters[k];
        let ghost q = start + g@.len();
        proof {
            assert(gs[k as int] == g@);
            lemma_joined_step(gs, k as int);
            lemma_joined_split(gs, k as int + 1);
            assert(cs.take(q) =~= joined(gs.take(k + 1)));
            assert(cs.subrange(start as int, q) =~= g@);
        }
        match encode_cluster::<C>(g, buffer, cap, o, byte, Ghost(cs), Ghost(start as int)) {
            ClusterStep::Written(o2, b2) => {
                o = o2;
                byte = b2;
                start = start + g.unicode_len();
                k = k + 1;
            },
            ClusterStep::Full => {
                proof {
                    lemma_scan_past_room::<C>(cs, q, cap as nat);
                    lemma_committed_at(gs, k as int, cap as nat);
                }
                full = true;
            },
            ClusterStep::Failed(e) => {
                proof {
                    lemma_scan_prefix_error::<C>(cs, q, cap as nat);
                }
                return Err(e);
            },
        }
    }
    proof {
        if !full {
            assert(gs.take(n as int) =~= gs);
            assert(cs.take(start as int) =~= cs);
        }
    }
    if k == 0 && !input.is_empty() {
        return Err(StrEncodeError::BufferTooSmall);
    }
    buffer[o] = C::nul().to_int();
    let codes: &'buf [C::IntRepr] = slice_subrange(buffer, 0, o + 1);
    proof {
        assert(is_nul_terminated::<C>(codes@));
        assert(crate::strs::ords::<C>(codes@) =~= units(cs.take(start as int)).push(0));
    }
    let view = CStr::from_ints_with_nul_unchecked(codes);
    let total = input.unicode_len();
    let rem = if start < total {
        Some(input.substring_char(start, total))
    } else {
        None
    };
    Ok((view, rem))
}

/// The extended grapheme clusters of a text.
pub uninterp spec fn grapheme_clusters(s: Seq<char>) -> Seq<Seq<char>>;

/// Relies on `UnicodeSegmentation::graphemes` with extended clusters: it
/// hands out consecutive, non-empty slices that together make up the text.
#[verifier::external_body]
fn graphemes_of<'a>(s: &'a str) -> (r: Vec<&'a str>)
    ensures
        cluster_views(r@) == grapheme_clusters(s@),
        joined(cluster_views(r@)) == s@,
        all_nonempty(cluster_views(r@)),
{
    s.graphemes(true).collect()
}

/// Encodes text into `buffer` as a string of kind `C`, truncated at the
/// last extended grapheme cluster that fits: line feeds become carriage
/// return and line feed, and the last unit is kept for the terminator.
/// Gives the string and the part of the text that did not fit, if any.
pub fn encode<'buf, 'inp, C: Character>(input: &'inp str, buffer: &'buf mut [C::IntRepr]) -> (r:
    Result<(CStr<'buf, C>, Option<&'inp str>), StrEncodeError>)
    requires
        old(buffer)@.len() >= 1,
        byte_len(input@) <= usize::MAX,
    ensures
        joined(grapheme_clusters(input@)) == input@,
        all_nonempty(grapheme_clusters(input@)),
        final(buffer)@.len() == old(buffer)@.len(),
        ({
            let gs = grapheme_clusters(input@);
            let cap = (old(buffer)@.len() - 1) as nat;
            match r {
                Ok((s, rem)) => encode_outcome::<C>(gs, cap) matches Ok(k) && {
                    let done = joined(gs.take(k as int));
                    &&& s@ == units(done).push(0)
                    &&& s.units() == final(buffer)@.take(units(done).len() + 1 as int)
                    &&& (rem matches Some(t) ==> done.len() < input@.len() && t@ == input@.skip(
                        done.len() as int,
                    ))
                    &&& (rem is None ==> done.len() == input@.len())
                },
                Err(e) => encode_outcome::<C>(gs, cap) == Err::<nat, StrEncodeError>(e),
            }
        }),
{
    let clusters = graphemes_of(input);
    encode_graphemes::<C>(input, &clusters, buffer)
}

} // verus!
