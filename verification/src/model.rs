//! The mathematical meaning of a replacement run, over sequences of bytes.
//!
//! `substitute` and `occurrences` say what a run yields for a whole input.
//! `settled`, `settled_output` and `settled_count` say how much of that is
//! already decided by a prefix of the input, whatever bytes may follow it.

use vstd::prelude::*;

verus! {

/// The pattern `f` stands in `s` at offset `i`.
pub open spec fn occurs_at(s: Seq<u8>, f: Seq<u8>, i: int) -> bool {
    &&& 0 <= i
    &&& i + f.len() <= s.len()
    &&& s.subrange(i, i + f.len()) == f
}

/// The pattern `f` stands somewhere in `s`.
pub open spec fn occurs_in(s: Seq<u8>, f: Seq<u8>) -> bool {
    exists|i: int| occurs_at(s, f, i)
}

/// Offset `i` is the leftmost place at which `f` stands in `s`.
pub open spec fn first_at(s: Seq<u8>, f: Seq<u8>, i: int) -> bool {
    &&& occurs_at(s, f, i)
    &&& forall|j: int| 0 <= j < i ==> !occurs_at(s, f, j)
}

/// The input `s` with every occurrence of `f` replaced by `t`.
///
/// Occurrences are taken from the left and do not overlap: where `f` stands
/// at the front, `t` is put out and the scan goes on behind the occurrence;
/// elsewhere one byte is copied. The empty pattern stands before every byte
/// and once more at the end.
pub open spec fn substitute(f: Seq<u8>, t: Seq<u8>, s: Seq<u8>) -> Seq<u8>
    decreases s.len(),
{
    if f.len() == 0 {
        if s.len() == 0 {
            t
        } else {
            t + s.take(1) + substitute(f, t, s.skip(1))
        }
    } else if occurs_at(s, f, 0) {
        t + substitute(f, t, s.skip(f.len() as int))
    } else if s.len() > 0 {
        s.take(1) + substitute(f, t, s.skip(1))
    } else {
        s
    }
}

/// The number of occurrences of `f` that `substitute` replaces in `s`.
pub open spec fn occurrences(f: Seq<u8>, s: Seq<u8>) -> nat
    decreases s.len(),
{
    if f.len() == 0 {
        if s.len() == 0 {
            1
        } else {
            1 + occurrences(f, s.skip(1))
        }
    } else if occurs_at(s, f, 0) {
        1 + occurrences(f, s.skip(f.len() as int))
    } else if s.len() > 0 {
        occurrences(f, s.skip(1))
    } else {
        0
    }
}

/// The number of leading bytes of `s` whose fate is decided by `s` alone.
///
/// The scan goes through `s` as `substitute` does and stops where fewer
/// bytes are left than the pattern is long: such a tail may be the start of
/// an occurrence that the next bytes complete.
pub open spec fn settled(f: Seq<u8>, s: Seq<u8>) -> nat
    decreases s.len(),
{
    if f.len() == 0 {
        s.len()
    } else if s.len() < f.len() {
        0
    } else if occurs_at(s, f, 0) {
        f.len() + settled(f, s.skip(f.len() as int))
    } else {
        1 + settled(f, s.skip(1))
    }
}

/// The output for the settled part of `s`.
///
/// For the empty pattern this is `t` before every byte of `s`; the closing
/// `t` belongs to the end of the input.
pub open spec fn settled_output(f: Seq<u8>, t: Seq<u8>, s: Seq<u8>) -> Seq<u8>
    decreases s.len(),
{
    if f.len() == 0 {
        if s.len() == 0 {
            Seq::empty()
        } else {
            t + s.take(1) + settled_output(f, t, s.skip(1))
        }
    } else if s.len() < f.len() {
        Seq::empty()
    } else if occurs_at(s, f, 0) {
        t + settled_output(f, t, s.skip(f.len() as int))
    } else {
        s.take(1) + settled_output(f, t, s.skip(1))
    }
}

/// The number of occurrences replaced in the settled part of `s`.
pub open spec fn settled_count(f: Seq<u8>, s: Seq<u8>) -> nat
    decreases s.len(),
{
    if f.len() == 0 {
        s.len()
    } else if s.len() < f.len() {
        0
    } else if occurs_at(s, f, 0) {
        1 + settled_count(f, s.skip(f.len() as int))
    } else {
        settled_count(f, s.skip(1))
    }
}

/// The bytes of `s` that are not settled yet.
pub open spec fn held_back(f: Seq<u8>, s: Seq<u8>) -> Seq<u8> {
    s.skip(settled(f, s) as int)
}

/// A count as a `u32` holds it: counts beyond `u32::MAX` stay at `u32::MAX`.
pub open spec fn saturated(n: int) -> u32 {
    if n >= u32::MAX {
        u32::MAX
    } else if n <= 0 {
        0
    } else {
        n as u32
    }
}

/// The output of a run that takes its input chunk by chunk.
///
/// `held` is what earlier chunks left unsettled. Each chunk is joined to it,
/// the settled part is put out, and the rest is held back for the next one.
/// When the chunks are used up, what is still held is the end of the input.
pub open spec fn streamed(f: Seq<u8>, t: Seq<u8>, held: Seq<u8>, chunks: Seq<Seq<u8>>) -> Seq<u8>
    decreases chunks.len(),
{
    if chunks.len() == 0 {
        substitute(f, t, held)
    } else {
        let seen = held + chunks[0];
        settled_output(f, t, seen) + streamed(f, t, held_back(f, seen), chunks.skip(1))
    }
}

/// The number of replacements of a run that takes its input chunk by chunk.
pub open spec fn streamed_count(f: Seq<u8>, held: Seq<u8>, chunks: Seq<Seq<u8>>) -> nat
    decreases chunks.len(),
{
    if chunks.len() == 0 {
        occurrences(f, held)
    } else {
        let seen = held + chunks[0];
        settled_count(f, seen) + streamed_count(f, held_back(f, seen), chunks.skip(1))
    }
}

} // verus!
