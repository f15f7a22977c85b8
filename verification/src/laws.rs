//! What holds of every replacement run.

use vstd::prelude::*;
use crate::model::{
    first_at, held_back, occurrences, occurs_at, occurs_in, settled, settled_count,
    settled_output, streamed, streamed_count, substitute,
};

verus! {

/// An occurrence in `s` behind its first `n` bytes is an occurrence in the
/// rest of `s`, `n` places further to the left.
pub proof fn law_occurs_at_skip(s: Seq<u8>, f: Seq<u8>, n: int, j: int)
    requires
        0 <= n <= s.len(),
        0 <= j,
    ensures
        occurs_at(s.skip(n), f, j) == occurs_at(s, f, n + j),
{
    if j + f.len() <= s.len() - n {
        assert(s.skip(n).subrange(j, j + f.len()) =~= s.subrange(n + j, n + j + f.len()));
    }
}

/// Whether the pattern stands at an offset depends only on the bytes up to
/// the end of that place: bytes that follow change nothing.
pub proof fn law_occurs_at_prefix(s: Seq<u8>, r: Seq<u8>, f: Seq<u8>, i: int)
    requires
        0 <= i,
        i + f.len() <= s.len(),
    ensures
        occurs_at(s + r, f, i) == occurs_at(s, f, i),
{
    assert((s + r).subrange(i, i + f.len()) =~= s.subrange(i, i + f.len()));
}

/// Bytes in front of the leftmost occurrence are copied as they are.
///
/// Where the pattern stands at none of the first `k` offsets of `s`, the run
/// puts out the first `k` bytes and goes on with the rest.
pub proof fn law_copy_until(f: Seq<u8>, t: Seq<u8>, s: Seq<u8>, k: int)
    requires
        f.len() > 0,
        0 <= k <= s.len(),
        forall|j: int| 0 <= j < k ==> !occurs_at(s, f, j),
    ensures
        substitute(f, t, s) == s.take(k) + substitute(f, t, s.skip(k)),
        occurrences(f, s) == occurrences(f, s.skip(k)),
    decreases k,
{
    if k == 0 {
        assert(s.skip(0) =~= s);
        assert(s.take(0) + substitute(f, t, s) =~= substitute(f, t, s));
    } else {
        let rest = s.skip(1);
        assert(!occurs_at(s, f, 0));
        assert forall|j: int| 0 <= j < k - 1 implies !occurs_at(rest, f, j) by {
            law_occurs_at_skip(s, f, 1, j);
        }
        law_copy_until(f, t, rest, k - 1);
        assert(rest.skip(k - 1) =~= s.skip(k));
        assert(s.take(1) + rest.take(k - 1) =~= s.take(k));
        assert(s.take(1) + (rest.take(k - 1) + substitute(f, t, s.skip(k))) =~= s.take(k)
            + substitute(f, t, s.skip(k)));
    }
}

/// The leftmost occurrence is the one that is replaced first.
pub proof fn law_first_occurrence(f: Seq<u8>, t: Seq<u8>, s: Seq<u8>, i: int)
    requires
        f.len() > 0,
        first_at(s, f, i),
    ensures
        substitute(f, t, s) == s.take(i) + t + substitute(f, t, s.skip(i + f.len())),
        occurrences(f, s) == 1 + occurrences(f, s.skip(i + f.len())),
{
    law_copy_until(f, t, s, i);
    law_occurs_at_skip(s, f, i, 0);
    assert(s.skip(i).skip(f.len() as int) =~= s.skip(i + f.len()));
    assert(s.take(i) + (t + substitute(f, t, s.skip(i + f.len()))) =~= s.take(i) + t
        + substitute(f, t, s.skip(i + f.len())));
}

/// An input in which the pattern does not occur comes out as it went in, and
/// nothing is counted.
pub proof fn law_identity(f: Seq<u8>, t: Seq<u8>, s: Seq<u8>)
    requires
        !occurs_in(s, f),
    ensures
        substitute(f, t, s) == s,
        occurrences(f, s) == 0,
{
    if f.len() == 0 {
        assert(s.subrange(0, 0) =~= f);
        assert(occurs_at(s, f, 0));
    } else {
        law_copy_until(f, t, s, s.len() as int);
        assert(s.take(s.len() as int) =~= s);
        let end = s.skip(s.len() as int);
        assert(end.len() == 0);
        assert(s + substitute(f, t, end) =~= s);
    }
}

/// Bytes in front of the leftmost occurrence are settled as soon as a whole
/// pattern's length of input lies behind each of them.
pub proof fn law_settle_until(f: Seq<u8>, t: Seq<u8>, s: Seq<u8>, k: int)
    requires
        f.len() > 0,
        0 <= k,
        k + f.len() <= s.len() + 1,
        forall|j: int| 0 <= j < k ==> !occurs_at(s, f, j),
    ensures
        settled(f, s) == k + settled(f, s.skip(k)),
        settled_output(f, t, s) == s.take(k) + settled_output(f, t, s.skip(k)),
        settled_count(f, s) == settled_count(f, s.skip(k)),
    decreases k,
{
    if k == 0 {
        assert(s.skip(0) =~= s);
        assert(s.take(0) + settled_output(f, t, s) =~= settled_output(f, t, s));
    } else {
        let rest = s.skip(1);
        assert(!occurs_at(s, f, 0));
        assert forall|j: int| 0 <= j < k - 1 implies !occurs_at(rest, f, j) by {
            law_occurs_at_skip(s, f, 1, j);
        }
        law_settle_until(f, t, rest, k - 1);
        assert(rest.skip(k - 1) =~= s.skip(k));
        assert(s.take(1) + (rest.take(k - 1) + settled_output(f, t, s.skip(k))) =~= s.take(k)
            + settled_output(f, t, s.skip(k)));
    }
}

/// What is held back is shorter than the pattern, and nothing is held back
/// for the empty pattern.
pub proof fn law_held_back_is_short(f: Seq<u8>, s: Seq<u8>)
    ensures
        settled(f, s) <= s.len(),
        f.len() == 0 ==> held_back(f, s).len() == 0,
        f.len() > 0 ==> held_back(f, s).len() < f.len(),
    decreases s.len(),
{
    if f.len() == 0 || s.len() < f.len() {
    } else if occurs_at(s, f, 0) {
        law_held_back_is_short(f, s.skip(f.len() as int));
    } else {
        law_held_back_is_short(f, s.skip(1));
    }
}

/// What is held back settles nothing: no output and no count come of it
/// until more input follows or the input ends.
pub proof fn law_held_back_is_unsettled(f: Seq<u8>, t: Seq<u8>, s: Seq<u8>)
    ensures
        settled(f, held_back(f, s)) == 0,
        settled_output(f, t, held_back(f, s)) == Seq::<u8>::empty(),
        settled_count(f, held_back(f, s)) == 0,
        held_back(f, held_back(f, s)) == held_back(f, s),
{
    law_held_back_is_short(f, s);
    assert(held_back(f, s).skip(0) =~= held_back(f, s));
}

/// The boundary law: input may be cut anywhere.
///
/// The output for `s` followed by `r` is the settled output of `s`, followed
/// by the output for what `s` holds back joined to `r`. So an occurrence that
/// starts in `s` and ends in `r` is found, and nothing is put out twice.
pub proof fn law_boundary(f: Seq<u8>, t: Seq<u8>, s: Seq<u8>, r: Seq<u8>)
    ensures
        substitute(f, t, s + r) == settled_output(f, t, s) + substitute(
            f,
            t,
            held_back(f, s) + r,
        ),
        occurrences(f, s + r) == settled_count(f, s) + occurrences(f, held_back(f, s) + r),
    decreases s.len(),
{
    let all = s + r;
    if f.len() == 0 {
        if s.len() == 0 {
            assert(held_back(f, s) + r =~= all);
            assert(settled_output(f, t, s) + substitute(f, t, all) =~= substitute(f, t, all));
        } else {
            let rest = s.skip(1);
            law_boundary(f, t, rest, r);
            assert(all.skip(1) =~= rest + r);
            assert(all.take(1) =~= s.take(1));
            law_held_back_is_short(f, rest);
            assert(held_back(f, rest) =~= held_back(f, s));
            assert(t + s.take(1) + (settled_output(f, t, rest) + substitute(
                f,
                t,
                held_back(f, s) + r,
            )) =~= t + s.take(1) + settled_output(f, t, rest) + substitute(
                f,
                t,
                held_back(f, s) + r,
            ));
        }
    } else if s.len() < f.len() {
        assert(held_back(f, s) + r =~= all);
        assert(settled_output(f, t, s) + substitute(f, t, all) =~= substitute(f, t, all));
    } else {
        law_occurs_at_prefix(s, r, f, 0);
        if occurs_at(s, f, 0) {
            let rest = s.skip(f.len() as int);
            law_boundary(f, t, rest, r);
            assert(all.skip(f.len() as int) =~= rest + r);
            law_held_back_is_short(f, rest);
            assert(held_back(f, rest) =~= held_back(f, s));
            assert(t + (settled_output(f, t, rest) + substitute(f, t, held_back(f, s) + r)) =~= t
                + settled_output(f, t, rest) + substitute(f, t, held_back(f, s) + r));
        } else {
            let rest = s.skip(1);
            law_boundary(f, t, rest, r);
            assert(all.skip(1) =~= rest + r);
            assert(all.take(1) =~= s.take(1));
            law_held_back_is_short(f, rest);
            assert(held_back(f, rest) =~= held_back(f, s));
            assert(s.take(1) + (settled_output(f, t, rest) + substitute(
                f,
                t,
                held_back(f, s) + r,
            )) =~= s.take(1) + settled_output(f, t, rest) + substitute(
                f,
                t,
                held_back(f, s) + r,
            ));
        }
    }
}

/// The end of the input: what is held back then comes out as it is, and
/// behind the settled output for the empty pattern stands the replacement
/// once more.
pub proof fn law_end_of_input(f: Seq<u8>, t: Seq<u8>, s: Seq<u8>)
    ensures
        f.len() > 0 ==> substitute(f, t, s) == settled_output(f, t, s) + held_back(f, s),
        f.len() > 0 ==> occurrences(f, s) == settled_count(f, s),
        f.len() == 0 ==> substitute(f, t, s) == settled_output(f, t, s) + t,
        f.len() == 0 ==> occurrences(f, s) == settled_count(f, s) + 1,
{
    let held = held_back(f, s);
    law_boundary(f, t, s, Seq::empty());
    law_held_back_is_short(f, s);
    assert(s + Seq::<u8>::empty() =~= s);
    assert(held + Seq::<u8>::empty() =~= held);
    if f.len() > 0 {
        assert(!occurs_in(held, f));
        law_identity(f, t, held);
    }
}

/// Settling goes on where it stopped.
///
/// What `s` followed by `r` settles is what `s` settles, and then what the
/// bytes that `s` holds back settle once `r` is joined to them.
pub proof fn law_settle_in_steps(f: Seq<u8>, t: Seq<u8>, s: Seq<u8>, r: Seq<u8>)
    ensures
        settled(f, s + r) == settled(f, s) + settled(f, held_back(f, s) + r),
        settled_output(f, t, s + r) == settled_output(f, t, s) + settled_output(
            f,
            t,
            held_back(f, s) + r,
        ),
        settled_count(f, s + r) == settled_count(f, s) + settled_count(f, held_back(f, s) + r),
        held_back(f, s + r) == held_back(f, held_back(f, s) + r),
    decreases s.len(),
{
    let all = s + r;
    let next = held_back(f, s) + r;
    if f.len() == 0 {
        if s.len() == 0 {
            assert(next =~= all);
            assert(settled_output(f, t, s) + settled_output(f, t, all) =~= settled_output(
                f,
                t,
                all,
            ));
        } else {
            let rest = s.skip(1);
            law_settle_in_steps(f, t, rest, r);
            assert(all.skip(1) =~= rest + r);
            assert(all.take(1) =~= s.take(1));
            law_held_back_is_short(f, rest);
            assert(held_back(f, rest) =~= held_back(f, s));
            assert(t + s.take(1) + (settled_output(f, t, rest) + settled_output(f, t, next)) =~= t
                + s.take(1) + settled_output(f, t, rest) + settled_output(f, t, next));
        }
    } else if s.len() < f.len() {
        assert(next =~= all);
        assert(settled_output(f, t, s) + settled_output(f, t, all) =~= settled_output(f, t, all));
    } else {
        law_occurs_at_prefix(s, r, f, 0);
        if occurs_at(s, f, 0) {
            let rest = s.skip(f.len() as int);
            law_settle_in_steps(f, t, rest, r);
            assert(all.skip(f.len() as int) =~= rest + r);
            law_held_back_is_short(f, rest);
            assert(held_back(f, rest) =~= held_back(f, s));
            assert(t + (settled_output(f, t, rest) + settled_output(f, t, next)) =~= t
                + settled_output(f, t, rest) + settled_output(f, t, next));
        } else {
            let rest = s.skip(1);
            law_settle_in_steps(f, t, rest, r);
            assert(all.skip(1) =~= rest + r);
            assert(all.take(1) =~= s.take(1));
            law_held_back_is_short(f, rest);
            assert(held_back(f, rest) =~= held_back(f, s));
            assert(s.take(1) + (settled_output(f, t, rest) + settled_output(f, t, next)) =~= s.take(
                1,
            ) + settled_output(f, t, rest) + settled_output(f, t, next));
        }
    }
    assert(held_back(f, all) =~= held_back(f, next)) by {
        law_held_back_is_short(f, s);
        law_held_back_is_short(f, next);
        law_held_back_is_short(f, all);
    }
}

/// The byte count: each replacement takes the pattern's length out of the
/// input and puts the replacement's length in its place.
pub proof fn law_length(f: Seq<u8>, t: Seq<u8>, s: Seq<u8>)
    ensures
        substitute(f, t, s).len() == s.len() - occurrences(f, s) * f.len() + occurrences(f, s)
            * t.len(),
    decreases s.len(),
{
    let flen = f.len() as int;
    let tlen = t.len() as int;
    assert(0 * flen == 0 && 0 * tlen == 0 && 1 * flen == flen && 1 * tlen == tlen)
        by (nonlinear_arith);
    if f.len() == 0 {
        if s.len() > 0 {
            let k = occurrences(f, s.skip(1)) as int;
            law_length(f, t, s.skip(1));
            assert((1 + k) * tlen == tlen + k * tlen) by (nonlinear_arith);
            assert((1 + k) * flen == flen + k * flen) by (nonlinear_arith);
        }
    } else if occurs_at(s, f, 0) {
        let k = occurrences(f, s.skip(flen)) as int;
        law_length(f, t, s.skip(flen));
        assert((1 + k) * tlen == tlen + k * tlen) by (nonlinear_arith);
        assert((1 + k) * flen == flen + k * flen) by (nonlinear_arith);
    } else if s.len() > 0 {
        law_length(f, t, s.skip(1));
    }
}

/// Where the pattern occurs at all, it has a leftmost occurrence.
pub proof fn law_leftmost_exists(s: Seq<u8>, f: Seq<u8>, i: int) -> (k: int)
    requires
        occurs_at(s, f, i),
    ensures
        0 <= k <= i,
        first_at(s, f, k),
    decreases i,
{
    if exists|j: int| 0 <= j < i && occurs_at(s, f, j) {
        let j = choose|j: int| 0 <= j < i && occurs_at(s, f, j);
        law_leftmost_exists(s, f, j)
    } else {
        i
    }
}

/// A second run over the output of a run changes nothing, and counts
/// nothing, where the pattern occurs neither in the replacement nor in that
/// output.
///
/// That the replacement is free of the pattern is not enough: an occurrence
/// can arise in the output where a replacement meets the bytes around it.
pub proof fn law_second_run(f: Seq<u8>, t: Seq<u8>, s: Seq<u8>)
    requires
        !occurs_in(t, f),
        !occurs_in(substitute(f, t, s), f),
    ensures
        substitute(f, t, substitute(f, t, s)) == substitute(f, t, s),
        occurrences(f, substitute(f, t, s)) == 0,
{
    law_identity(f, t, substitute(f, t, s));
}

/// A run changes every input in which the pattern occurs, where the pattern
/// does not occur in the replacement. So a second run leaves the output of a
/// first one unchanged only where the pattern does not occur in that output.
pub proof fn law_occurrence_changes(f: Seq<u8>, t: Seq<u8>, s: Seq<u8>)
    requires
        !occurs_in(t, f),
        occurs_in(s, f),
    ensures
        substitute(f, t, s) != s,
        occurrences(f, s) > 0,
{
    let flen = f.len() as int;
    let tlen = t.len() as int;
    if flen == 0 {
        assert(t.subrange(0, 0) =~= f);
        assert(occurs_at(t, f, 0));
    } else {
        let any = choose|i: int| occurs_at(s, f, i);
        let i = law_leftmost_exists(s, f, any);
        let rest = s.skip(i + flen);
        let out = substitute(f, t, s);
        law_first_occurrence(f, t, s, i);
        if tlen != flen {
            let k = occurrences(f, s) as int;
            law_length(f, t, s);
            assert(k * tlen != k * flen) by (nonlinear_arith)
                requires
                    k > 0,
                    tlen != flen,
            ;
        } else {
            assert(out.subrange(i, i + flen) =~= t);
            if t == f {
                assert(t.subrange(0, flen) =~= f);
                assert(occurs_at(t, f, 0));
            }
        }
    }
}

/// However the input is cut into chunks, the run puts out the same.
///
/// A run that holds `held` and then takes `chunks` one by one puts out what
/// a run over `held` followed by all the chunks, joined, puts out, and it
/// counts as many replacements.
pub proof fn law_chunking(f: Seq<u8>, t: Seq<u8>, held: Seq<u8>, chunks: Seq<Seq<u8>>)
    ensures
        streamed(f, t, held, chunks) == substitute(f, t, held + chunks.flatten()),
        streamed_count(f, held, chunks) == occurrences(f, held + chunks.flatten()),
    decreases chunks.len(),
{
    if chunks.len() == 0 {
        assert(held + chunks.flatten() =~= held);
    } else {
        let seen = held + chunks[0];
        let later = chunks.skip(1);
        law_chunking(f, t, held_back(f, seen), later);
        law_boundary(f, t, seen, later.flatten());
        assert(later =~= chunks.drop_first());
        assert(seen + later.flatten() =~= held + chunks.flatten());
    }
}

} // verus!
