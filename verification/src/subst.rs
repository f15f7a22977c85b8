//! The replacement run: from a source to an output, through a working
//! buffer of fixed capacity.

use vstd::prelude::*;
use vstd::slice::slice_subrange;
use crate::buffer::{buffer_capacity, capacity_for, shift};
use crate::error::Error;
use crate::laws::{
    law_boundary, law_held_back_is_short, law_identity, law_occurs_at_skip, law_settle_until,
};
use crate::model::{
    held_back, occurrences, occurs_at, occurs_in, saturated, settled, settled_count,
    settled_output, substitute,
};
use crate::search::safe_memmem;
use crate::stream::{checked_read, checked_write, Source};

verus! {

/// Adds `more` replacements to a count that stays at `u32::MAX` once it has
/// reached it.
pub fn tally(occurs: u32, more: usize) -> (sum: u32)
    ensures
        sum == saturated(occurs + more),
{
    let room: u32 = u32::MAX - occurs;
    if more >= room as usize {
        u32::MAX
    } else {
        occurs + more as u32
    }
}

/// One pass over the first `filled` bytes of the working buffer.
///
/// Writes to `out` what these bytes settle: the bytes in front of each
/// occurrence of `from`, `to` in place of the occurrence, and the bytes
/// behind the last occurrence as far as no later occurrence can reach back
/// into them. The bytes that are held back are moved to the front of `buf`.
/// Returns how many bytes are held back and how many occurrences were
/// replaced.
pub fn drain(from: &[u8], to: &[u8], buf: &mut [u8], filled: usize, out: &mut Vec<u8>) -> (pass: (
    usize,
    usize,
))
    requires
        filled <= old(buf)@.len(),
    ensures
        final(out)@ == old(out)@ + settled_output(from@, to@, old(buf)@.take(filled as int)),
        pass.0 == held_back(from@, old(buf)@.take(filled as int)).len(),
        pass.1 == settled_count(from@, old(buf)@.take(filled as int)),
        final(buf)@.len() == old(buf)@.len(),
        final(buf)@.take(pass.0 as int) == held_back(from@, old(buf)@.take(filled as int)),
        final(buf)@.skip(pass.0 as int) == old(buf)@.skip(pass.0 as int),
{
    let ghost seen = buf@.take(filled as int);
    let flen: usize = from.len();
    proof {
        assert(seen.skip(0) =~= seen);
    }
    if flen == 0 {
        let mut i: usize = 0;
        while i < filled
            invariant
                i <= filled <= buf@.len(),
                buf@ == old(buf)@,
                seen == buf@.take(filled as int),
                from@.len() == 0,
                old(out)@ + settled_output(from@, to@, seen) == out@ + settled_output(
                    from@,
                    to@,
                    seen.skip(i as int),
                ),
            decreases filled - i,
        {
            let ghost rest = seen.skip(i as int);
            checked_write(out, to);
            checked_write(out, slice_subrange(buf, i, i + 1));
            i += 1;
            proof {
                assert(rest.take(1) =~= buf@.subrange(i - 1, i as int));
                assert(rest.skip(1) =~= seen.skip(i as int));
                assert(old(out)@ + settled_output(from@, to@, seen) =~= out@ + settled_output(
                    from@,
                    to@,
                    seen.skip(i as int),
                ));
            }
        }
        proof {
            assert(seen.skip(filled as int).len() == 0);
            assert(out@ + settled_output(from@, to@, seen.skip(filled as int)) =~= out@);
            assert(held_back(from@, seen).len() == 0);
            assert(buf@.take(0) =~= held_back(from@, seen));
        }
        return (0, filled);
    }
    if filled < flen {
        proof {
            assert(old(out)@ + settled_output(from@, to@, seen) =~= old(out)@);
        }
        return (filled, 0);
    }
    let mut start: usize = 0;
    let mut matches: usize = 0;
    loop
        invariant
            start <= filled <= buf@.len(),
            matches <= start,
            buf@ == old(buf)@,
            seen == buf@.take(filled as int),
            flen == from@.len(),
            flen > 0,
            settled(from@, seen) == start + settled(from@, seen.skip(start as int)),
            old(out)@ + settled_output(from@, to@, seen) == out@ + settled_output(
                from@,
                to@,
                seen.skip(start as int),
            ),
            settled_count(from@, seen) == matches + settled_count(from@, seen.skip(start as int)),
        ensures
            !occurs_in(seen.skip(start as int), from@),
        decreases filled - start,
    {
        let ghost rest = seen.skip(start as int);
        assert(buf@.subrange(start as int, filled as int) =~= rest);
        match safe_memmem(slice_subrange(buf, start, filled), from) {
            None => {
                break ;
            },
            Some(k) => {
                let found: usize = start + k;
                checked_write(out, slice_subrange(buf, start, found));
                checked_write(out, to);
                proof {
                    law_settle_until(from@, to@, rest, k as int);
                    law_occurs_at_skip(rest, from@, k as int, 0);
                    assert(rest.skip(k as int).skip(flen as int) =~= seen.skip(found + flen));
                    assert(rest.take(k as int) =~= buf@.subrange(start as int, found as int));
                    assert(old(out)@ + settled_output(from@, to@, seen) =~= out@ + settled_output(
                        from@,
                        to@,
                        seen.skip(found + flen),
                    ));
                }
                start = found + flen;
                matches += 1;
            },
        }
    }
    let ghost rest = seen.skip(start as int);
    let skipto: usize = filled - (flen - 1);
    if skipto > start {
        checked_write(out, slice_subrange(buf, start, skipto));
        proof {
            assert forall|j: int| 0 <= j < skipto - start implies !occurs_at(rest, from@, j) by {}
            law_settle_until(from@, to@, rest, skipto - start);
            assert(rest.skip(skipto - start) =~= seen.skip(skipto as int));
            assert(rest.take(skipto - start) =~= buf@.subrange(start as int, skipto as int));
            assert(out@ =~= old(out)@ + settled_output(from@, to@, seen));
            assert(buf@.subrange(skipto as int, filled as int) =~= held_back(from@, seen));
        }
        let kept: usize = shift(buf, skipto, filled);
        (kept, matches)
    } else {
        proof {
            assert(out@ =~= old(out)@ + settled_output(from@, to@, seen));
            assert(buf@.subrange(start as int, filled as int) =~= held_back(from@, seen));
        }
        let kept: usize = shift(buf, start, filled);
        (kept, matches)
    }
}

/// Replaces the empty pattern: writes `to` in front of every byte that `inp`
/// still holds and once more at its end, and returns how often it wrote `to`.
/// The input is read one byte at a time.
pub fn exactsubst0(to: &[u8], inp: &mut Source, out: &mut Vec<u8>) -> (occurs: u32)
    ensures
        final(out)@ == old(out)@ + substitute(Seq::empty(), to@, old(inp).remaining()),
        occurs == saturated(occurrences(Seq::empty(), old(inp).remaining()) as int),
        occurrences(Seq::empty(), old(inp).remaining()) == old(inp).remaining().len() + 1,
        final(inp).remaining().len() == 0,
        final(inp).limit() == old(inp).limit(),
{
    let ghost none = Seq::<u8>::empty();
    let ghost whole = inp.remaining();
    let ghost mut done: int = 0;
    let mut occurs: u32 = 0;
    let mut c: Vec<u8> = vec![0];
    loop
        invariant_except_break
            c@.len() == 1,
            old(out)@ + substitute(none, to@, whole) == out@ + substitute(
                none,
                to@,
                inp.remaining(),
            ),
            occurrences(none, whole) == done + occurrences(none, inp.remaining()),
            whole.len() == done + inp.remaining().len(),
        invariant
            none == Seq::<u8>::empty(),
            inp.limit() == old(inp).limit(),
            done >= 0,
            occurs == saturated(done),
        ensures
            out@ == old(out)@ + substitute(none, to@, whole),
            occurrences(none, whole) == done,
            whole.len() + 1 == done,
            inp.remaining().len() == 0,
        decreases inp.remaining().len(),
    {
        let ghost rest = inp.remaining();
        let n: usize = checked_read(inp, c.as_mut_slice(), 0);
        checked_write(out, to);
        occurs = tally(occurs, 1);
        proof {
            done = done + 1;
        }
        if n == 0 {
            break ;
        }
        let ghost head = out@;
        checked_write(out, c.as_slice());
        proof {
            assert(c@ =~= rest.take(1));
            assert(out@ + substitute(none, to@, rest.skip(1)) =~= head.subrange(
                0,
                head.len() - to@.len(),
            ) + (to@ + rest.take(1) + substitute(none, to@, rest.skip(1))));
        }
    }
    occurs
}

/// Copies what `inp` still holds to the end of `out`, with every occurrence
/// of `from` replaced by `to`, and returns the number of replacements.
///
/// Occurrences are taken from the left and do not overlap. The input passes
/// through a working buffer whose capacity depends on the length of `from`
/// alone; an occurrence that lies across two reads is found as any other.
/// The run is refused, and nothing is read or written, where no buffer that
/// this machine can address holds `from`. A count beyond `u32::MAX` is
/// returned as `u32::MAX`.
pub fn exactsubst(from: &[u8], to: &[u8], inp: &mut Source, out: &mut Vec<u8>) -> (outcome: Result<
    u32,
    Error,
>)
    ensures
        match outcome {
            Ok(occurs) => {
                &&& capacity_for(from@.len()) <= usize::MAX
                &&& final(out)@ == old(out)@ + substitute(from@, to@, old(inp).remaining())
                &&& occurs == saturated(occurrences(from@, old(inp).remaining()) as int)
                &&& final(inp).remaining().len() == 0
                &&& final(inp).limit() == old(inp).limit()
            },
            Err(e) => {
                &&& e == Error::PatternTooLarge
                &&& capacity_for(from@.len()) > usize::MAX
                &&& final(out)@ == old(out)@
                &&& *final(inp) == *old(inp)
            },
        },
{
    if from.len() == 0 {
        assert(from@ =~= Seq::<u8>::empty());
        return Ok(exactsubst0(to, inp, out));
    }
    let choosecap: usize = match buffer_capacity(from.len()) {
        Ok(c) => c,
        Err(e) => {
            return Err(e);
        },
    };
    proof {
        crate::buffer::law_capacity(from@.len());
    }
    let ghost whole = inp.remaining();
    let ghost mut done: int = 0;
    let mut buf: Vec<u8> = vec![0; choosecap];
    let mut buf_len: usize = 0;
    let mut occurs: u32 = 0;
    proof {
        assert(buf@.take(0) + whole =~= whole);
    }
    loop
        invariant
            buf@.len() == choosecap,
            0 < from@.len() <= choosecap,
            buf_len < from@.len(),
            inp.limit() == old(inp).limit(),
            old(out)@ + substitute(from@, to@, whole) == out@ + substitute(
                from@,
                to@,
                buf@.take(buf_len as int) + inp.remaining(),
            ),
            occurrences(from@, whole) == done + occurrences(
                from@,
                buf@.take(buf_len as int) + inp.remaining(),
            ),
            done >= 0,
            occurs == saturated(done),
        ensures
            inp.remaining().len() == 0,
        decreases inp.remaining().len(),
    {
        let ghost before = buf@;
        let ghost pending = buf@.take(buf_len as int);
        let ghost rest = inp.remaining();
        let num_read: usize = checked_read(inp, buf.as_mut_slice(), buf_len);
        if num_read == 0 {
            proof {
                assert(buf@ =~= before);
            }
            break ;
        }
        buf_len += num_read;
        let ghost seen = buf@.take(buf_len as int);
        proof {
            assert(seen =~= pending + rest.take(num_read as int));
            assert(pending + rest =~= seen + inp.remaining());
            law_boundary(from@, to@, seen, inp.remaining());
            law_held_back_is_short(from@, seen);
        }
        let pass: (usize, usize) = drain(from, to, buf.as_mut_slice(), buf_len, out);
        buf_len = pass.0;
        occurs = tally(occurs, pass.1);
        proof {
            done = done + pass.1;
            assert(old(out)@ + substitute(from@, to@, whole) =~= out@ + substitute(
                from@,
                to@,
                buf@.take(buf_len as int) + inp.remaining(),
            ));
        }
    }
    proof {
        let pending = buf@.take(buf_len as int);
        assert(pending + inp.remaining() =~= pending);
        assert(!occurs_in(pending, from@));
        law_identity(from@, to@, pending);
        assert(buf@.subrange(0, buf_len as int) =~= pending);
    }
    checked_write(out, slice_subrange(buf.as_slice(), 0, buf_len));
    Ok(occurs)
}

} // verus!
