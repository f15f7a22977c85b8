//! A replacement run that is fed its input chunk by chunk.

use vstd::prelude::*;
use vstd::slice::{slice_subrange, slice_to_vec};
use crate::buffer::{buffer_capacity, capacity_for, law_capacity, store};
use crate::error::Error;
use crate::laws::{law_held_back_is_short, law_identity, law_settle_in_steps};
use crate::model::{
    held_back, occurrences, occurs_in, saturated, settled, settled_count, settled_output,
    substitute,
};
use crate::stream::checked_write;
use crate::subst::{drain, tally};

verus! {

/// The state of a run between two chunks of its input: the pattern and its
/// replacement, the working buffer with the bytes that are held back, and
/// the number of replacements made so far.
///
/// The caller reads the input, by whatever means, and hands each chunk to
/// `feed`; it writes what `feed` and, at the end, `finish` put out.
pub struct Replacer {
    from: Vec<u8>,
    to: Vec<u8>,
    buf: Vec<u8>,
    buf_len: usize,
    occurs: u32,
}

impl Replacer {
    /// The state is one that a run can be in between two chunks: the
    /// working buffer has the capacity that the pattern asks for, and fewer
    /// bytes are held back than the pattern is long.
    pub closed spec fn wf(&self) -> bool {
        &&& self.buf@.len() == capacity_for(self.from@.len())
        &&& self.buf_len <= self.buf@.len()
        &&& self.from@.len() == 0 ==> self.buf_len == 0
        &&& self.from@.len() > 0 ==> self.buf_len < self.from@.len()
    }

    /// The pattern that is looked for.
    pub closed spec fn pattern(&self) -> Seq<u8> {
        self.from@
    }

    /// What is put in its place.
    pub closed spec fn replacement(&self) -> Seq<u8> {
        self.to@
    }

    /// The bytes that were fed and are held back.
    pub closed spec fn pending(&self) -> Seq<u8> {
        self.buf@.take(self.buf_len as int)
    }

    /// The number of replacements made so far.
    pub closed spec fn count(&self) -> u32 {
        self.occurs
    }

    /// Starts a run that replaces `from` by `to`. It is refused where no
    /// buffer that this machine can address holds `from`.
    pub fn new(from: &[u8], to: &[u8]) -> (made: Result<Replacer, Error>)
        ensures
            match made {
                Ok(run) => {
                    &&& run.wf()
                    &&& capacity_for(from@.len()) <= usize::MAX
                    &&& run.pattern() == from@
                    &&& run.replacement() == to@
                    &&& run.pending() == Seq::<u8>::empty()
                    &&& run.count() == 0
                },
                Err(e) => e == Error::PatternTooLarge && capacity_for(from@.len()) > usize::MAX,
            },
    {
        let capacity: usize = match buffer_capacity(from.len()) {
            Ok(c) => c,
            Err(e) => {
                return Err(e);
            },
        };
        let buf: Vec<u8> = vec![0; capacity];
        let run = Replacer {
            from: slice_to_vec(from),
            to: slice_to_vec(to),
            buf,
            buf_len: 0,
            occurs: 0,
        };
        assert(run.pending() =~= Seq::<u8>::empty());
        Ok(run)
    }

    /// The number of replacements made so far.
    pub fn occurrences(&self) -> (occurs: u32)
        ensures
            occurs == self.count(),
    {
        self.occurs
    }

    /// The number of bytes that are held back.
    pub fn pending_len(&self) -> (held: usize)
        requires
            self.wf(),
        ensures
            held == self.pending().len(),
            self.pattern().len() == 0 ==> held == 0,
            self.pattern().len() > 0 ==> held < self.pattern().len(),
    {
        self.buf_len
    }

    /// The capacity of the working buffer.
    pub fn capacity(&self) -> (capacity: usize)
        requires
            self.wf(),
        ensures
            capacity == capacity_for(self.pattern().len()),
    {
        self.buf.len()
    }

    /// Takes the next chunk of the input and writes to `out` what is settled
    /// by it: the output for the bytes held back so far and the chunk, as
    /// far as it does not depend on what follows. The rest is held back.
    pub fn feed(&mut self, chunk: &[u8], out: &mut Vec<u8>)
        requires
            old(self).wf(),
        ensures
            final(self).wf(),
            final(self).pattern() == old(self).pattern(),
            final(self).replacement() == old(self).replacement(),
            final(out)@ == old(out)@ + settled_output(
                old(self).pattern(),
                old(self).replacement(),
                old(self).pending() + chunk@,
            ),
            final(self).pending() == held_back(old(self).pattern(), old(self).pending() + chunk@),
            final(self).count() == saturated(
                old(self).count() + settled_count(
                    old(self).pattern(),
                    old(self).pending() + chunk@,
                ),
            ),
    {
        proof {
            law_capacity(self.from@.len());
        }
        let ghost f = self.from@;
        let ghost t = self.to@;
        let ghost all = self.pending() + chunk@;
        let ghost mut found: int = 0;
        let total: usize = chunk.len();
        let mut taken: usize = 0;
        proof {
            assert(chunk@.skip(0) =~= chunk@);
        }
        while taken < total
            invariant
                taken <= total == chunk@.len(),
                self.from@ == f,
                self.to@ == t,
                self.buf@.len() == capacity_for(f.len()),
                self.buf@.len() >= f.len(),
                self.buf@.len() >= 1,
                f.len() == 0 ==> self.buf_len == 0,
                f.len() > 0 ==> self.buf_len < f.len(),
                old(out)@ + settled_output(f, t, all) == out@ + settled_output(
                    f,
                    t,
                    self.pending() + chunk@.skip(taken as int),
                ),
                settled_count(f, all) == found + settled_count(
                    f,
                    self.pending() + chunk@.skip(taken as int),
                ),
                held_back(f, all) == held_back(f, self.pending() + chunk@.skip(taken as int)),
                found >= 0,
                self.occurs == saturated(old(self).count() + found),
            decreases total - taken,
        {
            let ghost pending = self.pending();
            let ghost rest = chunk@.skip(taken as int);
            let room: usize = self.buf.len() - self.buf_len;
            let n: usize = if total - taken < room {
                total - taken
            } else {
                room
            };
            store(self.buf.as_mut_slice(), self.buf_len, slice_subrange(chunk, taken, taken + n));
            let filled: usize = self.buf_len + n;
            let ghost seen = self.buf@.take(filled as int);
            proof {
                assert(seen =~= pending + rest.take(n as int));
                assert(pending + rest =~= seen + rest.skip(n as int));
                assert(rest.skip(n as int) =~= chunk@.skip(taken + n));
                law_settle_in_steps(f, t, seen, rest.skip(n as int));
                law_held_back_is_short(f, seen);
            }
            let pass: (usize, usize) = drain(
                self.from.as_slice(),
                self.to.as_slice(),
                self.buf.as_mut_slice(),
                filled,
                out,
            );
            self.buf_len = pass.0;
            self.occurs = tally(self.occurs, pass.1);
            taken = taken + n;
            proof {
                found = found + pass.1;
                assert(self.pending() =~= held_back(f, seen));
                assert(old(out)@ + settled_output(f, t, all) =~= out@ + settled_output(
                    f,
                    t,
                    self.pending() + chunk@.skip(taken as int),
                ));
            }
        }
        proof {
            let pending = self.pending();
            assert(pending + chunk@.skip(taken as int) =~= pending);
            assert(settled(f, pending) == 0);
            assert(settled_output(f, t, pending) =~= Seq::<u8>::empty());
            assert(held_back(f, pending) =~= pending);
            assert(out@ =~= old(out)@ + settled_output(f, t, all));
        }
    }

    /// Ends the run: writes to `out` the output for the bytes that are still
    /// held back, now that nothing follows them, and returns the number of
    /// replacements.
    pub fn finish(self, out: &mut Vec<u8>) -> (occurs: u32)
        requires
            self.wf(),
        ensures
            final(out)@ == old(out)@ + substitute(
                self.pattern(),
                self.replacement(),
                self.pending(),
            ),
            occurs == saturated(self.count() + occurrences(self.pattern(), self.pending())),
    {
        if self.from.len() == 0 {
            checked_write(out, self.to.as_slice());
            tally(self.occurs, 1)
        } else {
            proof {
                assert(!occurs_in(self.pending(), self.from@));
                law_identity(self.from@, self.to@, self.pending());
                assert(self.buf@.subrange(0, self.buf_len as int) =~= self.pending());
            }
            checked_write(out, slice_subrange(self.buf.as_slice(), 0, self.buf_len));
            self.occurs
        }
    }
}

} // verus!
