//! An input held in memory that is read piece by piece, and writing to an
//! output held in memory.

use vstd::prelude::*;
use vstd::slice::slice_subrange;
use crate::buffer::store;

verus! {

/// A byte source: bytes held in memory that are handed out in reads of
/// bounded size, as a pipe or a socket hands out its bytes.
pub struct Source {
    data: Vec<u8>,
    pos: usize,
    limit: usize,
}

/// The number of bytes that one read delivers: as many as are left, as the
/// source gives at once and as the reader has room for.
pub open spec fn read_size(limit: nat, left: nat, room: nat) -> nat {
    if left <= limit && left <= room {
        left
    } else if limit <= room {
        limit
    } else {
        room
    }
}

impl Source {
    #[verifier::type_invariant]
    spec fn inv(self) -> bool {
        &&& self.pos <= self.data@.len()
        &&& self.limit > 0
    }

    /// The bytes that have not been read yet.
    pub closed spec fn remaining(&self) -> Seq<u8> {
        self.data@.skip(self.pos as int)
    }

    /// The largest number of bytes that one read delivers.
    pub closed spec fn limit(&self) -> nat {
        self.limit as nat
    }

    /// A source that delivers with each read as much as the reader has room
    /// for.
    pub fn new(data: Vec<u8>) -> (source: Source)
        ensures
            source.remaining() == data@,
            source.limit() == usize::MAX,
    {
        Source { data, pos: 0, limit: usize::MAX }
    }

    /// A source that delivers at most `limit` bytes with each read.
    pub fn chunked(data: Vec<u8>, limit: usize) -> (source: Source)
        requires
            limit > 0,
        ensures
            source.remaining() == data@,
            source.limit() == limit,
    {
        Source { data, pos: 0, limit }
    }

    /// The number of bytes that have not been read yet.
    pub fn remaining_len(&self) -> (left: usize)
        ensures
            left == self.remaining().len(),
    {
        proof {
            use_type_invariant(self);
        }
        self.data.len() - self.pos
    }
}

/// Reads from `f` into `buf` from offset `at` on and returns the number of
/// bytes read. The result is 0 only where `f` is used up or `buf` has no
/// room behind `at`.
pub fn checked_read(f: &mut Source, buf: &mut [u8], at: usize) -> (num_read: usize)
    requires
        at <= old(buf)@.len(),
    ensures
        num_read == read_size(
            old(f).limit(),
            old(f).remaining().len(),
            (old(buf)@.len() - at) as nat,
        ),
        final(buf)@ == old(buf)@.take(at as int) + old(f).remaining().take(num_read as int) + old(
            buf,
        )@.skip(at + num_read),
        final(f).remaining() == old(f).remaining().skip(num_read as int),
        final(f).limit() == old(f).limit(),
        num_read == 0 <==> old(f).remaining().len() == 0 || at == old(buf)@.len(),
{
    proof {
        use_type_invariant(&*f);
    }
    let left: usize = f.data.len() - f.pos;
    let room: usize = buf.len() - at;
    let mut n: usize = left;
    if f.limit < n {
        n = f.limit;
    }
    if room < n {
        n = room;
    }
    store(buf, at, slice_subrange(f.data.as_slice(), f.pos, f.pos + n));
    f.pos = f.pos + n;
    assert(buf@ =~= old(buf)@.take(at as int) + old(f).remaining().take(n as int) + old(buf)@.skip(
        at + n,
    ));
    assert(f.remaining() =~= old(f).remaining().skip(n as int));
    n
}

/// Writes all of `buf` to the end of `f`.
pub fn checked_write(f: &mut Vec<u8>, buf: &[u8])
    ensures
        final(f)@ == old(f)@ + buf@,
{
    f.extend_from_slice(buf);
    assert(f@ =~= old(f)@ + buf@);
}

} // verus!
