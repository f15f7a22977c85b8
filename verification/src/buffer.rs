//! The working buffer: its capacity, and moving bytes to its front.

use vstd::prelude::*;
use crate::error::Error;

verus! {

/// The capacity of the smallest working buffer.
pub const MIN_CAPACITY: usize = 1024;

/// The first of `c`, `2 * c`, `4 * c`, ... that is at least `n`.
pub open spec fn doubled_until(c: nat, n: nat) -> nat
    decreases
        if c < n {
            n - c
        } else {
            0
        },
{
    if c >= n || c == 0 {
        c
    } else {
        doubled_until(2 * c, n)
    }
}

/// The capacity of the working buffer for a pattern of `n` bytes: the least
/// power of two that is at least `n` and at least `MIN_CAPACITY`.
pub open spec fn capacity_for(n: nat) -> nat {
    doubled_until(MIN_CAPACITY as nat, n)
}

/// `c` is a power of two.
pub open spec fn is_power_of_two(c: nat) -> bool
    decreases c,
{
    c == 1 || (c > 1 && c % 2 == 0 && is_power_of_two(c / 2))
}

/// Doubling a power of two until it reaches `n` gives the least power of two
/// that is at least `n` and at least the start.
pub proof fn law_doubled_until(c: nat, n: nat)
    requires
        is_power_of_two(c),
    ensures
        is_power_of_two(doubled_until(c, n)),
        doubled_until(c, n) >= n,
        doubled_until(c, n) >= c,
        doubled_until(c, n) == c || doubled_until(c, n) / 2 < n,
    decreases
        if c < n {
            n - c
        } else {
            0
        },
{
    if c < n {
        law_doubled_until(2 * c, n);
    }
}

/// The minimum capacity is a power of two.
pub proof fn law_minimum_is_power_of_two()
    ensures
        is_power_of_two(MIN_CAPACITY as nat),
{
    reveal_with_fuel(is_power_of_two, 11);
}

/// The capacity is the least power of two that holds the pattern and is not
/// under the minimum.
pub proof fn law_capacity(n: nat)
    ensures
        is_power_of_two(capacity_for(n)),
        capacity_for(n) >= n,
        capacity_for(n) >= MIN_CAPACITY,
        capacity_for(n) == MIN_CAPACITY || capacity_for(n) / 2 < n,
{
    law_minimum_is_power_of_two();
    law_doubled_until(MIN_CAPACITY as nat, n);
}

/// Chooses the capacity of the working buffer for a pattern of `pattern_len`
/// bytes. The pattern is too large where that capacity is more than a
/// `usize` holds.
pub fn buffer_capacity(pattern_len: usize) -> (chosen: Result<usize, Error>)
    ensures
        match chosen {
            Ok(c) => c == capacity_for(pattern_len as nat),
            Err(e) => e == Error::PatternTooLarge && capacity_for(pattern_len as nat) > usize::MAX,
        },
{
    let mut c: usize = MIN_CAPACITY;
    proof {
        law_minimum_is_power_of_two();
    }
    while c < pattern_len
        invariant
            c > 0,
            is_power_of_two(c as nat),
            doubled_until(c as nat, pattern_len as nat) == capacity_for(pattern_len as nat),
        decreases
            if c < pattern_len {
                pattern_len - c
            } else {
                0
            },
    {
        if c > usize::MAX / 2 {
            proof {
                assert(is_power_of_two((2 * c) as nat)) by {
                    assert((2 * c) / 2 == c);
                }
                law_doubled_until((2 * c) as nat, pattern_len as nat);
            }
            return Err(Error::PatternTooLarge);
        }
        proof {
            assert(is_power_of_two((2 * c) as nat)) by {
                assert((2 * c) / 2 == c);
            }
        }
        c = c * 2;
    }
    Ok(c)
}

/// Moves the bytes at `start..end` of `buf` to its front and returns how
/// many were moved. Bytes behind the moved ones stay as they were.
pub fn shift(buf: &mut [u8], start: usize, end: usize) -> (moved: usize)
    requires
        start <= end <= old(buf)@.len(),
    ensures
        moved == end - start,
        final(buf)@.len() == old(buf)@.len(),
        final(buf)@.take(moved as int) == old(buf)@.subrange(start as int, end as int),
        final(buf)@.skip(moved as int) == old(buf)@.skip(moved as int),
{
    let mut i: usize = start;
    while i < end
        invariant
            start <= i <= end <= buf@.len(),
            buf@.len() == old(buf)@.len(),
            forall|j: int| 0 <= j < i - start ==> buf@[j] == old(buf)@[start + j],
            forall|j: int| i - start <= j < buf@.len() ==> buf@[j] == old(buf)@[j],
        decreases end - i,
    {
        let b: u8 = buf[i];
        buf[i - start] = b;
        i += 1;
    }
    assert(buf@.take(end - start) =~= old(buf)@.subrange(start as int, end as int));
    assert(buf@.skip(end - start) =~= old(buf)@.skip(end - start));
    end - start
}

/// Copies `piece` into `buf` from offset `at` on. The other bytes of `buf`
/// stay as they were.
pub fn store(buf: &mut [u8], at: usize, piece: &[u8])
    requires
        at + piece@.len() <= old(buf)@.len(),
    ensures
        final(buf)@ == old(buf)@.take(at as int) + piece@ + old(buf)@.skip(at + piece@.len()),
{
    let n: usize = piece.len();
    let total: usize = buf.len();
    let mut i: usize = 0;
    while i < n
        invariant
            i <= n,
            n == piece@.len(),
            total == buf@.len(),
            at + n <= total,
            buf@.len() == old(buf)@.len(),
            forall|j: int| 0 <= j < at ==> buf@[j] == old(buf)@[j],
            forall|j: int| at <= j < at + i ==> #[trigger] buf@[j] == piece@[j - at],
            forall|j: int| at + i <= j < buf@.len() ==> buf@[j] == old(buf)@[j],
        decreases n - i,
    {
        let b: u8 = piece[i];
        buf[at + i] = b;
        i += 1;
    }
    assert(buf@ =~= old(buf)@.take(at as int) + piece@ + old(buf)@.skip(at + n));
}

} // verus!
