//! Search for a byte pattern inside a byte slice.

use vstd::prelude::*;
use crate::model::{occurs_at, occurs_in, first_at};

verus! {

/// Whether `needle` stands in `haystack` at offset `at`.
fn matches_here(haystack: &[u8], needle: &[u8], at: usize) -> (hit: bool)
    requires
        at + needle@.len() <= haystack@.len(),
    ensures
        hit == occurs_at(haystack@, needle@, at as int),
{
    let n: usize = needle.len();
    let h: usize = haystack.len();
    let mut j: usize = 0;
    while j < n
        invariant
            j <= n,
            n == needle@.len(),
            h == haystack@.len(),
            at + n <= h,
            forall|x: int| 0 <= x < j ==> haystack@[at + x] == needle@[x],
        decreases n - j,
    {
        if haystack[at + j] != needle[j] {
            assert(haystack@.subrange(at as int, at + n)[j as int] == haystack@[at + j]);
            return false;
        }
        j += 1;
    }
    assert(haystack@.subrange(at as int, at + n) =~= needle@);
    true
}

/// Finds the leftmost occurrence of `needle` in `haystack`.
///
/// The empty needle occurs at offset 0 of every haystack. A needle longer
/// than the haystack occurs nowhere.
pub fn safe_memmem(haystack: &[u8], needle: &[u8]) -> (found: Option<usize>)
    ensures
        match found {
            Some(k) => first_at(haystack@, needle@, k as int),
            None => !occurs_in(haystack@, needle@),
        },
{
    if needle.len() > haystack.len() {
        return None;
    }
    let last: usize = haystack.len() - needle.len();
    let mut i: usize = 0;
    loop
        invariant
            last == haystack@.len() - needle@.len(),
            i <= last,
            forall|j: int| 0 <= j < i ==> !occurs_at(haystack@, needle@, j),
        decreases last - i,
    {
        if matches_here(haystack, needle, i) {
            return Some(i);
        }
        if i == last {
            return None;
        }
        i += 1;
    }
}

} // verus!
