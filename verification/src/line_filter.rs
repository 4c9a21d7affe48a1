//! The line filter: does a line contain a given byte string?

use vstd::prelude::*;

verus! {

/// `needle` stands in `line` at offset `at`.
pub open spec fn occurs_at(line: Seq<u8>, needle: Seq<u8>, at: int) -> bool {
    &&& 0 <= at
    &&& at + needle.len() <= line.len()
    &&& line.subrange(at, at + needle.len()) == needle
}

/// A line matches when the needle is empty or occurs somewhere in the line
/// as a contiguous run of bytes. Bytes are compared as they are: the match is
/// case-sensitive and knows no wildcards.
pub open spec fn line_matches(line: Seq<u8>, needle: Seq<u8>) -> bool {
    needle.len() == 0 || exists|at: int| occurs_at(line, needle, at)
}

/// Compares `needle` with the bytes of `line` that start at `at`.
fn occurs_here(line: &[u8], needle: &[u8], at: usize) -> (found: bool)
    requires
        at + needle@.len() <= line@.len(),
    ensures
        found == occurs_at(line@, needle@, at as int),
{
    let n: usize = needle.len();
    let m: usize = line.len();
    let mut j: usize = 0;
    while j < n
        invariant
            n == needle@.len(),
            m == line@.len(),
            j <= n,
            at + n <= m,
            forall|k: int| 0 <= k < j ==> line@[at + k] == needle@[k],
        decreases n - j,
    {
        if line[at + j] != needle[j] {
            assert(line@.subrange(at as int, at + n)[j as int] != needle@[j as int]);
            return false;
        }
        j += 1;
    }
    assert(line@.subrange(at as int, at + n) =~= needle@);
    true
}

/// Whether `line` passes the filter for `needle`.
pub fn matches(line: &[u8], needle: &[u8]) -> (found: bool)
    ensures
        found == line_matches(line@, needle@),
{
    let n: usize = needle.len();
    let m: usize = line.len();
    if n == 0 {
        return true;
    }
    if n > m {
        return false;
    }
    let last: usize = m - n;
    let mut at: usize = 0;
    while at <= last
        invariant
            n == needle@.len(),
            m == line@.len(),
            0 < n <= m,
            last == m - n,
            at <= last + 1,
            forall|k: int| 0 <= k < at ==> !occurs_at(line@, needle@, k),
        decreases last + 1 - at,
    {
        if occurs_here(line, needle, at) {
            return true;
        }
        at += 1;
    }
    false
}

} // verus!
