//! Byte-buffer helpers: comparison, appending and pattern search.

use vstd::prelude::*;

verus! {

/// True when `pattern` occurs in `data` starting at index `at`.
pub open spec fn matches_at(data: Seq<u8>, pattern: Seq<u8>, at: int) -> bool {
    &&& 0 <= at
    &&& at + pattern.len() <= data.len()
    &&& data.subrange(at, at + pattern.len()) == pattern
}

/// Compares two byte slices for equality.
pub fn fast_eq(a: &[u8], b: &[u8]) -> (equal: bool)
    ensures
        equal <==> a@ == b@,
{
    if a.len() != b.len() {
        return false;
    }
    let mut i: usize = 0;
    while i < a.len()
        invariant
            a@.len() == b@.len(),
            i <= a@.len(),
            forall|k: int| 0 <= k < i ==> a@[k] == b@[k],
        decreases a@.len() - i,
    {
        if a[i] != b[i] {
            return false;
        }
        i += 1;
    }
    assert(a@ =~= b@);
    true
}

/// Appends all of `src` to `dest`.
pub fn fast_copy(dest: &mut Vec<u8>, src: &[u8])
    ensures
        final(dest)@ == old(dest)@ + src@,
{
    let mut i: usize = 0;
    while i < src.len()
        invariant
            i <= src@.len(),
            dest@ == old(dest)@ + src@.subrange(0, i as int),
        decreases src@.len() - i,
    {
        dest.push(src[i]);
        i += 1;
        assert(dest@ =~= old(dest)@ + src@.subrange(0, i as int));
    }
    assert(src@.subrange(0, src@.len() as int) =~= src@);
}

/// Appends the bytes `src[start..end]` to `dest`.
pub fn copy_range(dest: &mut Vec<u8>, src: &[u8], start: usize, end: usize)
    requires
        start <= end <= src@.len(),
    ensures
        final(dest)@ == old(dest)@ + src@.subrange(start as int, end as int),
{
    let mut i: usize = start;
    while i < end
        invariant
            start <= i <= end <= src@.len(),
            dest@ == old(dest)@ + src@.subrange(start as int, i as int),
        decreases end - i,
    {
        dest.push(src[i]);
        i += 1;
        assert(dest@ =~= old(dest)@ + src@.subrange(start as int, i as int));
    }
}

/// Tests whether `pattern` occurs in `data` at index `at`.
pub fn pattern_at(data: &[u8], pattern: &[u8], at: usize) -> (found: bool)
    requires
        at + pattern@.len() <= data@.len(),
    ensures
        found <==> matches_at(data@, pattern@, at as int),
{
    let total: usize = data.len();
    let mut j: usize = 0;
    while j < pattern.len()
        invariant
            total == data@.len(),
            at + pattern@.len() <= data@.len(),
            j <= pattern@.len(),
            forall|k: int| 0 <= k < j ==> data@[at + k] == pattern@[k],
        decreases pattern@.len() - j,
    {
        if data[at + j] != pattern[j] {
            assert(data@.subrange(at as int, at + pattern@.len())[j as int] == data@[at + j]);
            return false;
        }
        j += 1;
    }
    assert(data@.subrange(at as int, at + pattern@.len()) =~= pattern@);
    true
}

/// Finds the first index at which `pattern` occurs in `data`.
///
/// An empty pattern, or one longer than `data`, is never found.
pub fn find_pattern(data: &[u8], pattern: &[u8]) -> (found: Option<usize>)
    ensures
        match found {
            Some(i) => {
                &&& pattern@.len() > 0
                &&& matches_at(data@, pattern@, i as int)
                &&& forall|k: int| 0 <= k < i ==> !matches_at(data@, pattern@, k)
            },
            None => pattern@.len() == 0 || forall|k: int| !matches_at(data@, pattern@, k),
        },
{
    if pattern.len() == 0 || pattern.len() > data.len() {
        return None;
    }
    let total: usize = data.len();
    let last: usize = total - pattern.len();
    let mut i: usize = 0;
    while i <= last
        invariant
            total == data@.len(),
            pattern@.len() > 0,
            last == data@.len() - pattern@.len(),
            i <= last + 1,
            forall|k: int| 0 <= k < i ==> !matches_at(data@, pattern@, k),
        decreases last + 1 - i,
    {
        if pattern_at(data, pattern, i) {
            return Some(i);
        }
        i += 1;
    }
    None
}

} // verus!
