//! Operations on byte strings: comparison, search and copying.

use vstd::prelude::*;

verus! {

/// The byte strings of a vector of byte vectors, in order.
pub open spec fn rows(list: Seq<Vec<u8>>) -> Seq<Seq<u8>> {
    Seq::new(list.len(), |i: int| list[i]@)
}

/// A byte string that may be missing, as a value.
pub open spec fn seen(text: Option<Vec<u8>>) -> Option<Seq<u8>> {
    match text {
        Some(text) => Some(text@),
        None => None,
    }
}

/// A byte string or the error that came in its place, as a value.
pub open spec fn got(text: Result<Vec<u8>, i32>) -> Result<Seq<u8>, i32> {
    match text {
        Ok(text) => Ok(text@),
        Err(error) => Err(error),
    }
}

/// `text` begins with `prefix`.
pub open spec fn has_prefix(text: Seq<u8>, prefix: Seq<u8>) -> bool {
    prefix.len() <= text.len() && text.take(prefix.len() as int) == prefix
}

/// Whether two byte strings hold the same bytes.
pub fn equal(left: &[u8], right: &[u8]) -> (same: bool)
    ensures
        same == (left@ == right@),
{
    if left.len() != right.len() {
        return false;
    }
    let mut i: usize = 0;
    while i < left.len()
        invariant
            left.len() == right.len(),
            i <= left.len(),
            forall|j: int| 0 <= j < i ==> left@[j] == right@[j],
        decreases left.len() - i,
    {
        if left[i] != right[i] {
            return false;
        }
        i += 1;
    }
    assert(left@ =~= right@);
    true
}

/// Whether `text` begins with `prefix`.
pub fn starts_with(text: &[u8], prefix: &[u8]) -> (found: bool)
    ensures
        found == has_prefix(text@, prefix@),
{
    if text.len() < prefix.len() {
        return false;
    }
    let mut i: usize = 0;
    while i < prefix.len()
        invariant
            prefix.len() <= text.len(),
            i <= prefix.len(),
            forall|j: int| 0 <= j < i ==> text@[j] == prefix@[j],
        decreases prefix.len() - i,
    {
        if text[i] != prefix[i] {
            assert(text@.take(prefix@.len() as int)[i as int] != prefix@[i as int]);
            return false;
        }
        i += 1;
    }
    assert(text@.take(prefix@.len() as int) =~= prefix@);
    true
}

/// The bytes of `text` from `start` up to `end`.
pub fn range(text: &[u8], start: usize, end: usize) -> (copy: Vec<u8>)
    requires
        start <= end <= text.len(),
    ensures
        copy@ == text@.subrange(start as int, end as int),
{
    let mut copy: Vec<u8> = Vec::new();
    append_range(&mut copy, text, start, end);
    assert(copy@ =~= text@.subrange(start as int, end as int));
    copy
}

/// A copy of `text`.
pub fn copy(text: &[u8]) -> (copy: Vec<u8>)
    ensures
        copy@ == text@,
{
    let copy = range(text, 0, text.len());
    assert(text@.subrange(0, text@.len() as int) =~= text@);
    copy
}

/// Appends the bytes of `text` from `start` up to `end`.
pub fn append_range(out: &mut Vec<u8>, text: &[u8], start: usize, end: usize)
    requires
        start <= end <= text.len(),
    ensures
        final(out)@ == old(out)@ + text@.subrange(start as int, end as int),
{
    let mut i: usize = start;
    while i < end
        invariant
            start <= i <= end <= text.len(),
            out@ == old(out)@ + text@.subrange(start as int, i as int),
        decreases end - i,
    {
        out.push(text[i]);
        i += 1;
        assert(text@.subrange(start as int, i as int) =~= text@.subrange(
            start as int,
            i - 1,
        ).push(text@[i - 1]));
        assert(out@ =~= old(out)@ + text@.subrange(start as int, i as int));
    }
}

/// Appends all bytes of `text`.
pub fn append(out: &mut Vec<u8>, text: &[u8])
    ensures
        final(out)@ == old(out)@ + text@,
{
    append_range(out, text, 0, text.len());
    assert(text@.subrange(0, text@.len() as int) =~= text@);
}

/// Whether `byte` occurs in `text`.
pub fn contains(text: &[u8], byte: u8) -> (found: bool)
    ensures
        found == text@.contains(byte),
{
    let mut i: usize = 0;
    while i < text.len()
        invariant
            i <= text.len(),
            forall|j: int| 0 <= j < i ==> text@[j] != byte,
        decreases text.len() - i,
    {
        if text[i] == byte {
            assert(text@[i as int] == byte);
            return true;
        }
        i += 1;
    }
    false
}

} // verus!
