use vstd::prelude::*;

verus! {

/// The characters that `String::from_utf8_lossy` decodes from a byte string
/// (invalid sequences become U+FFFD).
pub uninterp spec fn spec_decode_lossy(bytes: Seq<u8>) -> Seq<char>;

/// The characters of `str::to_lowercase` applied to a string (Unicode
/// lowercase mapping).
pub uninterp spec fn spec_lowercase(s: Seq<char>) -> Seq<char>;

/// Calls `String::from_utf8_lossy`. Claims only that the result is the named
/// decoding of exactly these bytes.
#[verifier::external_body]
pub(crate) fn decode_lossy(bytes: &Vec<u8>) -> (r: Vec<char>)
    ensures
        r@ == spec_decode_lossy(bytes@),
{
    String::from_utf8_lossy(bytes.as_slice()).chars().collect()
}

/// Calls `str::to_lowercase`. Claims only that the result is the named
/// lowercase form of exactly these characters.
#[verifier::external_body]
pub(crate) fn lowercase(s: &Vec<char>) -> (r: Vec<char>)
    ensures
        r@ == spec_lowercase(s@),
{
    let text: String = s.iter().collect();
    text.to_lowercase().chars().collect()
}

/// Whether two character strings are equal.
pub fn chars_eq(a: &Vec<char>, b: &Vec<char>) -> (r: bool)
    ensures
        r == (a@ == b@),
{
    if a.len() != b.len() {
        return false;
    }
    let mut i: usize = 0;
    while i < a.len()
        invariant
            a.len() == b.len(),
            i <= a.len(),
            forall|j: int| 0 <= j < i ==> a@[j] == b@[j],
        decreases a.len() - i,
    {
        if a[i] != b[i] {
            return false;
        }
        i = i + 1;
    }
    assert(a@ =~= b@);
    true
}

/// Whether two byte strings are equal.
pub fn bytes_eq(a: &Vec<u8>, b: &Vec<u8>) -> (r: bool)
    ensures
        r == (a@ == b@),
{
    if a.len() != b.len() {
        return false;
    }
    let mut i: usize = 0;
    while i < a.len()
        invariant
            a.len() == b.len(),
            i <= a.len(),
            forall|j: int| 0 <= j < i ==> a@[j] == b@[j],
        decreases a.len() - i,
    {
        if a[i] != b[i] {
            return false;
        }
        i = i + 1;
    }
    assert(a@ =~= b@);
    true
}

/// A copy of a byte string.
pub fn copy_bytes(a: &Vec<u8>) -> (r: Vec<u8>)
    ensures
        r@ == a@,
{
    let mut r: Vec<u8> = Vec::new();
    let mut i: usize = 0;
    while i < a.len()
        invariant
            i <= a.len(),
            r@ == a@.subrange(0, i as int),
        decreases a.len() - i,
    {
        r.push(a[i]);
        i = i + 1;
        assert(r@ =~= a@.subrange(0, i as int));
    }
    assert(a@.subrange(0, a.len() as int) =~= a@);
    r
}

/// A copy of a character string.
pub fn copy_chars(a: &Vec<char>) -> (r: Vec<char>)
    ensures
        r@ == a@,
{
    let mut r: Vec<char> = Vec::new();
    let mut i: usize = 0;
    while i < a.len()
        invariant
            i <= a.len(),
            r@ == a@.subrange(0, i as int),
        decreases a.len() - i,
    {
        r.push(a[i]);
        i = i + 1;
        assert(r@ =~= a@.subrange(0, i as int));
    }
    assert(a@.subrange(0, a.len() as int) =~= a@);
    r
}

/// Appends all of `tail` to `dst`.
pub fn append_chars(dst: &mut Vec<char>, tail: &Vec<char>)
    ensures
        final(dst)@ == old(dst)@ + tail@,
{
    let ghost start = dst@;
    let mut i: usize = 0;
    while i < tail.len()
        invariant
            i <= tail.len(),
            dst@ == start + tail@.subrange(0, i as int),
        decreases tail.len() - i,
    {
        dst.push(tail[i]);
        i = i + 1;
        assert(dst@ =~= start + tail@.subrange(0, i as int));
    }
    assert(tail@.subrange(0, tail.len() as int) =~= tail@);
}

} // verus!
