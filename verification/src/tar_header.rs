use vstd::prelude::*;

verus! {

/// The `n` lowest octal digits of `v`, most significant first, as ASCII.
pub open spec fn octal_digits(v: nat, n: nat) -> Seq<u8>
    decreases n,
{
    if n == 0 {
        Seq::empty()
    } else {
        octal_digits(v / 8, (n - 1) as nat).push((48 + v % 8) as u8)
    }
}

/// A numeric tar field of `width` bytes in octal: the low `width - 1`
/// digits of `v`, zero-padded on the left, then a NUL.
pub open spec fn octal_field(v: nat, width: nat) -> Seq<u8> {
    octal_digits(v, (width - 1) as nat).push(0u8)
}

/// The `n` lowest base-256 digits of `v`, most significant first.
pub open spec fn be_bytes(v: nat, n: nat) -> Seq<u8>
    decreases n,
{
    if n == 0 {
        Seq::empty()
    } else {
        be_bytes(v / 256, (n - 1) as nat).push((v % 256) as u8)
    }
}

/// The 12-byte size field for `size`: octal when it fits in 11 octal digits,
/// else the binary extension (high bit set, then the value in the last 8
/// bytes, big-endian).
pub open spec fn size_field(size: u64) -> Seq<u8> {
    if size >= 8589934592 {
        seq![0x80u8, 0u8, 0u8, 0u8] + be_bytes(size as nat, 8)
    } else {
        octal_field(size as nat, 12)
    }
}

/// A header block with its size field (bytes 124 to 136) replaced.
pub open spec fn with_size(h: Seq<u8>, size: u64) -> Seq<u8> {
    h.subrange(0, 124) + size_field(size) + h.subrange(136, 512)
}

/// The sum of a byte string.
pub open spec fn byte_sum(s: Seq<u8>) -> nat
    decreases s.len(),
{
    if s.len() == 0 {
        0
    } else {
        byte_sum(s.drop_last()) + s.last() as nat
    }
}

/// The checksum of a header block: the sum of its bytes with the eight
/// bytes of the checksum field (148 to 156) counted as spaces.
pub open spec fn header_cksum(h: Seq<u8>) -> nat {
    byte_sum(h.subrange(0, 148)) + 8 * 32 + byte_sum(h.subrange(156, 512))
}

/// A header block with its checksum field replaced by the checksum of its
/// other bytes.
pub open spec fn with_cksum(h: Seq<u8>) -> Seq<u8> {
    h.subrange(0, 148) + octal_field(header_cksum(h), 8) + h.subrange(156, 512)
}

/// A 512-byte header block whose checksum field holds its checksum.
pub open spec fn cksum_valid(h: Seq<u8>) -> bool {
    h.len() == 512 && h.subrange(148, 156) == octal_field(header_cksum(h), 8)
}

pub proof fn lemma_octal_digits_len(v: nat, n: nat)
    ensures
        octal_digits(v, n).len() == n,
    decreases n,
{
    if n > 0 {
        lemma_octal_digits_len(v / 8, (n - 1) as nat);
    }
}

pub proof fn lemma_be_bytes_len(v: nat, n: nat)
    ensures
        be_bytes(v, n).len() == n,
    decreases n,
{
    if n > 0 {
        lemma_be_bytes_len(v / 256, (n - 1) as nat);
    }
}

/// Calls `tar::Header::set_size` on a copy of a 512-byte header (read with
/// `Header::from_byte_slice`, which panics on any other length, and written
/// back with `Header::as_bytes`). Claims what tar's source does there: the
/// size field is written by `num_field_wrapper_into`, in octal by
/// `octal_into` below 8^11 and else by `numeric_extended_into`, and no other
/// byte changes.
#[verifier::external_body]
pub(crate) fn tar_set_size(header: &Vec<u8>, size: u64) -> (r: Vec<u8>)
    requires
        header@.len() == 512,
    ensures
        r@ == with_size(header@, size),
{
    let mut h = tar::Header::from_byte_slice(header.as_slice()).clone();
    h.set_size(size);
    h.as_bytes().to_vec()
}

/// Calls `tar::Header::set_cksum` on a copy of a 512-byte header, read and
/// written back as above. Claims what tar's source does there:
/// `calculate_cksum` sums the bytes with the checksum field counted as
/// spaces, `octal_into` writes the sum into that field, and no other byte
/// changes.
#[verifier::external_body]
pub(crate) fn tar_set_cksum(header: &Vec<u8>) -> (r: Vec<u8>)
    requires
        header@.len() == 512,
    ensures
        r@ == with_cksum(header@),
{
    let mut h = tar::Header::from_byte_slice(header.as_slice()).clone();
    h.set_cksum();
    h.as_bytes().to_vec()
}

} // verus!
