use vstd::prelude::*;
use base64::Engine;
use unicode_width::UnicodeWidthStr;

verus! {

/// The MD5 digest of a byte string, as `md5::compute` gives it.
pub uninterp spec fn spec_md5(data: Seq<u8>) -> Seq<u8>;

/// The standard Base64 encoding (with padding) of a byte string, as
/// `base64::prelude::BASE64_STANDARD.encode` gives it.
pub uninterp spec fn spec_base64(data: Seq<u8>) -> Seq<char>;

/// The bytes of one CSV record, terminator included, as a `csv::Writer`
/// with default settings writes it.
pub uninterp spec fn spec_csv_record(fields: Seq<Seq<char>>) -> Seq<u8>;

/// The number of terminal columns a string takes, as
/// `unicode_width::UnicodeWidthStr::width` counts them.
pub uninterp spec fn spec_str_width(s: Seq<char>) -> usize;

/// The text of `indicatif::HumanBytes` for a byte count ("1.50 KiB").
pub uninterp spec fn spec_human_bytes(n: u64) -> Seq<char>;

/// Calls `md5::compute`. Claims that the result is the named digest of
/// exactly these bytes and, as the `Digest` type (`[u8; 16]`) fixes, 16
/// bytes long.
#[verifier::external_body]
pub(crate) fn md5_digest(data: &Vec<u8>) -> (r: Vec<u8>)
    ensures
        r@ == spec_md5(data@),
        r@.len() == 16,
{
    md5::compute(data.as_slice()).0.to_vec()
}

/// Calls `Engine::encode` on `BASE64_STANDARD`. Claims only that the result
/// is the named encoding of exactly these bytes.
#[verifier::external_body]
pub(crate) fn base64_encode(data: &Vec<u8>) -> (r: Vec<char>)
    ensures
        r@ == spec_base64(data@),
{
    base64::prelude::BASE64_STANDARD.encode(data.as_slice()).chars().collect()
}

/// Calls `csv::Writer::write_record` on a fresh writer over a `Vec<u8>`
/// (made by `Writer::from_writer`, read back by `Writer::into_inner`). Claims
/// that it succeeds and that the bytes are the named encoding of exactly these
/// fields. In csv's source the writer fails only when its underlying writer
/// fails (a `Vec<u8>` never does) or when a record's field count differs from
/// that of the writer's first record (this is the first record).
#[verifier::external_body]
pub(crate) fn csv_record(fields: &Vec<Vec<char>>) -> (r: Option<Vec<u8>>)
    ensures
        r is Some,
        r matches Some(b) ==> b@ == spec_csv_record(fields@.map_values(|f: Vec<char>| f@)),
{
    let mut writer = csv::Writer::from_writer(Vec::new());
    let texts: Vec<String> = fields.iter().map(|f| f.iter().collect::<String>()).collect();
    match writer.write_record(&texts) {
        Ok(()) => {},
        Err(_) => return None,
    }
    match writer.into_inner() {
        Ok(bytes) => Some(bytes),
        Err(_) => None,
    }
}

/// Calls `UnicodeWidthStr::width`. Claims only that the result is the named
/// width of exactly these characters.
#[verifier::external_body]
pub(crate) fn str_width(s: &Vec<char>) -> (r: usize)
    ensures
        r == spec_str_width(s@),
{
    let text: String = s.iter().collect();
    text.as_str().width()
}

/// Formats `indicatif::HumanBytes`. Claims only that the result is the named
/// text for exactly this count.
#[verifier::external_body]
pub(crate) fn human_bytes(n: u64) -> (r: Vec<char>)
    ensures
        r@ == spec_human_bytes(n),
{
    format!("{}", indicatif::HumanBytes(n)).chars().collect()
}

} // verus!
