use vstd::prelude::*;
use crate::paths::FsPath;
use crate::listing::{join_parts, join_path};
use crate::digits::{hex_upper, spec_hex, lemma_hex_len};
use crate::codecs::{md5_digest, spec_md5};

verus! {

/// The bytes of an absolute path: `/` followed by its components joined with `/`.
pub open spec fn absolute_bytes(p: Seq<Seq<u8>>) -> Seq<u8> {
    seq![47u8] + join_parts(p)
}

/// The name of the file that keeps the choices made for a root directory:
/// the upper-case hexadecimal MD5 digest of the directory's path.
pub open spec fn spec_state_file_name(root: Seq<Seq<u8>>) -> Seq<char> {
    spec_hex(spec_md5(absolute_bytes(root)))
}

/// The bytes of an absolute path.
pub fn path_bytes(p: &FsPath) -> (r: Vec<u8>)
    ensures
        r@ == absolute_bytes(p@),
{
    let joined = join_path(&p.parts);
    let mut r: Vec<u8> = Vec::new();
    r.push(47u8);
    let mut k: usize = 0;
    while k < joined.len()
        invariant
            k <= joined@.len(),
            r@ == seq![47u8] + joined@.subrange(0, k as int),
        decreases joined@.len() - k,
    {
        r.push(joined[k]);
        k = k + 1;
        assert(r@ =~= seq![47u8] + joined@.subrange(0, k as int));
    }
    assert(joined@.subrange(0, k as int) =~= joined@);
    assert(p.parts@.map_values(|c: Vec<u8>| c@) == p@);
    r
}

/// The name of the file that keeps the choices made for `root`
/// (32 hexadecimal digits).
pub fn state_file_name(root: &FsPath) -> (r: Vec<char>)
    ensures
        r@ == spec_state_file_name(root@),
        r@.len() == 32,
{
    let digest = md5_digest(&path_bytes(root));
    let r = hex_upper(&digest);
    proof {
        lemma_hex_len(digest@);
    }
    r
}

} // verus!
