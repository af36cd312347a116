use vstd::prelude::*;
use crate::paths::FsPath;
use crate::listing::{display_bytes, display_name};
use crate::ordering::ImageInfo;
use crate::digits::{decimal, octal, spec_digits};
use crate::text::{append_chars, spec_decode_lossy};
use crate::codecs::{base64_encode, csv_record, spec_base64, spec_csv_record};

verus! {

/// What the file system reports about an image file: permission bits,
/// owner, group, and (when known) the modification time in seconds since
/// the Unix epoch.
pub struct FileMeta {
    pub mode: u32,
    pub uid: u32,
    pub gid: u32,
    pub mtime: Option<u64>,
}

/// The column names of the metadata table.
pub open spec fn header_fields() -> Seq<Seq<char>> {
    seq![
        seq!['f', 'i', 'l', 'e', 'n', 'a', 'm', 'e'],
        seq!['r', 'e', 's', 'o', 'l', 'u', 't', 'i', 'o', 'n'],
        seq!['r', 'o', 't', 'a', 't', 'e', 'd'],
        seq!['m', 'o', 'd', 'e'],
        seq!['o', 'w', 'n', 'e', 'r', '_', 'u', 'i', 'd'],
        seq!['o', 'w', 'n', 'e', 'r', '_', 'g', 'i', 'd'],
        seq!['m', 't', 'i', 'm', 'e'],
        seq!['e', 'x', 'i', 'f', '_', 'm', 'e', 't', 'a', 'd', 'a', 't', 'a'],
    ]
}

/// The row of one image: its name relative to the root, `<width>x<height>`,
/// `1` when it was turned, the permission bits in octal, owner and group,
/// the modification time, and its EXIF data in Base64; a field the file
/// system could not give is empty, and so is the EXIF field when no EXIF
/// data could be extracted.
pub open spec fn image_fields(img: (Seq<Seq<u8>>, u32, u32, bool), root: Seq<Seq<u8>>, meta: Option<(u32, u32, u32, Option<u64>)>, exif: Option<Seq<u8>>) -> Seq<Seq<char>> {
    seq![
        spec_decode_lossy(display_bytes(img.0, true, root)),
        spec_digits(img.1 as nat, 10) + seq!['x'] + spec_digits(img.2 as nat, 10),
        if img.3 { seq!['1'] } else { Seq::empty() },
        match meta { Some(m) => spec_digits(m.0 as nat, 8), None => Seq::empty() },
        match meta { Some(m) => spec_digits(m.1 as nat, 10), None => Seq::empty() },
        match meta { Some(m) => spec_digits(m.2 as nat, 10), None => Seq::empty() },
        match meta { Some(m) => match m.3 { Some(t) => spec_digits(t as nat, 10), None => Seq::empty() }, None => Seq::empty() },
        match exif { Some(e) => spec_base64(e), None => Seq::empty() },
    ]
}

/// The abstract value of the file system's answer.
pub open spec fn meta_view(m: Option<FileMeta>) -> Option<(u32, u32, u32, Option<u64>)> {
    match m {
        Some(x) => Some((x.mode, x.uid, x.gid, x.mtime)),
        None => None,
    }
}

/// The abstract value of the extracted EXIF data.
pub open spec fn exif_view(e: Option<Vec<u8>>) -> Option<Seq<u8>> {
    match e {
        Some(b) => Some(b@),
        None => None,
    }
}

/// The views of a table's rows.
pub open spec fn rows_view(rows: Seq<Vec<Vec<char>>>) -> Seq<Seq<Seq<char>>> {
    rows.map_values(|r: Vec<Vec<char>>| r@.map_values(|f: Vec<char>| f@))
}

/// The column names of the metadata table.
pub fn header_row() -> (r: Vec<Vec<char>>)
    ensures
        r@.map_values(|f: Vec<char>| f@) == header_fields(),
{
    let r = vec![
        vec!['f', 'i', 'l', 'e', 'n', 'a', 'm', 'e'],
        vec!['r', 'e', 's', 'o', 'l', 'u', 't', 'i', 'o', 'n'],
        vec!['r', 'o', 't', 'a', 't', 'e', 'd'],
        vec!['m', 'o', 'd', 'e'],
        vec!['o', 'w', 'n', 'e', 'r', '_', 'u', 'i', 'd'],
        vec!['o', 'w', 'n', 'e', 'r', '_', 'g', 'i', 'd'],
        vec!['m', 't', 'i', 'm', 'e'],
        vec!['e', 'x', 'i', 'f', '_', 'm', 'e', 't', 'a', 'd', 'a', 't', 'a'],
    ];
    assert(r@.map_values(|f: Vec<char>| f@) =~= header_fields());
    r
}

/// The row of one image in the metadata table.
pub fn image_row(img: &ImageInfo, root: &FsPath, meta: &Option<FileMeta>, exif: &Option<Vec<u8>>) -> (r: Vec<Vec<char>>)
    ensures
        r@.map_values(|f: Vec<char>| f@) == image_fields(img@, root@, meta_view(*meta), exif_view(*exif)),
{
    let name = display_name(&img.path, true, root);
    let mut res = decimal(img.width as u64);
    let ghost w0 = res@;
    res.push('x');
    assert(res@ =~= w0 + seq!['x']);
    let hd = decimal(img.height as u64);
    append_chars(&mut res, &hd);
    assert(res@ =~= spec_digits(img.width as nat, 10) + seq!['x'] + spec_digits(img.height as nat, 10));
    let rotated: Vec<char> = if img.rotate {
        vec!['1']
    } else {
        Vec::new()
    };
    let (mode, uid, gid, mtime) = match meta {
        Some(m) => {
            let mt = match m.mtime {
                Some(t) => decimal(t),
                None => Vec::new(),
            };
            (octal(m.mode as u64), decimal(m.uid as u64), decimal(m.gid as u64), mt)
        },
        None => (Vec::new(), Vec::new(), Vec::new(), Vec::new()),
    };
    let exif_text = match exif {
        Some(e) => base64_encode(e),
        None => Vec::new(),
    };
    let ghost fields = image_fields(img@, root@, meta_view(*meta), exif_view(*exif));
    assert(rotated@ =~= fields[2]);
    assert(mode@ =~= fields[3]);
    assert(uid@ =~= fields[4]);
    assert(gid@ =~= fields[5]);
    assert(mtime@ =~= fields[6]);
    assert(exif_text@ =~= fields[7]);
    let r = vec![name, res, rotated, mode, uid, gid, mtime, exif_text];
    assert(r@.map_values(|f: Vec<char>| f@) =~= image_fields(img@, root@, meta_view(*meta), exif_view(*exif)));
    r
}

/// The bytes of a CSV table: its rows' encodings one after another.
pub open spec fn csv_table(rows: Seq<Seq<Seq<char>>>) -> Seq<u8>
    decreases rows.len(),
{
    if rows.len() == 0 {
        Seq::empty()
    } else {
        csv_table(rows.drop_last()) + spec_csv_record(rows.last())
    }
}

/// Encodes the rows of a table as CSV: the rows' encodings one after another.
pub fn encode_table(rows: &Vec<Vec<Vec<char>>>) -> (r: Option<Vec<u8>>)
    ensures
        r is Some,
        r matches Some(b) ==> b@ == csv_table(rows_view(rows@)),
{
    let ghost rv = rows_view(rows@);
    let mut out: Vec<u8> = Vec::new();
    let mut i: usize = 0;
    assert(rv.subrange(0, 0) =~= Seq::<Seq<Seq<char>>>::empty());
    while i < rows.len()
        invariant
            rv == rows_view(rows@),
            i <= rows@.len(),
            out@ == csv_table(rv.subrange(0, i as int)),
        decreases rows@.len() - i,
    {
        let bytes = match csv_record(&rows[i]) {
            Some(b) => b,
            None => {
                return None;
            },
        };
        let ghost before = out@;
        let mut k: usize = 0;
        while k < bytes.len()
            invariant
                k <= bytes@.len(),
                out@ == before + bytes@.subrange(0, k as int),
            decreases bytes@.len() - k,
        {
            out.push(bytes[k]);
            k = k + 1;
            assert(out@ =~= before + bytes@.subrange(0, k as int));
        }
        assert(bytes@.subrange(0, k as int) =~= bytes@);
        let ghost next = rv.subrange(0, i + 1);
        assert(next.drop_last() =~= rv.subrange(0, i as int));
        assert(next.last() == rows@[i as int]@.map_values(|f: Vec<char>| f@));
        i = i + 1;
    }
    assert(rv.subrange(0, i as int) =~= rv);
    Some(out)
}

} // verus!
