use vstd::prelude::*;
use crate::option::ArchiveOption;
use crate::paths::{FsPath, is_prefix, strip_root};
use crate::choices::ChosenOptions;
use crate::digits::{decimal, spec_digits};
use crate::text::{append_chars, copy_bytes, decode_lossy, spec_decode_lossy};
use crate::tar_header::{
    with_size, with_cksum, size_field, cksum_valid, octal_field, header_cksum, tar_set_size, tar_set_cksum,
    lemma_octal_digits_len, lemma_be_bytes_len,
};

verus! {

/// A file that goes into the archive: its path, whether it lies in the
/// archived tree (the generated members `<id>.mkv` and `<id>.csv` do not and
/// have a relative path), its modification time in seconds since the Unix
/// epoch, and its size in bytes.
pub struct FileRecord {
    pub path: FsPath,
    pub in_tree: bool,
    pub mtime: u64,
    pub size: u64,
}

/// The abstract value of a file record.
pub type RecordView = (Seq<Seq<u8>>, bool, u64, u64);

impl View for FileRecord {
    type V = RecordView;

    open spec fn view(&self) -> RecordView {
        (self.path@, self.in_tree, self.mtime, self.size)
    }
}

/// The views of a list of records.
pub open spec fn record_views(s: Seq<FileRecord>) -> Seq<RecordView> {
    s.map_values(|r: FileRecord| r@)
}

/// The views of a list of paths.
pub open spec fn path_views(s: Seq<FsPath>) -> Seq<Seq<Seq<u8>>> {
    s.map_values(|p: FsPath| p@)
}

/// Whether a file goes into the video stream instead of the archive lists.
pub open spec fn is_optimized(opt: Option<Seq<Seq<Seq<u8>>>>, p: Seq<Seq<u8>>) -> bool {
    match opt {
        Some(s) => s.contains(p),
        None => false,
    }
}

/// The files of the tree, in walking order, that end up in the part of the
/// archive for option `o` (Include: uncompressed, Compress: compressed).
pub open spec fn files_for(c: ChosenOptions, files: Seq<RecordView>, opt: Option<Seq<Seq<Seq<u8>>>>, o: ArchiveOption) -> Seq<RecordView>
    decreases files.len(),
{
    if files.len() == 0 {
        Seq::empty()
    } else {
        let prev = files_for(c, files.drop_last(), opt, o);
        let f = files.last();
        if !is_optimized(opt, f.0) && c.effective(f.0) == o {
            prev.push(f)
        } else {
            prev
        }
    }
}

/// A file of the tree is in the part for option `o` exactly when it is not
/// in the video stream and its effective option is `o`.
pub proof fn lemma_files_for_contains(c: ChosenOptions, files: Seq<RecordView>, opt: Option<Seq<Seq<Seq<u8>>>>, o: ArchiveOption, f: RecordView)
    ensures
        files_for(c, files, opt, o).contains(f) <==> (files.contains(f) && !is_optimized(opt, f.0) && c.effective(f.0) == o),
    decreases files.len(),
{
    if files.len() > 0 {
        let p = files.drop_last();
        lemma_files_for_contains(c, p, opt, o, f);
        let prev = files_for(c, p, opt, o);
        if files.contains(f) && !is_optimized(opt, f.0) && c.effective(f.0) == o {
            let j = choose|j: int| 0 <= j < files.len() && files[j] == f;
            if j < p.len() {
                assert(p[j] == f);
                let k = choose|k: int| 0 <= k < prev.len() && prev[k] == f;
                assert(files_for(c, files, opt, o)[k] == f);
            } else {
                assert(files_for(c, files, opt, o).last() == f);
            }
        }
        if files_for(c, files, opt, o).contains(f) {
            let k = choose|k: int| 0 <= k < files_for(c, files, opt, o).len() && files_for(c, files, opt, o)[k] == f;
            if k < prev.len() {
                assert(prev[k] == f);
                let j = choose|j: int| 0 <= j < p.len() && p[j] == f;
                assert(files[j] == f);
            } else {
                assert(files[files.len() - 1] == f);
            }
        }
    }
}

/// Every file of the tree that is neither excluded nor in the video stream
/// goes into exactly one part of the archive (the uncompressed one for
/// Include, the compressed one for Compress); the others go into neither.
pub proof fn lemma_parts_partition(c: ChosenOptions, files: Seq<RecordView>, opt: Option<Seq<Seq<Seq<u8>>>>, f: RecordView)
    requires
        files.contains(f),
    ensures
        files_for(c, files, opt, ArchiveOption::Include).contains(f) <==> (!is_optimized(opt, f.0) && c.effective(f.0) == ArchiveOption::Include),
        files_for(c, files, opt, ArchiveOption::Compress).contains(f) <==> (!is_optimized(opt, f.0) && c.effective(f.0) == ArchiveOption::Compress),
        !(files_for(c, files, opt, ArchiveOption::Include).contains(f) && files_for(c, files, opt, ArchiveOption::Compress).contains(f)),
        (is_optimized(opt, f.0) || c.effective(f.0) == ArchiveOption::Exclude) ==> !files_for(c, files, opt, ArchiveOption::Include).contains(f) && !files_for(c, files, opt, ArchiveOption::Compress).contains(f),
{
    lemma_files_for_contains(c, files, opt, ArchiveOption::Include, f);
    lemma_files_for_contains(c, files, opt, ArchiveOption::Compress, f);
}

/// The generated member `<stem><suffix>`: outside the tree, dated `now`, empty.
pub open spec fn generated(stem: Seq<u8>, suffix: Seq<u8>, now: u64) -> RecordView {
    (seq![stem + suffix], false, now, 0u64)
}

pub open spec fn mkv_suffix() -> Seq<u8> {
    seq![46u8, 109u8, 107u8, 118u8]
}

pub open spec fn csv_suffix() -> Seq<u8> {
    seq![46u8, 99u8, 115u8, 118u8]
}

fn suffix_bytes(mkv: bool) -> (r: Vec<u8>)
    ensures
        r@ == if mkv {
            mkv_suffix()
        } else {
            csv_suffix()
        },
{
    let r = if mkv {
        vec![46u8, 109u8, 107u8, 118u8]
    } else {
        vec![46u8, 99u8, 115u8, 118u8]
    };
    assert(r@ =~= if mkv {
        mkv_suffix()
    } else {
        csv_suffix()
    });
    r
}

fn generated_record(stem: &Vec<u8>, mkv: bool, now: u64) -> (r: FileRecord)
    ensures
        r@ == generated(stem@, if mkv {
            mkv_suffix()
        } else {
            csv_suffix()
        }, now),
{
    let mut name = copy_bytes(stem);
    let suffix = suffix_bytes(mkv);
    let mut i: usize = 0;
    let ghost start = name@;
    while i < suffix.len()
        invariant
            i <= suffix@.len(),
            name@ == start + suffix@.subrange(0, i as int),
        decreases suffix@.len() - i,
    {
        name.push(suffix[i]);
        i = i + 1;
        assert(name@ =~= start + suffix@.subrange(0, i as int));
    }
    assert(suffix@.subrange(0, i as int) =~= suffix@);
    let mut parts: Vec<Vec<u8>> = Vec::new();
    parts.push(name);
    let path = FsPath::from_parts(parts);
    let r = FileRecord { path, in_tree: false, mtime: now, size: 0 };
    assert(r@.0 =~= seq![stem@ + suffix@]);
    r
}

/// A copy of a record.
pub fn copy_record(r: &FileRecord) -> (c: FileRecord)
    ensures
        c@ == r@,
{
    FileRecord { path: r.path.duplicate(), in_tree: r.in_tree, mtime: r.mtime, size: r.size }
}

fn contains_path(set: &Vec<FsPath>, p: &FsPath) -> (r: bool)
    ensures
        r == path_views(set@).contains(p@),
{
    let mut i: usize = 0;
    while i < set.len()
        invariant
            i <= set@.len(),
            forall|j: int| 0 <= j < i ==> set@[j]@ != p@,
        decreases set@.len() - i,
    {
        if set[i].equals(p) {
            assert(path_views(set@)[i as int] == p@);
            return true;
        }
        i = i + 1;
    }
    assert(!path_views(set@).contains(p@)) by {
        if path_views(set@).contains(p@) {
            let j = choose|j: int| 0 <= j < path_views(set@).len() && path_views(set@)[j] == p@;
            assert(set@[j]@ == p@);
        }
    }
    false
}

/// Splits the files of the tree (in walking order) into the uncompressed and
/// the compressed part of the archive by their effective option; excluded
/// files and files that went into the video stream are left out. When images
/// were optimized, each part starts with a generated member, `<stem>.mkv`
/// (the video) and `<stem>.csv` (the metadata), dated `now`.
pub fn split_files(
    choices: &ChosenOptions,
    files: &Vec<FileRecord>,
    optimized: &Option<Vec<FsPath>>,
    stem: &Vec<u8>,
    now: u64,
) -> (r: (Vec<FileRecord>, Vec<FileRecord>))
    ensures
        ({
            let opt = match optimized {
                Some(s) => Some(path_views(s@)),
                None => None,
            };
            let fv = record_views(files@);
            &&& record_views(r.0@) == (if optimized is Some {
                seq![generated(stem@, mkv_suffix(), now)]
            } else {
                Seq::empty()
            }) + files_for(*choices, fv, opt, ArchiveOption::Include)
            &&& record_views(r.1@) == (if optimized is Some {
                seq![generated(stem@, csv_suffix(), now)]
            } else {
                Seq::empty()
            }) + files_for(*choices, fv, opt, ArchiveOption::Compress)
        }),
{
    let ghost opt = match optimized {
        Some(s) => Some(path_views(s@)),
        None => None,
    };
    let ghost fv = record_views(files@);
    let mut uncompr: Vec<FileRecord> = Vec::new();
    let mut compr: Vec<FileRecord> = Vec::new();
    if optimized.is_some() {
        uncompr.push(generated_record(stem, true, now));
        compr.push(generated_record(stem, false, now));
    }
    let ghost head_u = record_views(uncompr@);
    let ghost head_c = record_views(compr@);
    assert(head_u =~= (if optimized is Some {
        seq![generated(stem@, mkv_suffix(), now)]
    } else {
        Seq::empty()
    }));
    assert(head_c =~= (if optimized is Some {
        seq![generated(stem@, csv_suffix(), now)]
    } else {
        Seq::empty()
    }));
    assert(head_u + files_for(*choices, fv.subrange(0, 0), opt, ArchiveOption::Include) =~= head_u);
    assert(head_c + files_for(*choices, fv.subrange(0, 0), opt, ArchiveOption::Compress) =~= head_c);
    let mut i: usize = 0;
    while i < files.len()
        invariant
            fv == record_views(files@),
            opt == match optimized {
                Some(s) => Some(path_views(s@)),
                None => None,
            },
            i <= files@.len(),
            record_views(uncompr@) == head_u + files_for(*choices, fv.subrange(0, i as int), opt, ArchiveOption::Include),
            record_views(compr@) == head_c + files_for(*choices, fv.subrange(0, i as int), opt, ArchiveOption::Compress),
        decreases files@.len() - i,
    {
        let f = &files[i];
        let ghost pre = fv.subrange(0, i as int);
        let ghost next = fv.subrange(0, i + 1);
        assert(next.drop_last() =~= pre);
        assert(next.last() == f@);
        let skip = match optimized {
            Some(s) => contains_path(s, &f.path),
            None => false,
        };
        let ghost old_u = record_views(uncompr@);
        let ghost old_c = record_views(compr@);
        if !skip {
            match choices.effective_option(&f.path) {
                ArchiveOption::Include => {
                    uncompr.push(copy_record(f));
                    assert(record_views(uncompr@) =~= old_u.push(f@));
                },
                ArchiveOption::Compress => {
                    compr.push(copy_record(f));
                    assert(record_views(compr@) =~= old_c.push(f@));
                },
                ArchiveOption::Exclude => {},
            }
        }
        assert(record_views(uncompr@) =~= head_u + files_for(*choices, next, opt, ArchiveOption::Include));
        assert(record_views(compr@) =~= head_c + files_for(*choices, next, opt, ArchiveOption::Compress));
        i = i + 1;
    }
    assert(fv.subrange(0, i as int) =~= fv);
    (uncompr, compr)
}

/// Path components joined with `/`.
pub open spec fn join_parts(p: Seq<Seq<u8>>) -> Seq<u8>
    decreases p.len(),
{
    if p.len() == 0 {
        Seq::empty()
    } else if p.len() == 1 {
        p[0]
    } else {
        join_parts(p.drop_last()) + seq![47u8] + p.last()
    }
}

/// The bytes of the name a file is listed and stored under: relative to
/// the root directory when it lies inside it (the generated members keep
/// their relative name), else its absolute path.
pub open spec fn display_bytes(path: Seq<Seq<u8>>, in_tree: bool, root: Seq<Seq<u8>>) -> Seq<u8> {
    if !in_tree {
        join_parts(path)
    } else if is_prefix(root, path) {
        join_parts(strip_root(path, root))
    } else {
        seq![47u8] + join_parts(path)
    }
}

/// The lines naming the optimized images.
pub open spec fn optimized_lines(opt: Seq<Seq<Seq<u8>>>, root: Seq<Seq<u8>>) -> Seq<char>
    decreases opt.len(),
{
    if opt.len() == 0 {
        Seq::empty()
    } else {
        optimized_lines(opt.drop_last(), root) + spec_decode_lossy(display_bytes(opt.last(), true, root)) + seq!['\n']
    }
}

/// One line per file: name, modification time and size, separated by tabs.
pub open spec fn record_lines(rs: Seq<RecordView>, root: Seq<Seq<u8>>) -> Seq<char>
    decreases rs.len(),
{
    if rs.len() == 0 {
        Seq::empty()
    } else {
        let r = rs.last();
        record_lines(rs.drop_last(), root) + spec_decode_lossy(display_bytes(r.0, r.1, root)) + seq!['\t']
            + spec_digits(r.2 as nat, 10) + seq!['\t'] + spec_digits(r.3 as nat, 10) + seq!['\n']
    }
}

pub open spec fn optimized_header() -> Seq<char> {
    seq!['o', 'p', 't', 'i', 'm', 'i', 'z', 'e', 'd', '\n']
}

pub open spec fn uncompressed_header() -> Seq<char> {
    seq!['u', 'n', 'c', 'o', 'm', 'p', 'r', 'e', 's', 's', 'e', 'd', '\n']
}

pub open spec fn compressed_header() -> Seq<char> {
    seq!['c', 'o', 'm', 'p', 'r', 'e', 's', 's', 'e', 'd', '\n']
}

/// The text of the `files_list` member of the archive: the optimized images
/// (when there are any), then the uncompressed and the compressed files,
/// each section under its header and left out when it is empty.
pub open spec fn files_list(opt: Option<Seq<Seq<Seq<u8>>>>, un: Seq<RecordView>, co: Seq<RecordView>, root: Seq<Seq<u8>>) -> Seq<char> {
    (match opt {
        Some(o) => optimized_header() + optimized_lines(o, root),
        None => Seq::empty(),
    }) + (if un.len() > 0 {
        uncompressed_header() + record_lines(un, root)
    } else {
        Seq::empty()
    }) + (if co.len() > 0 {
        compressed_header() + record_lines(co, root)
    } else {
        Seq::empty()
    })
}

/// The components of a path joined with `/`.
pub fn join_path(parts: &Vec<Vec<u8>>) -> (r: Vec<u8>)
    ensures
        r@ == join_parts(parts@.map_values(|p: Vec<u8>| p@)),
{
    let ghost pv = parts@.map_values(|p: Vec<u8>| p@);
    let mut r: Vec<u8> = Vec::new();
    let mut i: usize = 0;
    assert(pv.subrange(0, 0) =~= Seq::<Seq<u8>>::empty());
    while i < parts.len()
        invariant
            pv == parts@.map_values(|p: Vec<u8>| p@),
            i <= parts@.len(),
            r@ == join_parts(pv.subrange(0, i as int)),
        decreases parts@.len() - i,
    {
        if i > 0 {
            r.push(47u8);
        }
        let part = &parts[i];
        let mut k: usize = 0;
        let ghost mid = r@;
        while k < part.len()
            invariant
                k <= part@.len(),
                r@ == mid + part@.subrange(0, k as int),
            decreases part@.len() - k,
        {
            r.push(part[k]);
            k = k + 1;
            assert(r@ =~= mid + part@.subrange(0, k as int));
        }
        assert(part@.subrange(0, k as int) =~= part@);
        let ghost next = pv.subrange(0, i + 1);
        assert(next.drop_last() =~= pv.subrange(0, i as int));
        assert(next.last() == part@);
        assert(r@ =~= join_parts(next));
        i = i + 1;
    }
    assert(pv.subrange(0, i as int) =~= pv);
    r
}

/// The name a file is listed under, as text.
pub fn display_name(path: &FsPath, in_tree: bool, root: &FsPath) -> (r: Vec<char>)
    ensures
        r@ == spec_decode_lossy(display_bytes(path@, in_tree, root@)),
{
    let bytes: Vec<u8> = if !in_tree {
        join_path(&path.parts)
    } else if path.starts_with(root) {
        let rel = path.remove_root(root);
        join_path(&rel.parts)
    } else {
        let joined = join_path(&path.parts);
        let mut b: Vec<u8> = Vec::new();
        b.push(47u8);
        let mut k: usize = 0;
        while k < joined.len()
            invariant
                k <= joined@.len(),
                b@ == seq![47u8] + joined@.subrange(0, k as int),
            decreases joined@.len() - k,
        {
            b.push(joined[k]);
            k = k + 1;
            assert(b@ =~= seq![47u8] + joined@.subrange(0, k as int));
        }
        assert(joined@.subrange(0, k as int) =~= joined@);
        b
    };
    decode_lossy(&bytes)
}

/// The components of the name a file is stored under in the archive, and
/// whether that name is absolute: a generated member keeps its own relative
/// name, a file of the tree is named relative to the root, and a file that
/// does not lie under the root keeps its absolute path.
pub open spec fn member_parts(path: Seq<Seq<u8>>, in_tree: bool, root: Seq<Seq<u8>>) -> (Seq<Seq<u8>>, bool) {
    if !in_tree {
        (path, false)
    } else if is_prefix(root, path) {
        (strip_root(path, root), false)
    } else {
        (path, true)
    }
}

/// The name `rec` is stored under in the archive: its components, and
/// whether the name is absolute.
pub fn member_name(rec: &FileRecord, root: &FsPath) -> (r: (FsPath, bool))
    ensures
        (r.0@, r.1) == member_parts(rec.path@, rec.in_tree, root@),
{
    if !rec.in_tree {
        (rec.path.duplicate(), false)
    } else if rec.path.starts_with(root) {
        (rec.path.remove_root(root), false)
    } else {
        (rec.path.duplicate(), true)
    }
}

fn push_char(dst: &mut Vec<char>, c: char)
    ensures
        final(dst)@ == old(dst)@ + seq![c],
{
    dst.push(c);
    assert(final(dst)@ =~= old(dst)@ + seq![c]);
}

/// The text of the `files_list` member of the archive.
pub fn files_list_text(
    optimized: &Option<Vec<FsPath>>,
    uncompr: &Vec<FileRecord>,
    compr: &Vec<FileRecord>,
    root: &FsPath,
) -> (r: Vec<char>)
    ensures
        r@ == files_list(match optimized {
            Some(s) => Some(path_views(s@)),
            None => None,
        }, record_views(uncompr@), record_views(compr@), root@),
{
    let mut out: Vec<char> = Vec::new();
    let ghost part1: Seq<char>;
    match optimized {
        Some(list) => {
            let hdr = vec!['o', 'p', 't', 'i', 'm', 'i', 'z', 'e', 'd', '\n'];
            assert(hdr@ =~= optimized_header());
            append_chars(&mut out, &hdr);
            let ghost ov = path_views(list@);
            let mut i: usize = 0;
            assert(ov.subrange(0, 0) =~= Seq::<Seq<Seq<u8>>>::empty());
            assert(out@ =~= optimized_header() + optimized_lines(ov.subrange(0, 0), root@));
            while i < list.len()
                invariant
                    ov == path_views(list@),
                    i <= list@.len(),
                    out@ == optimized_header() + optimized_lines(ov.subrange(0, i as int), root@),
                decreases list@.len() - i,
            {
                let name = display_name(&list[i], true, root);
                append_chars(&mut out, &name);
                push_char(&mut out, '\n');
                let ghost next = ov.subrange(0, i + 1);
                assert(next.drop_last() =~= ov.subrange(0, i as int));
                assert(next.last() == list@[i as int]@);
                assert(out@ =~= optimized_header() + optimized_lines(next, root@));
                i = i + 1;
            }
            assert(ov.subrange(0, i as int) =~= ov);
            proof {
                part1 = out@;
            }
        },
        None => {
            proof {
                part1 = out@;
            }
            assert(part1 =~= Seq::<char>::empty());
        },
    }
    let ghost un = record_views(uncompr@);
    let ghost co = record_views(compr@);
    if uncompr.len() > 0 {
        let hdr = vec!['u', 'n', 'c', 'o', 'm', 'p', 'r', 'e', 's', 's', 'e', 'd', '\n'];
        assert(hdr@ =~= uncompressed_header());
        append_chars(&mut out, &hdr);
        append_records(&mut out, uncompr, root);
        assert(out@ =~= part1 + (uncompressed_header() + record_lines(un, root@)));
    } else {
        assert(out@ =~= part1 + Seq::<char>::empty());
    }
    let ghost part2 = out@;
    if compr.len() > 0 {
        let hdr = vec!['c', 'o', 'm', 'p', 'r', 'e', 's', 's', 'e', 'd', '\n'];
        assert(hdr@ =~= compressed_header());
        append_chars(&mut out, &hdr);
        append_records(&mut out, compr, root);
        assert(out@ =~= part2 + (compressed_header() + record_lines(co, root@)));
    } else {
        assert(out@ =~= part2 + Seq::<char>::empty());
    }
    out
}

fn append_records(out: &mut Vec<char>, recs: &Vec<FileRecord>, root: &FsPath)
    ensures
        final(out)@ == old(out)@ + record_lines(record_views(recs@), root@),
{
    let ghost start = out@;
    let ghost rv = record_views(recs@);
    let mut i: usize = 0;
    assert(rv.subrange(0, 0) =~= Seq::<RecordView>::empty());
    assert(out@ =~= start + record_lines(rv.subrange(0, 0), root@));
    while i < recs.len()
        invariant
            rv == record_views(recs@),
            i <= recs@.len(),
            out@ == start + record_lines(rv.subrange(0, i as int), root@),
        decreases recs@.len() - i,
    {
        let r = &recs[i];
        let name = display_name(&r.path, r.in_tree, root);
        append_chars(out, &name);
        push_char(out, '\t');
        append_chars(out, &decimal(r.mtime));
        push_char(out, '\t');
        append_chars(out, &decimal(r.size));
        push_char(out, '\n');
        let ghost next = rv.subrange(0, i + 1);
        assert(next.drop_last() =~= rv.subrange(0, i as int));
        assert(next.last() == r@);
        assert(out@ =~= start + record_lines(next, root@));
        i = i + 1;
    }
    assert(rv.subrange(0, i as int) =~= rv);
}

/// Where the header of the nested uncompressed tar member sits and the size
/// it must record, given where the member's data started and where the
/// archive ended after writing it. The data must be at least 1024 bytes (the
/// two closing blocks of a tar) and be preceded by its 512-byte header;
/// otherwise there is no answer.
pub fn nested_member_patch(start: u64, end: u64) -> (r: Option<(u64, u64)>)
    ensures
        r is Some <==> (end >= start && end - start >= 1024 && start >= 512),
        r matches Some(p) ==> p.0 == end - start && p.1 == start - 512,
{
    let len = if end >= start {
        end - start
    } else {
        0
    };
    if len < 1024 || start < 512 {
        None
    } else {
        Some((len, start - 512))
    }
}

/// The header of the nested uncompressed tar member, read back from the
/// archive (512 bytes), with the member's real size written into it and its
/// checksum computed again, so that tar readers accept it.
pub fn resized_member_header(header: &Vec<u8>, size: u64) -> (r: Vec<u8>)
    requires
        header@.len() == 512,
    ensures
        r@ == with_cksum(with_size(header@, size)),
        r@.len() == 512,
        r@.subrange(124, 136) == size_field(size),
        cksum_valid(r@),
        r@.subrange(0, 124) == header@.subrange(0, 124),
        r@.subrange(136, 148) == header@.subrange(136, 148),
        r@.subrange(156, 512) == header@.subrange(156, 512),
{
    let sized = tar_set_size(header, size);
    proof {
        lemma_octal_digits_len(size as nat, 11);
        lemma_be_bytes_len(size as nat, 8);
        assert(size_field(size).len() == 12);
        assert(sized@.len() == 512);
    }
    let r = tar_set_cksum(&sized);
    proof {
        let h = sized@;
        lemma_octal_digits_len(header_cksum(h), 7);
        assert(octal_field(header_cksum(h), 8).len() == 8);
        assert(r@.len() == 512);
        assert(r@.subrange(0, 148) =~= h.subrange(0, 148));
        assert(r@.subrange(156, 512) =~= h.subrange(156, 512));
        assert(r@.subrange(148, 156) =~= octal_field(header_cksum(h), 8));
        assert(header_cksum(r@) == header_cksum(h));
        assert(r@.subrange(124, 136) =~= h.subrange(124, 136));
        assert(h.subrange(124, 136) =~= size_field(size));
        assert(r@.subrange(0, 124) =~= header@.subrange(0, 124));
        assert(r@.subrange(136, 148) =~= header@.subrange(136, 148));
        assert(r@.subrange(156, 512) =~= header@.subrange(156, 512));
    }
    r
}

} // verus!
