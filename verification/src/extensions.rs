use vstd::prelude::*;
use crate::paths::FsPath;
use crate::choices::{ChosenOptions, extension_key};
use crate::option::ArchiveOption;
use crate::text::{chars_eq, copy_chars, decode_lossy, lowercase};

verus! {

/// The extension key a file is counted under: its lowercase extension, or
/// the empty string when it has none.
pub open spec fn file_ext_key(p: Seq<Seq<u8>>) -> Seq<char> {
    match extension_key(p) {
        Some(k) => k,
        None => Seq::empty(),
    }
}

/// The abstract value of a list of (file, size) pairs.
pub open spec fn file_views(s: Seq<(FsPath, u64)>) -> Seq<(Seq<Seq<u8>>, u64)> {
    s.map_values(|f: (FsPath, u64)| (f.0@, f.1))
}

/// The abstract value of a list of (extension, total size) pairs.
pub open spec fn ext_views(s: Seq<(Vec<char>, u64)>) -> Seq<(Seq<char>, u64)> {
    s.map_values(|e: (Vec<char>, u64)| (e.0@, e.1))
}

/// The total size of the files whose extension key is `k`.
pub open spec fn size_for(files: Seq<(Seq<Seq<u8>>, u64)>, k: Seq<char>) -> nat
    decreases files.len(),
{
    if files.len() == 0 {
        0
    } else {
        size_for(files.drop_last(), k) + if file_ext_key(files.last().0) == k {
            files.last().1 as nat
        } else {
            0
        }
    }
}

/// The total size of all files.
pub open spec fn total_size(files: Seq<(Seq<Seq<u8>>, u64)>) -> nat
    decreases files.len(),
{
    if files.len() == 0 {
        0
    } else {
        total_size(files.drop_last()) + files.last().1 as nat
    }
}

/// Whether some entry of the summary has key `k`.
pub open spec fn has_key(s: Seq<(Seq<char>, u64)>, k: Seq<char>) -> bool {
    exists|j: int| 0 <= j < s.len() && (#[trigger] s[j]).0 == k
}

/// Whether some file has extension key `k`.
pub open spec fn some_file_has(files: Seq<(Seq<Seq<u8>>, u64)>, k: Seq<char>) -> bool {
    exists|f: int| 0 <= f < files.len() && file_ext_key((#[trigger] files[f]).0) == k
}

/// The summary of a directory tree: one entry per extension key that occurs,
/// holding the total size of the files with that key.
pub open spec fn is_summary_of(r: Seq<(Seq<char>, u64)>, files: Seq<(Seq<Seq<u8>>, u64)>) -> bool {
    &&& forall|j: int| 0 <= j < r.len() ==> (#[trigger] r[j]).1 == size_for(files, r[j].0)
    &&& forall|a: int, b: int| 0 <= a < b < r.len() ==> (#[trigger] r[a]).0 != (#[trigger] r[b]).0
    &&& forall|k: Seq<char>| #[trigger] has_key(r, k) <==> some_file_has(files, k)
}

proof fn lemma_size_le_total(files: Seq<(Seq<Seq<u8>>, u64)>, k: Seq<char>)
    ensures
        size_for(files, k) <= total_size(files),
    decreases files.len(),
{
    if files.len() > 0 {
        lemma_size_le_total(files.drop_last(), k);
    }
}

proof fn lemma_total_prefix(files: Seq<(Seq<Seq<u8>>, u64)>, i: int)
    requires
        0 <= i <= files.len(),
    ensures
        total_size(files.subrange(0, i)) <= total_size(files),
    decreases files.len() - i,
{
    if i < files.len() {
        lemma_total_prefix(files, i + 1);
        assert(files.subrange(0, i + 1).drop_last() =~= files.subrange(0, i));
    } else {
        assert(files.subrange(0, i) =~= files);
    }
}

proof fn lemma_size_absent(files: Seq<(Seq<Seq<u8>>, u64)>, k: Seq<char>)
    requires
        !some_file_has(files, k),
    ensures
        size_for(files, k) == 0,
    decreases files.len(),
{
    if files.len() > 0 {
        let p = files.drop_last();
        assert(!some_file_has(p, k)) by {
            if some_file_has(p, k) {
                let f = choose|f: int| 0 <= f < p.len() && file_ext_key((#[trigger] p[f]).0) == k;
                assert(files[f] == p[f]);
            }
        }
        assert(file_ext_key(files[files.len() - 1].0) != k);
        lemma_size_absent(p, k);
    }
}

/// The extension key of a file, computed.
pub fn file_extension_key(p: &FsPath) -> (r: Vec<char>)
    ensures
        r@ == file_ext_key(p@),
{
    match p.extension() {
        Some(e) => lowercase(&decode_lossy(&e)),
        None => {
            let r: Vec<char> = Vec::new();
            assert(r@ =~= Seq::<char>::empty());
            r
        },
    }
}

/// Adds up the file sizes per extension key, keys in order of first
/// appearance. The total of all sizes must fit in a `u64`.
pub fn aggregate_extension_sizes(files: &Vec<(FsPath, u64)>) -> (r: Vec<(Vec<char>, u64)>)
    requires
        total_size(file_views(files@)) <= u64::MAX,
    ensures
        is_summary_of(ext_views(r@), file_views(files@)),
{
    let ghost fv = file_views(files@);
    let mut res: Vec<(Vec<char>, u64)> = Vec::new();
    let mut i: usize = 0;
    assert(ext_views(res@) =~= Seq::<(Seq<char>, u64)>::empty());
    while i < files.len()
        invariant
            fv == file_views(files@),
            total_size(fv) <= u64::MAX,
            i <= files.len(),
            is_summary_of(ext_views(res@), fv.subrange(0, i as int)),
        decreases files.len() - i,
    {
        let ghost pre = fv.subrange(0, i as int);
        let ghost next = fv.subrange(0, i + 1);
        let ghost rv = ext_views(res@);
        assert(next.drop_last() =~= pre);
        assert(next.last() == fv[i as int]);
        assert(fv[i as int] == (files@[i as int].0@, files@[i as int].1));
        let key = file_extension_key(&files[i].0);
        let size = files[i].1;
        proof {
            lemma_total_prefix(fv, i + 1);
            lemma_size_le_total(next, key@);
        }
        let mut j: usize = 0;
        while j < res.len() && !chars_eq(&res[j].0, &key)
            invariant
                j <= res@.len(),
                forall|t: int| 0 <= t < j ==> (#[trigger] res@[t]).0@ != key@,
            decreases res@.len() - j,
        {
            j = j + 1;
        }
        if j < res.len() {
            let cur = res[j].1;
            assert(rv[j as int] == (res@[j as int].0@, cur));
            assert(cur == size_for(pre, key@));
            let kcopy = copy_chars(&res[j].0);
            res.set(j, (kcopy, cur + size));
            proof {
                assert(ext_views(res@).len() == rv.len());
                assert forall|t: int| 0 <= t < rv.len() implies (#[trigger] ext_views(res@)[t]).0 == rv[t].0 by {
                    if t != j {
                        assert(ext_views(res@)[t] == rv[t]);
                    }
                }
                assert forall|t: int| 0 <= t < ext_views(res@).len() implies (#[trigger] ext_views(res@)[t]).1 == size_for(next, ext_views(res@)[t].0) by {
                    if t != j {
                        assert(ext_views(res@)[t] == rv[t]);
                        assert(rv[t].0 != key@);
                    }
                }
                assert forall|a: int, b: int| 0 <= a < b < ext_views(res@).len() implies (#[trigger] ext_views(res@)[a]).0 != (#[trigger] ext_views(res@)[b]).0 by {
                    assert(ext_views(res@)[a].0 == rv[a].0);
                    assert(ext_views(res@)[b].0 == rv[b].0);
                }
                assert forall|k: Seq<char>| #[trigger] has_key(ext_views(res@), k) <==> some_file_has(next, k) by {
                    if has_key(ext_views(res@), k) {
                        let t = choose|t: int| 0 <= t < ext_views(res@).len() && (#[trigger] ext_views(res@)[t]).0 == k;
                        assert(rv[t].0 == k);
                        assert(has_key(rv, k));
                        let f = choose|f: int| 0 <= f < pre.len() && file_ext_key((#[trigger] pre[f]).0) == k;
                        assert(next[f] == pre[f]);
                    }
                    if some_file_has(next, k) {
                        let f = choose|f: int| 0 <= f < next.len() && file_ext_key((#[trigger] next[f]).0) == k;
                        if f < pre.len() {
                            assert(next[f] == pre[f]);
                            assert(some_file_has(pre, k));
                            assert(has_key(rv, k));
                            let t = choose|t: int| 0 <= t < rv.len() && (#[trigger] rv[t]).0 == k;
                            assert(ext_views(res@)[t].0 == rv[t].0);
                        } else {
                            assert(ext_views(res@)[j as int].0 == key@);
                        }
                    }
                }
            }
        } else {
            proof {
                assert(!has_key(rv, key@)) by {
                    if has_key(rv, key@) {
                        let t = choose|t: int| 0 <= t < rv.len() && (#[trigger] rv[t]).0 == key@;
                        assert(res@[t].0@ == key@);
                    }
                }
                lemma_size_absent(pre, key@);
            }
            res.push((key, size));
            proof {
                assert(ext_views(res@) =~= rv.push((key@, size)));
                assert forall|t: int| 0 <= t < ext_views(res@).len() implies (#[trigger] ext_views(res@)[t]).1 == size_for(next, ext_views(res@)[t].0) by {
                    if t < rv.len() {
                        assert(ext_views(res@)[t] == rv[t]);
                        assert(rv[t].0 != key@) by {
                            if rv[t].0 == key@ {
                                assert(has_key(rv, key@));
                            }
                        }
                    }
                }
                assert forall|a: int, b: int| 0 <= a < b < ext_views(res@).len() implies (#[trigger] ext_views(res@)[a]).0 != (#[trigger] ext_views(res@)[b]).0 by {
                    if b == rv.len() {
                        assert(ext_views(res@)[a] == rv[a]);
                        if rv[a].0 == key@ {
                            assert(has_key(rv, key@));
                        }
                    } else {
                        assert(ext_views(res@)[a] == rv[a]);
                        assert(ext_views(res@)[b] == rv[b]);
                    }
                }
                assert forall|k: Seq<char>| #[trigger] has_key(ext_views(res@), k) <==> some_file_has(next, k) by {
                    if has_key(ext_views(res@), k) {
                        let t = choose|t: int| 0 <= t < ext_views(res@).len() && (#[trigger] ext_views(res@)[t]).0 == k;
                        if t < rv.len() {
                            assert(rv[t].0 == k);
                            assert(has_key(rv, k));
                            let f = choose|f: int| 0 <= f < pre.len() && file_ext_key((#[trigger] pre[f]).0) == k;
                            assert(next[f] == pre[f]);
                        } else {
                            assert(file_ext_key(next[i as int].0) == k);
                        }
                    }
                    if some_file_has(next, k) {
                        let f = choose|f: int| 0 <= f < next.len() && file_ext_key((#[trigger] next[f]).0) == k;
                        if f < pre.len() {
                            assert(next[f] == pre[f]);
                            assert(some_file_has(pre, k));
                            assert(has_key(rv, k));
                            let t = choose|t: int| 0 <= t < rv.len() && (#[trigger] rv[t]).0 == k;
                            assert(ext_views(res@)[t] == rv[t]);
                        } else {
                            assert(ext_views(res@)[rv.len() as int].0 == key@);
                        }
                    }
                }
            }
        }
        i = i + 1;
    }
    assert(fv.subrange(0, i as int) =~= fv);
    res
}

/// Sorts (extension, size) pairs by size, largest first; pairs of equal size
/// keep their order.
fn sort_by_size_desc(items: &Vec<(Vec<char>, u64)>) -> (r: Vec<(Vec<char>, u64)>)
    ensures
        ext_views(r@).to_multiset() == ext_views(items@).to_multiset(),
        forall|a: int, b: int| 0 <= a < b < r@.len() ==> (#[trigger] r@[a]).1 >= (#[trigger] r@[b]).1,
{
    let mut res: Vec<(Vec<char>, u64)> = Vec::new();
    let mut i: usize = 0;
    assert(ext_views(res@) =~= Seq::<(Seq<char>, u64)>::empty());
    assert(ext_views(items@.subrange(0, 0)) =~= Seq::<(Seq<char>, u64)>::empty());
    while i < items.len()
        invariant
            i <= items.len(),
            ext_views(res@).to_multiset() == ext_views(items@.subrange(0, i as int)).to_multiset(),
            forall|a: int, b: int| 0 <= a < b < res@.len() ==> (#[trigger] res@[a]).1 >= (#[trigger] res@[b]).1,
        decreases items.len() - i,
    {
        let size = items[i].1;
        let mut pos: usize = 0;
        while pos < res.len() && res[pos].1 >= size
            invariant
                pos <= res@.len(),
                forall|k: int| 0 <= k < pos ==> (#[trigger] res@[k]).1 >= size,
            decreases res@.len() - pos,
        {
            pos = pos + 1;
        }
        let ghost old_res = res@;
        let ghost item = (items@[i as int].0@, size);
        res.insert(pos, (copy_chars(&items[i].0), size));
        proof {
            assert(ext_views(res@) =~= ext_views(old_res).insert(pos as int, item));
            assert(ext_views(items@.subrange(0, i + 1)) =~= ext_views(items@.subrange(0, i as int)).push(item));
            vstd::seq_lib::to_multiset_build(ext_views(items@.subrange(0, i as int)), item);
            vstd::seq_lib::to_multiset_insert(ext_views(old_res), pos as int, item);
            assert forall|a: int, b: int| 0 <= a < b < res@.len() implies (#[trigger] res@[a]).1 >= (#[trigger] res@[b]).1 by {
                if b < pos {
                    assert(res@[a] == old_res[a] && res@[b] == old_res[b]);
                } else if b == pos {
                    assert(res@[a] == old_res[a]);
                } else if a > pos {
                    assert(res@[a] == old_res[a - 1] && res@[b] == old_res[b - 1]);
                } else if a == pos {
                    assert(res@[b] == old_res[b - 1]);
                    assert(old_res[pos as int].1 < size);
                    if b - 1 > pos {
                        assert(old_res[pos as int].1 >= old_res[b - 1].1);
                    }
                } else {
                    assert(res@[a] == old_res[a] && res@[b] == old_res[b - 1]);
                }
            }
        }
        i = i + 1;
    }
    assert(items@.subrange(0, i as int) =~= items@);
    res
}

proof fn lemma_summary_permuted(x: Seq<(Seq<char>, u64)>, y: Seq<(Seq<char>, u64)>, files: Seq<(Seq<Seq<u8>>, u64)>)
    requires
        is_summary_of(x, files),
        x.to_multiset() == y.to_multiset(),
    ensures
        is_summary_of(y, files),
{
    broadcast use vstd::seq_lib::to_multiset_contains;
    assert forall|j: int| 0 <= j < y.len() implies (#[trigger] y[j]).1 == size_for(files, y[j].0) by {
        assert(y.contains(y[j]));
        assert(y.to_multiset().count(y[j]) > 0);
        assert(x.to_multiset().count(y[j]) > 0);
        assert(x.contains(y[j]));
    }
    assert(x.no_duplicates()) by {
        assert forall|a: int, b: int| 0 <= a < x.len() && 0 <= b < x.len() && a != b implies x[a] != x[b] by {
            if a < b {
                assert(x[a].0 != x[b].0);
            } else {
                assert(x[b].0 != x[a].0);
            }
        }
    }
    x.lemma_multiset_has_no_duplicates();
    y.lemma_multiset_has_no_duplicates_conv();
    assert forall|a: int, b: int| 0 <= a < b < y.len() implies (#[trigger] y[a]).0 != (#[trigger] y[b]).0 by {
        if y[a].0 == y[b].0 {
            assert(y[a].1 == size_for(files, y[a].0));
            assert(y[b].1 == size_for(files, y[b].0));
            assert(y[a] == y[b]);
        }
    }
    assert forall|k: Seq<char>| #[trigger] has_key(y, k) <==> some_file_has(files, k) by {
        if has_key(y, k) {
            let t = choose|t: int| 0 <= t < y.len() && (#[trigger] y[t]).0 == k;
            assert(y.contains(y[t]));
            assert(y.to_multiset().count(y[t]) > 0);
            assert(x.contains(y[t]));
            let u = choose|u: int| 0 <= u < x.len() && x[u] == y[t];
            assert(x[u].0 == k);
            assert(has_key(x, k));
        }
        if some_file_has(files, k) {
            assert(has_key(x, k));
            let u = choose|u: int| 0 <= u < x.len() && (#[trigger] x[u]).0 == k;
            assert(x.contains(x[u]));
            assert(x.to_multiset().count(x[u]) > 0);
            assert(y.contains(x[u]));
            let t = choose|t: int| 0 <= t < y.len() && y[t] == x[u];
            assert(y[t].0 == k);
        }
    }
}

/// The extension panel's list: the total size per extension key, largest
/// first (keys of equal size in order of first appearance). The total of all
/// sizes must fit in a `u64`.
pub fn extension_summary(files: &Vec<(FsPath, u64)>) -> (r: Vec<(Vec<char>, u64)>)
    requires
        total_size(file_views(files@)) <= u64::MAX,
    ensures
        is_summary_of(ext_views(r@), file_views(files@)),
        forall|a: int, b: int| 0 <= a < b < r@.len() ==> (#[trigger] r@[a]).1 >= (#[trigger] r@[b]).1,
{
    let agg = aggregate_extension_sizes(files);
    let r = sort_by_size_desc(&agg);
    proof {
        lemma_summary_permuted(ext_views(agg@), ext_views(r@), file_views(files@));
    }
    r
}

/// The extensions of images that can be optimized: jpeg, jpg, png.
pub open spec fn optimizable_ext(k: Seq<char>) -> bool {
    k == seq!['j', 'p', 'e', 'g'] || k == seq!['j', 'p', 'g'] || k == seq!['p', 'n', 'g']
}

/// An image that goes into the optimized video: a jpeg, jpg or png file
/// (extension compared in lowercase) that goes into the archive.
pub open spec fn spec_is_optimizable(c: ChosenOptions, p: Seq<Seq<u8>>) -> bool {
    optimizable_ext(file_ext_key(p)) && c.effective(p) != ArchiveOption::Exclude
}

/// Whether a lowercase extension is one of jpeg, jpg, png.
pub fn is_optimizable_ext(k: &Vec<char>) -> (r: bool)
    ensures
        r == optimizable_ext(k@),
{
    let jpeg = vec!['j', 'p', 'e', 'g'];
    let jpg = vec!['j', 'p', 'g'];
    let png = vec!['p', 'n', 'g'];
    assert(jpeg@ =~= seq!['j', 'p', 'e', 'g']);
    assert(jpg@ =~= seq!['j', 'p', 'g']);
    assert(png@ =~= seq!['p', 'n', 'g']);
    chars_eq(k, &jpeg) || chars_eq(k, &jpg) || chars_eq(k, &png)
}

/// Whether a file is an image that goes into the optimized video.
pub fn is_optimizable(choices: &ChosenOptions, p: &FsPath) -> (r: bool)
    ensures
        r == spec_is_optimizable(*choices, p@),
        r <==> ((file_ext_key(p@) == seq!['j', 'p', 'g'] || file_ext_key(p@) == seq!['j', 'p', 'e', 'g']
            || file_ext_key(p@) == seq!['p', 'n', 'g']) && (choices.effective(p@) == ArchiveOption::Include
            || choices.effective(p@) == ArchiveOption::Compress)),
{
    proof {
        lemma_optimizable_images(*choices, p@);
    }
    let key = file_extension_key(p);
    is_optimizable_ext(&key) && choices.effective_option(p).is_archived()
}

/// The images of a tree (files in walking order) that go into the
/// optimized video, in the same order.
pub open spec fn optimizable_files(c: ChosenOptions, files: Seq<Seq<Seq<u8>>>) -> Seq<Seq<Seq<u8>>>
    decreases files.len(),
{
    if files.len() == 0 {
        Seq::empty()
    } else {
        let prev = optimizable_files(c, files.drop_last());
        if spec_is_optimizable(c, files.last()) {
            prev.push(files.last())
        } else {
            prev
        }
    }
}

/// The images among `files` that go into the optimized video.
pub fn select_optimizable(choices: &ChosenOptions, files: &Vec<FsPath>) -> (r: Vec<FsPath>)
    ensures
        r@.map_values(|p: FsPath| p@) == optimizable_files(*choices, files@.map_values(|p: FsPath| p@)),
{
    let ghost fv = files@.map_values(|p: FsPath| p@);
    let mut r: Vec<FsPath> = Vec::new();
    let mut i: usize = 0;
    assert(fv.subrange(0, 0) =~= Seq::<Seq<Seq<u8>>>::empty());
    assert(r@.map_values(|p: FsPath| p@) =~= Seq::<Seq<Seq<u8>>>::empty());
    while i < files.len()
        invariant
            fv == files@.map_values(|p: FsPath| p@),
            i <= files@.len(),
            r@.map_values(|p: FsPath| p@) == optimizable_files(*choices, fv.subrange(0, i as int)),
        decreases files@.len() - i,
    {
        let ghost next = fv.subrange(0, i + 1);
        assert(next.drop_last() =~= fv.subrange(0, i as int));
        assert(next.last() == files@[i as int]@);
        let ghost before = r@.map_values(|p: FsPath| p@);
        if is_optimizable(choices, &files[i]) {
            r.push(files[i].duplicate());
            assert(r@.map_values(|p: FsPath| p@) =~= before.push(files@[i as int]@));
        }
        i = i + 1;
    }
    assert(fv.subrange(0, i as int) =~= fv);
    r
}

/// Which images go into the optimized video: a file whose lowercase
/// extension is jpg, jpeg or png goes in exactly when it goes into the
/// archive at all, whether stored uncompressed (Include) or compressed
/// (Compress); an excluded image, or a file of any other extension, does not.
pub proof fn lemma_optimizable_images(c: ChosenOptions, p: Seq<Seq<u8>>)
    ensures
        (file_ext_key(p) == seq!['j', 'p', 'g'] || file_ext_key(p) == seq!['j', 'p', 'e', 'g']
            || file_ext_key(p) == seq!['p', 'n', 'g']) ==> (spec_is_optimizable(c, p) <==> (
            c.effective(p) == ArchiveOption::Include || c.effective(p) == ArchiveOption::Compress)),
        !(file_ext_key(p) == seq!['j', 'p', 'g'] || file_ext_key(p) == seq!['j', 'p', 'e', 'g']
            || file_ext_key(p) == seq!['p', 'n', 'g']) ==> !spec_is_optimizable(c, p),
        c.effective(p) == ArchiveOption::Exclude ==> !spec_is_optimizable(c, p),
{
}

} // verus!
