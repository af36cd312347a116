use vstd::prelude::*;
use crate::paths::FsPath;
use crate::text::{copy_bytes, decode_lossy, lowercase, spec_decode_lossy, spec_lowercase};

verus! {

/// One entry of a directory listing: its path, whether it is a directory
/// (for a symbolic link: whether its target is one), and for a symbolic link
/// the raw bytes of its target.
pub struct DirEntryInfo {
    pub path: FsPath,
    pub is_dir: bool,
    pub link_target: Option<Vec<u8>>,
}

/// The abstract value of a listing entry.
pub type EntryView = (Seq<Seq<u8>>, bool, Option<Seq<u8>>);

impl View for DirEntryInfo {
    type V = EntryView;

    open spec fn view(&self) -> EntryView {
        (self.path@, self.is_dir, match self.link_target {
            Some(t) => Some(t@),
            None => None,
        })
    }
}

/// The views of a list of entries.
pub open spec fn entry_views(s: Seq<DirEntryInfo>) -> Seq<EntryView> {
    s.map_values(|e: DirEntryInfo| e@)
}

/// Lexicographic order of character strings by code point (the order of
/// `String`'s `cmp`).
pub open spec fn chars_lt(a: Seq<char>, b: Seq<char>) -> bool
    decreases a.len(),
{
    if a.len() == 0 {
        b.len() > 0
    } else if b.len() == 0 {
        false
    } else if (a[0] as u32) < (b[0] as u32) {
        true
    } else if (a[0] as u32) > (b[0] as u32) {
        false
    } else {
        chars_lt(a.drop_first(), b.drop_first())
    }
}

proof fn lemma_chars_lt_transitive(a: Seq<char>, b: Seq<char>, c: Seq<char>)
    requires
        chars_lt(a, b),
        chars_lt(b, c),
    ensures
        chars_lt(a, c),
    decreases a.len(),
{
    if a.len() > 0 && b.len() > 0 && c.len() > 0 {
        if (a[0] as u32) == (b[0] as u32) && (b[0] as u32) == (c[0] as u32) {
            lemma_chars_lt_transitive(a.drop_first(), b.drop_first(), c.drop_first());
        }
    }
}

proof fn lemma_chars_lt_irreflexive(a: Seq<char>)
    ensures
        !chars_lt(a, a),
    decreases a.len(),
{
    if a.len() > 0 {
        lemma_chars_lt_irreflexive(a.drop_first());
    }
}

/// The name that a listing entry is sorted by: the last component of its
/// path, decoded lossily and lowercased (empty for `/`).
pub open spec fn sort_name(p: Seq<Seq<u8>>) -> Seq<char> {
    spec_lowercase(spec_decode_lossy(if p.len() == 0 {
        Seq::<u8>::empty()
    } else {
        p.last()
    }))
}

/// Listing order: directories before files, then by `sort_name`.
pub open spec fn entry_before(a: EntryView, b: EntryView) -> bool {
    (a.1 && !b.1) || (a.1 == b.1 && chars_lt(sort_name(a.0), sort_name(b.0)))
}

proof fn lemma_entry_before_transitive(a: EntryView, b: EntryView, c: EntryView)
    requires
        entry_before(a, b),
        entry_before(b, c),
    ensures
        entry_before(a, c),
{
    if a.1 == b.1 && b.1 == c.1 {
        lemma_chars_lt_transitive(sort_name(a.0), sort_name(b.0), sort_name(c.0));
    }
}

proof fn lemma_entry_before_irreflexive(a: EntryView)
    ensures
        !entry_before(a, a),
{
    lemma_chars_lt_irreflexive(sort_name(a.0));
}

/// Whether `a` comes before `b` in code point order.
pub fn chars_less(a: &Vec<char>, b: &Vec<char>) -> (r: bool)
    ensures
        r == chars_lt(a@, b@),
{
    let mut i: usize = 0;
    assert(a@.skip(0) =~= a@);
    assert(b@.skip(0) =~= b@);
    loop
        invariant
            i <= a.len(),
            i <= b.len(),
            chars_lt(a@, b@) == chars_lt(a@.skip(i as int), b@.skip(i as int)),
        decreases a.len() - i,
    {
        if i == a.len() {
            return i < b.len();
        }
        if i == b.len() {
            return false;
        }
        let x = a[i];
        let y = b[i];
        assert(a@.skip(i as int)[0] == x);
        assert(b@.skip(i as int)[0] == y);
        if (x as u32) < (y as u32) {
            return true;
        }
        if (x as u32) > (y as u32) {
            return false;
        }
        assert(a@.skip(i as int).drop_first() =~= a@.skip(i + 1));
        assert(b@.skip(i as int).drop_first() =~= b@.skip(i + 1));
        i = i + 1;
    }
}

/// The name an entry is sorted by.
fn entry_sort_name(p: &FsPath) -> (r: Vec<char>)
    ensures
        r@ == sort_name(p@),
{
    let n = p.parts.len();
    if n == 0 {
        let empty: Vec<u8> = Vec::new();
        assert(empty@ =~= Seq::<u8>::empty());
        lowercase(&decode_lossy(&empty))
    } else {
        lowercase(&decode_lossy(&p.parts[n - 1]))
    }
}

/// A copy of a listing entry.
pub fn copy_entry(e: &DirEntryInfo) -> (r: DirEntryInfo)
    ensures
        r@ == e@,
{
    let link_target = match &e.link_target {
        Some(t) => Some(copy_bytes(t)),
        None => None,
    };
    DirEntryInfo { path: e.path.duplicate(), is_dir: e.is_dir, link_target }
}

/// Where a stable insertion puts `x` into the ordered list `s`: before the
/// first entry that `x` comes before, else at the end.
pub open spec fn insert_pos(s: Seq<EntryView>, x: EntryView) -> int
    decreases s.len(),
{
    if s.len() == 0 {
        0
    } else if entry_before(x, s[0]) {
        0
    } else {
        1 + insert_pos(s.drop_first(), x)
    }
}

/// A listing in browser order: the entries inserted one after another, each
/// before the first entry it comes before (a stable sort).
pub open spec fn listing_order(s: Seq<EntryView>) -> Seq<EntryView>
    decreases s.len(),
{
    if s.len() == 0 {
        Seq::empty()
    } else {
        let p = listing_order(s.drop_last());
        p.insert(insert_pos(p, s.last()), s.last())
    }
}

proof fn lemma_insert_pos(s: Seq<EntryView>, x: EntryView, p: int)
    requires
        0 <= p <= s.len(),
        forall|k: int| 0 <= k < p ==> !entry_before(x, #[trigger] s[k]),
        p == s.len() || entry_before(x, s[p]),
    ensures
        insert_pos(s, x) == p,
    decreases p,
{
    if p > 0 {
        assert(!entry_before(x, s[0]));
        assert forall|k: int| 0 <= k < p - 1 implies !entry_before(x, #[trigger] s.drop_first()[k]) by {
            assert(s.drop_first()[k] == s[k + 1]);
        }
        if p < s.len() {
            assert(s.drop_first()[p - 1] == s[p]);
        }
        lemma_insert_pos(s.drop_first(), x, p - 1);
    }
}

/// Sorts a directory listing as the browser shows it: directories first,
/// then by lowercase name; entries that compare equal keep their order.
pub fn sort_entries(entries: &Vec<DirEntryInfo>) -> (r: Vec<DirEntryInfo>)
    ensures
        entry_views(r@) == listing_order(entry_views(entries@)),
        entry_views(r@).to_multiset() == entry_views(entries@).to_multiset(),
        forall|a: int, b: int| 0 <= a < b < r@.len() ==> !entry_before(#[trigger] r@[b]@, #[trigger] r@[a]@),
{
    broadcast use vstd::seq_lib::to_multiset_insert;
    let mut res: Vec<DirEntryInfo> = Vec::new();
    let mut names: Vec<Vec<char>> = Vec::new();
    let mut i: usize = 0;
    assert(entry_views(res@) =~= Seq::<EntryView>::empty());
    assert(entry_views(entries@.subrange(0, 0)) =~= Seq::<EntryView>::empty());
    while i < entries.len()
        invariant
            i <= entries.len(),
            names@.len() == res@.len(),
            forall|j: int| 0 <= j < res@.len() ==> #[trigger] names@[j]@ == sort_name(res@[j]@.0),
            entry_views(res@) == listing_order(entry_views(entries@.subrange(0, i as int))),
            entry_views(res@).to_multiset() == entry_views(entries@.subrange(0, i as int)).to_multiset(),
            forall|a: int, b: int| 0 <= a < b < res@.len() ==> !entry_before(#[trigger] res@[b]@, #[trigger] res@[a]@),
        decreases entries.len() - i,
    {
        let e = &entries[i];
        let name = entry_sort_name(&e.path);
        let mut pos: usize = 0;
        while pos < res.len() && !(
            (e.is_dir && !res[pos].is_dir) || (e.is_dir == res[pos].is_dir && chars_less(&name, &names[pos])))
            invariant
                pos <= res@.len(),
                names@.len() == res@.len(),
                name@ == sort_name(e@.0),
                forall|j: int| 0 <= j < res@.len() ==> #[trigger] names@[j]@ == sort_name(res@[j]@.0),
                forall|k: int| 0 <= k < pos ==> !entry_before(e@, #[trigger] res@[k]@),
            decreases res@.len() - pos,
        {
            assert(names@[pos as int]@ == sort_name(res@[pos as int]@.0));
            pos = pos + 1;
        }
        proof {
            if pos < res@.len() {
                assert(names@[pos as int]@ == sort_name(res@[pos as int]@.0));
                assert(entry_before(e@, res@[pos as int]@));
            }
        }
        let ghost old_res = res@;
        let ghost old_names = names@;
        let copy = copy_entry(e);
        res.insert(pos, copy);
        names.insert(pos, name);
        proof {
            assert(entry_views(res@) =~= entry_views(old_res).insert(pos as int, e@));
            assert(entries@.subrange(0, i + 1) =~= entries@.subrange(0, i as int).push(entries@[i as int]));
            assert(entry_views(entries@.subrange(0, i + 1)) =~= entry_views(entries@.subrange(0, i as int)).push(e@));
            vstd::seq_lib::to_multiset_build(entry_views(entries@.subrange(0, i as int)), e@);
            vstd::seq_lib::to_multiset_insert(entry_views(old_res), pos as int, e@);
            assert forall|k: int| 0 <= k < pos implies !entry_before(e@, #[trigger] entry_views(old_res)[k]) by {
                assert(entry_views(old_res)[k] == old_res[k]@);
            }
            if pos < old_res.len() {
                assert(entry_views(old_res)[pos as int] == old_res[pos as int]@);
            }
            lemma_insert_pos(entry_views(old_res), e@, pos as int);
            assert(entry_views(entries@.subrange(0, i + 1)).drop_last() =~= entry_views(entries@.subrange(0, i as int)));
            assert forall|j: int| 0 <= j < res@.len() implies #[trigger] names@[j]@ == sort_name(res@[j]@.0) by {
                if j < pos {
                    assert(res@[j] == old_res[j]);
                    assert(names@[j] == old_names[j]);
                } else if j > pos {
                    assert(res@[j] == old_res[j - 1]);
                    assert(names@[j] == old_names[j - 1]);
                }
            }
            assert forall|a: int, b: int| 0 <= a < b < res@.len() implies !entry_before(#[trigger] res@[b]@, #[trigger] res@[a]@) by {
                if b < pos {
                    assert(res@[a] == old_res[a] && res@[b] == old_res[b]);
                } else if b == pos {
                    assert(res@[a] == old_res[a]);
                } else if a > pos {
                    assert(res@[a] == old_res[a - 1] && res@[b] == old_res[b - 1]);
                } else if a == pos {
                    assert(res@[b] == old_res[b - 1]);
                    assert(old_res[pos as int] == res@[pos + 1]);
                    assert(entry_before(e@, old_res[pos as int]@));
                    if entry_before(res@[b]@, e@) {
                        lemma_entry_before_irreflexive(old_res[pos as int]@);
                        if b - 1 > pos {
                            assert(!entry_before(old_res[b - 1]@, old_res[pos as int]@));
                        }
                        lemma_entry_before_transitive(res@[b]@, e@, old_res[pos as int]@);
                    }
                } else {
                    assert(res@[a] == old_res[a] && res@[b] == old_res[b - 1]);
                }
            }
        }
        i = i + 1;
    }
    assert(entries@.subrange(0, i as int) =~= entries@);
    res
}

} // verus!
