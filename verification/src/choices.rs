use vstd::prelude::*;
use crate::option::{ArchiveOption, default_option, spec_next};
use crate::paths::{FsPath, is_prefix, path_extension};
use crate::text::{chars_eq, copy_chars, decode_lossy, lowercase, spec_decode_lossy, spec_lowercase};

verus! {

/// The value of the first entry whose key is `k`, as a map lookup sees an
/// association list.
pub open spec fn lookup<K, V>(s: Seq<(K, V)>, k: K) -> Option<V>
    decreases s.len(),
{
    if s.len() == 0 {
        None
    } else {
        match lookup(s.drop_last(), k) {
            Some(v) => Some(v),
            None => if s.last().0 == k {
                Some(s.last().1)
            } else {
                None
            },
        }
    }
}

/// Once a prefix of the list answers a lookup, the whole list answers it the same way.
pub proof fn lemma_lookup_prefix<K, V>(s: Seq<(K, V)>, i: int, k: K)
    requires
        0 <= i <= s.len(),
        lookup(s.subrange(0, i), k) is Some,
    ensures
        lookup(s, k) == lookup(s.subrange(0, i), k),
    decreases s.len() - i,
{
    if i < s.len() {
        assert(s.subrange(0, i + 1).drop_last() =~= s.subrange(0, i));
        lemma_lookup_prefix(s, i + 1, k);
    } else {
        assert(s.subrange(0, i) =~= s);
    }
}

/// A lookup that fails on every entry of the list fails on the list.
pub proof fn lemma_lookup_none<K, V>(s: Seq<(K, V)>, k: K)
    requires
        forall|j: int| 0 <= j < s.len() ==> s[j].0 != k,
    ensures
        lookup(s, k) is None,
    decreases s.len(),
{
    if s.len() > 0 {
        lemma_lookup_none(s.drop_last(), k);
    }
}

/// The keys of the extension overrides are lowercase extensions; this is the
/// key a path is looked up under.
pub open spec fn extension_key(p: Seq<Seq<u8>>) -> Option<Seq<char>> {
    match path_extension(p) {
        Some(e) => Some(spec_lowercase(spec_decode_lossy(e))),
        None => None,
    }
}

/// The path choices of a list, by view.
pub open spec fn path_entry_views(s: Seq<(FsPath, ArchiveOption)>) -> Seq<(Seq<Seq<u8>>, ArchiveOption)> {
    s.map_values(|e: (FsPath, ArchiveOption)| (e.0@, e.1))
}

/// The extension choices of a list, by view.
pub open spec fn ext_entry_views(s: Seq<(Vec<char>, ArchiveOption)>) -> Seq<(Seq<char>, ArchiveOption)> {
    s.map_values(|e: (Vec<char>, ArchiveOption)| (e.0@, e.1))
}

/// The options the user chose: per path (a directory's option holds for what
/// lies inside it), per lowercase extension, and the root directory that the
/// inheritance from parents stops at.
pub struct ChosenOptions {
    map_paths: Vec<(FsPath, ArchiveOption)>,
    map_exts: Vec<(Vec<char>, ArchiveOption)>,
    root: FsPath,
}

/// `after` is `before` once the entry at `p` was cycled: `p` gets the option
/// after its effective one, and for a directory every choice strictly or not
/// strictly inside it is dropped; nothing else changes.
pub open spec fn path_cycled(before: ChosenOptions, after: ChosenOptions, p: Seq<Seq<u8>>, is_dir: bool) -> bool {
    &&& after.ext_entries() == before.ext_entries()
    &&& after.root_view() == before.root_view()
    &&& forall|k: Seq<Seq<u8>>| #[trigger] after.path_choice(k) == if k == p {
        Some(spec_next(before.effective(p)))
    } else if is_dir && is_prefix(p, k) {
        None
    } else {
        before.path_choice(k)
    }
}

/// `after` is `before` once the lowercase extension `e` was cycled: `e` gets
/// the option after its stored one (or after the default); nothing else changes.
pub open spec fn extension_cycled(before: ChosenOptions, after: ChosenOptions, e: Seq<char>) -> bool {
    &&& after.path_entries() == before.path_entries()
    &&& after.root_view() == before.root_view()
    &&& forall|k: Seq<char>| #[trigger] after.ext_choice(k) == if k == e {
        Some(spec_next(match before.ext_choice(e) {
            Some(o) => o,
            None => default_option(),
        }))
    } else {
        before.ext_choice(k)
    }
}

impl ChosenOptions {
    /// The path choices, in storage order.
    pub closed spec fn path_entries(&self) -> Seq<(Seq<Seq<u8>>, ArchiveOption)> {
        path_entry_views(self.map_paths@)
    }

    /// The extension choices, in storage order.
    pub closed spec fn ext_entries(&self) -> Seq<(Seq<char>, ArchiveOption)> {
        ext_entry_views(self.map_exts@)
    }

    /// The root directory.
    pub closed spec fn root_view(&self) -> Seq<Seq<u8>> {
        self.root@
    }

    /// The option chosen for exactly this path, if any.
    pub open spec fn path_choice(&self, p: Seq<Seq<u8>>) -> Option<ArchiveOption> {
        lookup(self.path_entries(), p)
    }

    /// The option chosen for this lowercase extension, if any.
    pub open spec fn ext_choice(&self, e: Seq<char>) -> Option<ArchiveOption> {
        lookup(self.ext_entries(), e)
    }

    /// The option that an extension override gives this path, if any.
    pub open spec fn ext_override(&self, p: Seq<Seq<u8>>) -> Option<ArchiveOption> {
        match extension_key(p) {
            Some(e) => self.ext_choice(e),
            None => None,
        }
    }

    /// Walks from `cur` up through its parents: the first directory with a
    /// choice gives the option; the walk ends with the default after the root
    /// directory or after `/`.
    pub open spec fn ancestor_walk(&self, cur: Seq<Seq<u8>>) -> ArchiveOption
        decreases cur.len(),
    {
        match self.path_choice(cur) {
            Some(o) => o,
            None => if cur == self.root_view() || cur.len() == 0 {
                default_option()
            } else {
                self.ancestor_walk(cur.drop_last())
            },
        }
    }

    /// The option inherited from the parents of `p`.
    pub open spec fn inherited(&self, p: Seq<Seq<u8>>) -> ArchiveOption {
        if p.len() == 0 {
            default_option()
        } else {
            self.ancestor_walk(p.drop_last())
        }
    }

    /// The option that applies to a path: its own choice, else its
    /// extension's, else the nearest chosen parent's (up to the root), else
    /// the default.
    pub open spec fn effective(&self, p: Seq<Seq<u8>>) -> ArchiveOption {
        match self.path_choice(p) {
            Some(o) => o,
            None => match self.ext_override(p) {
                Some(o) => o,
                None => self.inherited(p),
            },
        }
    }

    /// No choices yet, for the given root directory.
    pub fn new(root_dir: &FsPath) -> (r: ChosenOptions)
        ensures
            r.path_entries() == Seq::<(Seq<Seq<u8>>, ArchiveOption)>::empty(),
            r.ext_entries() == Seq::<(Seq<char>, ArchiveOption)>::empty(),
            r.root_view() == root_dir@,
    {
        let r = ChosenOptions { map_paths: Vec::new(), map_exts: Vec::new(), root: root_dir.duplicate() };
        assert(r.path_entries() =~= Seq::<(Seq<Seq<u8>>, ArchiveOption)>::empty());
        assert(r.ext_entries() =~= Seq::<(Seq<char>, ArchiveOption)>::empty());
        r
    }

    /// Choices restored from storage.
    pub fn from_entries(
        paths: Vec<(FsPath, ArchiveOption)>,
        exts: Vec<(Vec<char>, ArchiveOption)>,
        root_dir: FsPath,
    ) -> (r: ChosenOptions)
        ensures
            r.path_entries() == path_entry_views(paths@),
            r.ext_entries() == ext_entry_views(exts@),
            r.root_view() == root_dir@,
    {
        ChosenOptions { map_paths: paths, map_exts: exts, root: root_dir }
    }

    /// The path choices, for storage.
    pub fn path_list(&self) -> (r: &Vec<(FsPath, ArchiveOption)>)
        ensures
            path_entry_views(r@) == self.path_entries(),
    {
        &self.map_paths
    }

    /// The extension choices, for storage.
    pub fn ext_list(&self) -> (r: &Vec<(Vec<char>, ArchiveOption)>)
        ensures
            ext_entry_views(r@) == self.ext_entries(),
    {
        &self.map_exts
    }

    /// The root directory.
    pub fn root(&self) -> (r: &FsPath)
        ensures
            r@ == self.root_view(),
    {
        &self.root
    }

    /// The choice stored for the first `k` components of `path`.
    fn find_path(&self, path: &FsPath, k: usize) -> (r: Option<ArchiveOption>)
        requires
            k <= path@.len(),
        ensures
            r == self.path_choice(path@.subrange(0, k as int)),
    {
        let ghost key = path@.subrange(0, k as int);
        let ghost s = self.path_entries();
        let mut i: usize = 0;
        while i < self.map_paths.len()
            invariant
                k <= path@.len(),
                key == path@.subrange(0, k as int),
                s == self.path_entries(),
                i <= self.map_paths.len(),
                lookup(s.subrange(0, i as int), key) is None,
            decreases self.map_paths.len() - i,
        {
            let e = &self.map_paths[i];
            assert(s.subrange(0, i + 1).drop_last() =~= s.subrange(0, i as int));
            if path.prefix_equals(k, &e.0) {
                proof {
                    lemma_lookup_prefix(s, i + 1, key);
                }
                return Some(e.1);
            }
            i = i + 1;
        }
        assert(s.subrange(0, i as int) =~= s);
        None
    }

    /// The choice stored for this extension key.
    fn find_ext(&self, ext: &Vec<char>) -> (r: Option<ArchiveOption>)
        ensures
            r == self.ext_choice(ext@),
    {
        let ghost s = self.ext_entries();
        let mut i: usize = 0;
        while i < self.map_exts.len()
            invariant
                s == self.ext_entries(),
                i <= self.map_exts.len(),
                lookup(s.subrange(0, i as int), ext@) is None,
            decreases self.map_exts.len() - i,
        {
            let e = &self.map_exts[i];
            assert(s.subrange(0, i + 1).drop_last() =~= s.subrange(0, i as int));
            if chars_eq(&e.0, ext) {
                proof {
                    lemma_lookup_prefix(s, i + 1, ext@);
                }
                return Some(e.1);
            }
            i = i + 1;
        }
        assert(s.subrange(0, i as int) =~= s);
        None
    }

    /// The option stored for a lowercase extension, the default when none is.
    pub fn ext_option(&self, ext: &Vec<char>) -> (r: ArchiveOption)
        ensures
            r == match self.ext_choice(ext@) {
                Some(o) => o,
                None => default_option(),
            },
    {
        match self.find_ext(ext) {
            Some(o) => o,
            None => ArchiveOption::Compress,
        }
    }

    /// The option that applies to `path`: the option chosen for the path
    /// itself; else the one chosen for its lowercase extension; else the one
    /// of the nearest parent directory with a choice, looking no higher than
    /// the root directory; else the default (Compress).
    pub fn effective_option(&self, path: &FsPath) -> (r: ArchiveOption)
        ensures
            r == self.effective(path@),
    {
        let n = path.depth();
        assert(path@.subrange(0, n as int) =~= path@);
        if let Some(o) = self.find_path(path, n) {
            return o;
        }
        if let Some(ext) = path.extension() {
            let key = lowercase(&decode_lossy(&ext));
            if let Some(o) = self.find_ext(&key) {
                return o;
            }
        }
        if n == 0 {
            return ArchiveOption::Compress;
        }
        let mut k: usize = n - 1;
        assert(path@.drop_last() =~= path@.subrange(0, k as int));
        assert(self.effective(path@) == self.inherited(path@));
        loop
            invariant
                n == path@.len(),
                self.effective(path@) == self.inherited(path@),
                k < n,
                self.inherited(path@) == self.ancestor_walk(path@.subrange(0, k as int)),
            decreases k,
        {
            if let Some(o) = self.find_path(path, k) {
                return o;
            }
            if k == 0 {
                return ArchiveOption::Compress;
            }
            if path.prefix_equals(k, &self.root) {
                return ArchiveOption::Compress;
            }
            assert(path@.subrange(0, k as int).drop_last() =~= path@.subrange(0, k - 1));
            k = k - 1;
        }
    }

    /// Cycles the option of one browser entry: the entry gets the option
    /// after its current effective one; for a directory, every choice made
    /// inside it is dropped first, so that its contents follow it.
    pub fn cycle_path(&mut self, path: &FsPath, is_dir: bool)
        ensures
            path_cycled(*old(self), *final(self), path@, is_dir),
            keys_distinct(old(self).path_entries()) ==> keys_distinct(final(self).path_entries()),
    {
        let next = self.effective_option(path).next();
        let ghost s = self.path_entries();
        let mut kept: Vec<(FsPath, ArchiveOption)> = Vec::new();
        let mut i: usize = 0;
        while i < self.map_paths.len()
            invariant
                s == self.path_entries(),
                i <= self.map_paths.len(),
                forall|k: Seq<Seq<u8>>| #[trigger] lookup(path_entry_views(kept@), k) == if k == path@ || (is_dir && is_prefix(path@, k)) {
                    None
                } else {
                    lookup(s.subrange(0, i as int), k)
                },
                forall|j: int| 0 <= j < kept@.len() ==> (#[trigger] path_entry_views(kept@)[j]).0 != path@,
                forall|j: int| #![trigger path_entry_views(kept@)[j]] 0 <= j < kept@.len() ==> exists|t: int| 0 <= t < i && #[trigger] s[t] == path_entry_views(kept@)[j],
                keys_distinct(s) ==> keys_distinct(path_entry_views(kept@)),
            decreases self.map_paths.len() - i,
        {
            let e = &self.map_paths[i];
            let ghost prev = path_entry_views(kept@);
            assert(s.subrange(0, i + 1).drop_last() =~= s.subrange(0, i as int));
            let drop_it = e.0.equals(path) || (is_dir && e.0.starts_with(path));
            let ghost ent = s[i as int];
            assert(ent == (e.0@, e.1));
            assert(s.subrange(0, i + 1).last() == ent);
            if !drop_it {
                kept.push((e.0.duplicate(), e.1));
                assert(path_entry_views(kept@).drop_last() =~= prev);
                assert(path_entry_views(kept@).last() == ent);
                proof {
                    let kv = path_entry_views(kept@);
                    assert forall|j: int| #![trigger kv[j]] 0 <= j < kept@.len() implies exists|t: int| 0 <= t < i + 1 && #[trigger] s[t] == kv[j] by {
                        if j < prev.len() {
                            assert(kv[j] == prev[j]);
                            let t = choose|t: int| 0 <= t < i && #[trigger] s[t] == prev[j];
                            assert(s[t] == kv[j]);
                        } else {
                            assert(s[i as int] == kv[j]);
                        }
                    }
                    assert forall|j: int| 0 <= j < kept@.len() implies (#[trigger] kv[j]).0 != path@ by {
                        if j < prev.len() {
                            assert(kv[j] == prev[j]);
                        }
                    }
                    if keys_distinct(s) {
                        assert forall|a: int, b: int| 0 <= a < b < kv.len() implies (#[trigger] kv[a]).0 != (#[trigger] kv[b]).0 by {
                            if b < prev.len() {
                                assert(kv[a] == prev[a] && kv[b] == prev[b]);
                            } else {
                                assert(kv[a] == prev[a]);
                                let t = choose|t: int| 0 <= t < i && #[trigger] s[t] == prev[a];
                                assert(s[t].0 != s[i as int].0);
                            }
                        }
                    }
                }
            } else {
                proof {
                    assert forall|j: int| #![trigger path_entry_views(kept@)[j]] 0 <= j < kept@.len() implies exists|t: int| 0 <= t < i + 1 && #[trigger] s[t] == path_entry_views(kept@)[j] by {
                        let t = choose|t: int| 0 <= t < i && #[trigger] s[t] == path_entry_views(kept@)[j];
                    }
                }
            }
            assert forall|k: Seq<Seq<u8>>| #[trigger] lookup(path_entry_views(kept@), k) == if k == path@ || (is_dir && is_prefix(path@, k)) {
                None
            } else {
                lookup(s.subrange(0, i + 1), k)
            } by {
                assert(lookup(prev, k) == if k == path@ || (is_dir && is_prefix(path@, k)) {
                    None
                } else {
                    lookup(s.subrange(0, i as int), k)
                });
            }
            i = i + 1;
        }
        let ghost prev = path_entry_views(kept@);
        kept.push((path.duplicate(), next));
        assert(path_entry_views(kept@).drop_last() =~= prev);
        assert(path_entry_views(kept@).last() == (path@, next));
        assert(s.subrange(0, i as int) =~= s);
        proof {
            let kv = path_entry_views(kept@);
            if keys_distinct(s) {
                assert forall|a: int, b: int| 0 <= a < b < kv.len() implies (#[trigger] kv[a]).0 != (#[trigger] kv[b]).0 by {
                    assert(kv[a] == prev[a]);
                    if b < prev.len() {
                        assert(kv[b] == prev[b]);
                    }
                }
            }
        }
        assert forall|k: Seq<Seq<u8>>| #[trigger] lookup(path_entry_views(kept@), k) == if k == path@ {
            Some(next)
        } else if is_dir && is_prefix(path@, k) {
            None
        } else {
            lookup(s, k)
        } by {
            assert(lookup(prev, k) == if k == path@ || (is_dir && is_prefix(path@, k)) {
                None
            } else {
                lookup(s, k)
            });
        }
        self.map_paths = kept;
    }

    /// Cycles the option of a lowercase extension, starting from its stored
    /// option or the default.
    pub fn cycle_extension(&mut self, ext: &Vec<char>)
        ensures
            extension_cycled(*old(self), *final(self), ext@),
            keys_distinct(old(self).ext_entries()) ==> keys_distinct(final(self).ext_entries()),
    {
        let next = self.ext_option(ext).next();
        let ghost s = self.ext_entries();
        let mut kept: Vec<(Vec<char>, ArchiveOption)> = Vec::new();
        let mut i: usize = 0;
        while i < self.map_exts.len()
            invariant
                s == self.ext_entries(),
                i <= self.map_exts.len(),
                forall|k: Seq<char>| #[trigger] lookup(ext_entry_views(kept@), k) == if k == ext@ {
                    None
                } else {
                    lookup(s.subrange(0, i as int), k)
                },
                forall|j: int| 0 <= j < kept@.len() ==> (#[trigger] ext_entry_views(kept@)[j]).0 != ext@,
                forall|j: int| #![trigger ext_entry_views(kept@)[j]] 0 <= j < kept@.len() ==> exists|t: int| 0 <= t < i && #[trigger] s[t] == ext_entry_views(kept@)[j],
                keys_distinct(s) ==> keys_distinct(ext_entry_views(kept@)),
            decreases self.map_exts.len() - i,
        {
            let e = &self.map_exts[i];
            let ghost prev = ext_entry_views(kept@);
            assert(s.subrange(0, i + 1).drop_last() =~= s.subrange(0, i as int));
            let ghost ent = s[i as int];
            assert(ent == (e.0@, e.1));
            assert(s.subrange(0, i + 1).last() == ent);
            if !chars_eq(&e.0, ext) {
                kept.push((copy_chars(&e.0), e.1));
                assert(ext_entry_views(kept@).drop_last() =~= prev);
                assert(ext_entry_views(kept@).last() == ent);
                proof {
                    let kv = ext_entry_views(kept@);
                    assert forall|j: int| #![trigger kv[j]] 0 <= j < kept@.len() implies exists|t: int| 0 <= t < i + 1 && #[trigger] s[t] == kv[j] by {
                        if j < prev.len() {
                            assert(kv[j] == prev[j]);
                            let t = choose|t: int| 0 <= t < i && #[trigger] s[t] == prev[j];
                            assert(s[t] == kv[j]);
                        } else {
                            assert(s[i as int] == kv[j]);
                        }
                    }
                    assert forall|j: int| 0 <= j < kept@.len() implies (#[trigger] kv[j]).0 != ext@ by {
                        if j < prev.len() {
                            assert(kv[j] == prev[j]);
                        }
                    }
                    if keys_distinct(s) {
                        assert forall|a: int, b: int| 0 <= a < b < kv.len() implies (#[trigger] kv[a]).0 != (#[trigger] kv[b]).0 by {
                            if b < prev.len() {
                                assert(kv[a] == prev[a] && kv[b] == prev[b]);
                            } else {
                                assert(kv[a] == prev[a]);
                                let t = choose|t: int| 0 <= t < i && #[trigger] s[t] == prev[a];
                                assert(s[t].0 != s[i as int].0);
                            }
                        }
                    }
                }
            } else {
                proof {
                    assert forall|j: int| #![trigger ext_entry_views(kept@)[j]] 0 <= j < kept@.len() implies exists|t: int| 0 <= t < i + 1 && #[trigger] s[t] == ext_entry_views(kept@)[j] by {
                        let t = choose|t: int| 0 <= t < i && #[trigger] s[t] == ext_entry_views(kept@)[j];
                    }
                }
            }
            assert forall|k: Seq<char>| #[trigger] lookup(ext_entry_views(kept@), k) == if k == ext@ {
                None
            } else {
                lookup(s.subrange(0, i + 1), k)
            } by {
                assert(lookup(prev, k) == if k == ext@ {
                    None
                } else {
                    lookup(s.subrange(0, i as int), k)
                });
            }
            i = i + 1;
        }
        let ghost prev = ext_entry_views(kept@);
        kept.push((copy_chars(ext), next));
        assert(ext_entry_views(kept@).drop_last() =~= prev);
        assert(ext_entry_views(kept@).last() == (ext@, next));
        assert(s.subrange(0, i as int) =~= s);
        proof {
            let kv = ext_entry_views(kept@);
            if keys_distinct(s) {
                assert forall|a: int, b: int| 0 <= a < b < kv.len() implies (#[trigger] kv[a]).0 != (#[trigger] kv[b]).0 by {
                    assert(kv[a] == prev[a]);
                    if b < prev.len() {
                        assert(kv[b] == prev[b]);
                    }
                }
            }
        }
        assert forall|k: Seq<char>| #[trigger] lookup(ext_entry_views(kept@), k) == if k == ext@ {
            Some(next)
        } else {
            lookup(s, k)
        } by {
            assert(lookup(prev, k) == if k == ext@ {
                None
            } else {
                lookup(s, k)
            });
        }
        self.map_exts = kept;
    }
}

proof fn lemma_prefix_of_parent(p: Seq<Seq<u8>>, c: Seq<Seq<u8>>)
    requires
        c.len() > 0,
        is_prefix(p, c.drop_last()),
    ensures
        is_prefix(p, c),
{
    assert(c.subrange(0, p.len() as int) =~= c.drop_last().subrange(0, p.len() as int));
}

proof fn lemma_parent_stays_inside(p: Seq<Seq<u8>>, c: Seq<Seq<u8>>)
    requires
        is_prefix(p, c),
        c.len() > p.len(),
    ensures
        is_prefix(p, c.drop_last()),
{
    assert(c.drop_last().subrange(0, p.len() as int) =~= c.subrange(0, p.len() as int));
}

proof fn lemma_walk_outside(before: ChosenOptions, after: ChosenOptions, p: Seq<Seq<u8>>, is_dir: bool, cur: Seq<Seq<u8>>)
    requires
        path_cycled(before, after, p, is_dir),
        !is_prefix(p, cur),
    ensures
        after.ancestor_walk(cur) == before.ancestor_walk(cur),
    decreases cur.len(),
{
    assert(cur != p) by {
        if cur == p {
            assert(cur.subrange(0, p.len() as int) =~= p);
        }
    }
    assert(after.path_choice(cur) == before.path_choice(cur));
    if cur.len() > 0 && before.path_choice(cur) is None && cur != before.root_view() {
        if is_prefix(p, cur.drop_last()) {
            lemma_prefix_of_parent(p, cur);
        }
        lemma_walk_outside(before, after, p, is_dir, cur.drop_last());
    }
}

proof fn lemma_walk_inside(before: ChosenOptions, after: ChosenOptions, p: Seq<Seq<u8>>, cur: Seq<Seq<u8>>)
    requires
        path_cycled(before, after, p, true),
        is_prefix(p, cur),
        !(is_prefix(p, before.root_view()) && before.root_view().len() > p.len()),
    ensures
        after.ancestor_walk(cur) == spec_next(before.effective(p)),
    decreases cur.len(),
{
    if cur.len() == p.len() {
        assert(cur =~= p) by {
            assert(cur.subrange(0, p.len() as int) =~= cur);
        }
        assert(after.path_choice(p) == Some(spec_next(before.effective(p))));
    } else {
        assert(cur != p);
        assert(after.path_choice(cur) is None);
        assert(cur != after.root_view());
        lemma_parent_stays_inside(p, cur);
        lemma_walk_inside(before, after, p, cur.drop_last());
    }
}

/// Cycling an entry moves it to the option after the one it had.
pub proof fn lemma_cycle_advances(before: ChosenOptions, after: ChosenOptions, p: Seq<Seq<u8>>, is_dir: bool)
    requires
        path_cycled(before, after, p, is_dir),
    ensures
        after.effective(p) == spec_next(before.effective(p)),
{
    assert(after.path_choice(p) == Some(spec_next(before.effective(p))));
}

/// Cycling an entry leaves the option of every path outside it unchanged.
pub proof fn lemma_cycle_is_local(before: ChosenOptions, after: ChosenOptions, p: Seq<Seq<u8>>, is_dir: bool, q: Seq<Seq<u8>>)
    requires
        path_cycled(before, after, p, is_dir),
        !is_prefix(p, q),
    ensures
        after.effective(q) == before.effective(q),
{
    assert(q != p) by {
        if q == p {
            assert(q.subrange(0, p.len() as int) =~= p);
        }
    }
    assert(after.path_choice(q) == before.path_choice(q));
    assert(after.ext_override(q) == before.ext_override(q));
    if q.len() > 0 {
        if is_prefix(p, q.drop_last()) {
            lemma_prefix_of_parent(p, q);
        }
        lemma_walk_outside(before, after, p, is_dir, q.drop_last());
    }
}

/// Cycling a directory makes everything inside it that has no extension
/// override follow the directory's new option, provided that the root
/// directory does not lie strictly inside it.
pub proof fn lemma_cycle_dir_propagates(before: ChosenOptions, after: ChosenOptions, p: Seq<Seq<u8>>, q: Seq<Seq<u8>>)
    requires
        path_cycled(before, after, p, true),
        is_prefix(p, q),
        q != p,
        after.ext_override(q) is None,
        !(is_prefix(p, before.root_view()) && before.root_view().len() > p.len()),
    ensures
        after.effective(q) == spec_next(before.effective(p)),
{
    assert(q.len() > p.len()) by {
        if q.len() == p.len() {
            assert(q.subrange(0, p.len() as int) =~= q);
        }
    }
    assert(after.path_choice(q) is None);
    lemma_parent_stays_inside(p, q);
    lemma_walk_inside(before, after, p, q.drop_last());
}

/// With no choices made, every path gets the default option.
pub proof fn lemma_fresh_is_default(c: ChosenOptions, q: Seq<Seq<u8>>)
    requires
        c.path_entries().len() == 0,
        c.ext_entries().len() == 0,
    ensures
        c.effective(q) == default_option(),
{
    lemma_fresh_walk(c, q);
}

proof fn lemma_fresh_walk(c: ChosenOptions, cur: Seq<Seq<u8>>)
    requires
        c.path_entries().len() == 0,
        c.ext_entries().len() == 0,
    ensures
        c.ancestor_walk(cur) == default_option(),
        c.effective(cur) == default_option(),
    decreases cur.len(),
{
    if cur.len() > 0 {
        lemma_fresh_walk(c, cur.drop_last());
    }
}

/// Cycling an extension gives every file with that extension and no choice
/// of its own the option after the one the extension had (or after the
/// default, when the extension had none).
pub proof fn lemma_cycle_extension_applies(before: ChosenOptions, after: ChosenOptions, e: Seq<char>, q: Seq<Seq<u8>>)
    requires
        extension_cycled(before, after, e),
        extension_key(q) == Some(e),
        before.path_choice(q) is None,
    ensures
        after.effective(q) == spec_next(match before.ext_choice(e) {
            Some(o) => o,
            None => default_option(),
        }),
{
    assert(after.ext_choice(e) == Some(spec_next(match before.ext_choice(e) {
        Some(o) => o,
        None => default_option(),
    })));
}

/// No key occurs twice in an association list.
pub open spec fn keys_distinct<K, V>(s: Seq<(K, V)>) -> bool {
    forall|a: int, b: int| 0 <= a < b < s.len() ==> (#[trigger] s[a]).0 != (#[trigger] s[b]).0
}

/// With distinct keys, a lookup finds exactly the pairs in the list.
pub proof fn lemma_lookup_distinct<K, V>(s: Seq<(K, V)>, k: K, v: V)
    requires
        keys_distinct(s),
    ensures
        lookup(s, k) == Some(v) <==> s.contains((k, v)),
    decreases s.len(),
{
    if s.len() > 0 {
        let p = s.drop_last();
        assert(keys_distinct(p)) by {
            assert forall|a: int, b: int| 0 <= a < b < p.len() implies (#[trigger] p[a]).0 != (#[trigger] p[b]).0 by {
                assert(p[a] == s[a] && p[b] == s[b]);
            }
        }
        lemma_lookup_distinct(p, k, v);
        if s.contains((k, v)) {
            let j = choose|j: int| 0 <= j < s.len() && s[j] == (k, v);
            if j < p.len() {
                assert(p[j] == s[j]);
            } else if lookup(p, k) is Some {
                let w = lookup(p, k)->0;
                lemma_lookup_distinct(p, k, w);
                let i = choose|i: int| 0 <= i < p.len() && p[i] == (k, w);
                assert(s[i] == p[i]);
            }
        }
        if lookup(s, k) == Some(v) {
            if lookup(p, k) is Some {
                let j = choose|j: int| 0 <= j < p.len() && p[j] == (k, v);
                assert(s[j] == p[j]);
            } else {
                assert(s[s.len() - 1] == (k, v));
            }
        } else if s.contains((k, v)) {
            let j = choose|j: int| 0 <= j < s.len() && s[j] == (k, v);
            if j < p.len() {
                assert(p[j] == s[j]);
                assert(p.contains((k, v)));
            } else {
                if lookup(p, k) is Some {
                    let w = lookup(p, k)->0;
                    lemma_lookup_distinct(p, k, w);
                    let i = choose|i: int| 0 <= i < p.len() && p[i] == (k, w);
                    assert(s[i] == p[i]);
                }
            }
        }
    }
}

/// Lists with distinct keys and the same pairs, in any order, answer every
/// lookup alike.
pub proof fn lemma_lookup_permuted<K, V>(x: Seq<(K, V)>, y: Seq<(K, V)>, k: K)
    requires
        keys_distinct(x),
        keys_distinct(y),
        x.to_multiset() == y.to_multiset(),
    ensures
        lookup(x, k) == lookup(y, k),
{
    broadcast use vstd::seq_lib::to_multiset_contains;
    if lookup(x, k) is Some {
        let v = lookup(x, k)->0;
        lemma_lookup_distinct(x, k, v);
        assert(x.to_multiset().count((k, v)) > 0);
        assert(y.contains((k, v)));
        lemma_lookup_distinct(y, k, v);
    } else if lookup(y, k) is Some {
        let v = lookup(y, k)->0;
        lemma_lookup_distinct(y, k, v);
        assert(y.to_multiset().count((k, v)) > 0);
        assert(x.contains((k, v)));
        lemma_lookup_distinct(x, k, v);
    }
}

proof fn lemma_walk_same(a: ChosenOptions, b: ChosenOptions, cur: Seq<Seq<u8>>)
    requires
        forall|k: Seq<Seq<u8>>| #[trigger] a.path_choice(k) == b.path_choice(k),
        a.root_view() == b.root_view(),
    ensures
        a.ancestor_walk(cur) == b.ancestor_walk(cur),
    decreases cur.len(),
{
    assert(a.path_choice(cur) == b.path_choice(cur));
    if cur.len() > 0 {
        lemma_walk_same(a, b, cur.drop_last());
    }
}

/// Choices written out as their two lists and read back in any order (as a
/// map keeps them) give every path the same option: what is restored is
/// what was saved.
pub proof fn lemma_restore_same_choices(saved: ChosenOptions, restored: ChosenOptions, q: Seq<Seq<u8>>)
    requires
        keys_distinct(saved.path_entries()),
        keys_distinct(saved.ext_entries()),
        keys_distinct(restored.path_entries()),
        keys_distinct(restored.ext_entries()),
        saved.path_entries().to_multiset() == restored.path_entries().to_multiset(),
        saved.ext_entries().to_multiset() == restored.ext_entries().to_multiset(),
        saved.root_view() == restored.root_view(),
    ensures
        restored.effective(q) == saved.effective(q),
{
    assert forall|k: Seq<Seq<u8>>| #[trigger] saved.path_choice(k) == restored.path_choice(k) by {
        lemma_lookup_permuted(saved.path_entries(), restored.path_entries(), k);
    }
    assert forall|e: Seq<char>| #[trigger] saved.ext_choice(e) == restored.ext_choice(e) by {
        lemma_lookup_permuted(saved.ext_entries(), restored.ext_entries(), e);
    }
    assert(saved.ext_override(q) == restored.ext_override(q));
    if q.len() > 0 {
        lemma_walk_same(saved, restored, q.drop_last());
    }
}

} // verus!
