use vstd::prelude::*;
use crate::text::{bytes_eq, copy_bytes};

verus! {

/// An absolute file system path, held as its components below `/`, each
/// component as the raw bytes of its name. The root directory `/` has no
/// components.
pub struct FsPath {
    pub parts: Vec<Vec<u8>>,
}

impl View for FsPath {
    type V = Seq<Seq<u8>>;

    open spec fn view(&self) -> Seq<Seq<u8>> {
        self.parts@.map_values(|p: Vec<u8>| p@)
    }
}

/// The index of the last `.` in a file name, or -1 when it has none.
pub open spec fn last_dot(name: Seq<u8>) -> int
    decreases name.len(),
{
    if name.len() == 0 {
        -1
    } else if name.last() == 46u8 {
        name.len() - 1
    } else {
        last_dot(name.drop_last())
    }
}

/// The extension of a file name as `std::path::Path::extension` defines it:
/// the part after the last `.`, provided that something stands before that
/// `.`; the name `..` has none.
pub open spec fn name_extension(name: Seq<u8>) -> Option<Seq<u8>> {
    if name == seq![46u8, 46u8] || last_dot(name) <= 0 {
        None
    } else {
        Some(name.subrange(last_dot(name) + 1, name.len() as int))
    }
}

/// The extension of a path: that of its last component, none for `/`.
pub open spec fn path_extension(p: Seq<Seq<u8>>) -> Option<Seq<u8>> {
    if p.len() == 0 {
        None
    } else {
        name_extension(p.last())
    }
}

/// Whether `a` is a component-wise prefix of `b` (`b` lies inside `a` or is `a`).
pub open spec fn is_prefix(a: Seq<Seq<u8>>, b: Seq<Seq<u8>>) -> bool {
    a.len() <= b.len() && b.subrange(0, a.len() as int) == a
}

/// `p` with the prefix `root` taken off, or `p` itself when `root` is not a
/// prefix of it.
pub open spec fn strip_root(p: Seq<Seq<u8>>, root: Seq<Seq<u8>>) -> Seq<Seq<u8>> {
    if is_prefix(root, p) {
        p.subrange(root.len() as int, p.len() as int)
    } else {
        p
    }
}

proof fn lemma_last_dot_bounds(name: Seq<u8>)
    ensures
        -1 <= last_dot(name) < name.len(),
        last_dot(name) >= 0 ==> name[last_dot(name)] == 46u8,
        forall|j: int| last_dot(name) < j < name.len() ==> name[j] != 46u8,
    decreases name.len(),
{
    if name.len() > 0 && name.last() != 46u8 {
        lemma_last_dot_bounds(name.drop_last());
        assert forall|j: int| last_dot(name) < j < name.len() implies name[j] != 46u8 by {
            if j < name.len() - 1 {
                assert(name[j] == name.drop_last()[j]);
            }
        }
    }
}

proof fn lemma_last_dot_of_prefix(name: Seq<u8>, k: int)
    requires
        0 <= k <= name.len(),
        forall|j: int| k <= j < name.len() ==> name[j] != 46u8,
    ensures
        last_dot(name) == last_dot(name.subrange(0, k)),
    decreases name.len() - k,
{
    if k < name.len() {
        assert(name.drop_last().subrange(0, k) =~= name.subrange(0, k));
        lemma_last_dot_of_prefix(name.drop_last(), k);
    } else {
        assert(name.subrange(0, k) =~= name);
    }
}

impl FsPath {
    /// The root directory `/`.
    pub fn root_dir() -> (r: FsPath)
        ensures
            r@ == Seq::<Seq<u8>>::empty(),
    {
        let r = FsPath { parts: Vec::new() };
        assert(r@ =~= Seq::<Seq<u8>>::empty());
        r
    }

    /// A path from its components.
    pub fn from_parts(parts: Vec<Vec<u8>>) -> (r: FsPath)
        ensures
            r.parts@ == parts@,
            r@ == parts@.map_values(|p: Vec<u8>| p@),
    {
        FsPath { parts }
    }

    /// The number of components.
    pub fn depth(&self) -> (n: usize)
        ensures
            n == self@.len(),
    {
        self.parts.len()
    }

    /// A copy of this path.
    pub fn duplicate(&self) -> (r: FsPath)
        ensures
            r@ == self@,
    {
        let mut parts: Vec<Vec<u8>> = Vec::new();
        let mut i: usize = 0;
        while i < self.parts.len()
            invariant
                i <= self.parts.len(),
                parts@.len() == i,
                forall|j: int| 0 <= j < i ==> parts@[j]@ == self.parts@[j]@,
            decreases self.parts.len() - i,
        {
            parts.push(copy_bytes(&self.parts[i]));
            i = i + 1;
        }
        let r = FsPath { parts };
        assert(r@ =~= self@);
        r
    }

    /// This path followed by one more component.
    pub fn join(&self, name: &Vec<u8>) -> (r: FsPath)
        ensures
            r@ == self@.push(name@),
    {
        let mut r = self.duplicate();
        r.parts.push(copy_bytes(name));
        assert(r@ =~= self@.push(name@));
        r
    }

    /// The parent directory; none for `/`.
    pub fn parent(&self) -> (r: Option<FsPath>)
        ensures
            r is None <==> self@.len() == 0,
            r matches Some(p) ==> p@ == self@.drop_last(),
    {
        let n = self.parts.len();
        if n == 0 {
            return None;
        }
        let mut parts: Vec<Vec<u8>> = Vec::new();
        let mut i: usize = 0;
        while i < n - 1
            invariant
                n == self.parts@.len(),
                n > 0,
                i <= n - 1,
                parts@.len() == i,
                forall|j: int| 0 <= j < i ==> parts@[j]@ == self.parts@[j]@,
            decreases n - 1 - i,
        {
            parts.push(copy_bytes(&self.parts[i]));
            i = i + 1;
        }
        let r = FsPath { parts };
        assert(r@ =~= self@.drop_last());
        Some(r)
    }

    /// Whether the first `k` components of `other` equal the first `k` of this path.
    fn same_prefix(&self, other: &FsPath, k: usize) -> (r: bool)
        requires
            k <= self@.len(),
            k <= other@.len(),
        ensures
            r == (self@.subrange(0, k as int) == other@.subrange(0, k as int)),
    {
        let mut i: usize = 0;
        while i < k
            invariant
                k <= self@.len(),
                k <= other@.len(),
                i <= k,
                forall|j: int| 0 <= j < i ==> self@[j] == other@[j],
            decreases k - i,
        {
            if !bytes_eq(&self.parts[i], &other.parts[i]) {
                assert(self@.subrange(0, k as int)[i as int] != other@.subrange(0, k as int)[i as int]);
                return false;
            }
            i = i + 1;
        }
        assert(self@.subrange(0, k as int) =~= other@.subrange(0, k as int));
        true
    }

    /// Whether the first `k` components of this path are exactly `other`.
    pub fn prefix_equals(&self, k: usize, other: &FsPath) -> (r: bool)
        requires
            k <= self@.len(),
        ensures
            r == (self@.subrange(0, k as int) == other@),
    {
        if other.parts.len() != k {
            return false;
        }
        let r = self.same_prefix(other, k);
        assert(other@.subrange(0, k as int) =~= other@);
        r
    }

    /// Whether this path equals `other`.
    pub fn equals(&self, other: &FsPath) -> (r: bool)
        ensures
            r == (self@ == other@),
    {
        let r = self.prefix_equals(self.parts.len(), other);
        assert(self@.subrange(0, self@.len() as int) =~= self@);
        r
    }

    /// Whether this path is `other` or lies inside it, component by
    /// component (`Path::strip_prefix(other).is_ok()`).
    pub fn starts_with(&self, other: &FsPath) -> (r: bool)
        ensures
            r == is_prefix(other@, self@),
    {
        if other.parts.len() > self.parts.len() {
            return false;
        }
        let r = other.same_prefix(self, other.parts.len());
        assert(other@.subrange(0, other@.len() as int) =~= other@);
        r
    }

    /// The extension of the last component, as `Path::extension` gives it.
    pub fn extension(&self) -> (r: Option<Vec<u8>>)
        ensures
            r matches Some(e) ==> path_extension(self@) == Some(e@),
            r is None ==> path_extension(self@) is None,
    {
        let n = self.parts.len();
        if n == 0 {
            return None;
        }
        let name = &self.parts[n - 1];
        let ghost nm = name@;
        assert(nm == self@.last());
        proof {
            lemma_last_dot_bounds(nm);
        }
        if name.len() == 2 && name[0] == 46u8 && name[1] == 46u8 {
            assert(nm =~= seq![46u8, 46u8]);
            return None;
        }
        assert(nm != seq![46u8, 46u8]) by {
            if nm == seq![46u8, 46u8] {
                assert(nm[0] == 46u8 && nm[1] == 46u8);
            }
        }
        let mut i: usize = name.len();
        while i > 0 && name[i - 1] != 46u8
            invariant
                i <= name.len(),
                nm == name@,
                forall|j: int| i <= j < name.len() ==> name@[j] != 46u8,
            decreases i,
        {
            i = i - 1;
        }
        proof {
            lemma_last_dot_of_prefix(nm, i as int);
            if i > 0 {
                let pre = nm.subrange(0, i as int);
                assert(pre.last() == 46u8);
                assert(last_dot(pre) == i - 1);
            } else {
                assert(nm.subrange(0, 0) =~= Seq::<u8>::empty());
            }
        }
        if i <= 1 {
            return None;
        }
        let mut ext: Vec<u8> = Vec::new();
        let mut k: usize = i;
        while k < name.len()
            invariant
                i <= k <= name.len(),
                ext@ == name@.subrange(i as int, k as int),
            decreases name.len() - k,
        {
            ext.push(name[k]);
            k = k + 1;
            assert(ext@ =~= name@.subrange(i as int, k as int));
        }
        Some(ext)
    }

    /// This path with `root` taken off its front, or the path itself when it
    /// does not lie inside `root` (`path.strip_prefix(root).unwrap_or(path)`).
    pub fn remove_root(&self, root: &FsPath) -> (r: FsPath)
        ensures
            r@ == strip_root(self@, root@),
    {
        if !self.starts_with(root) {
            return self.duplicate();
        }
        let mut parts: Vec<Vec<u8>> = Vec::new();
        let mut i: usize = root.parts.len();
        while i < self.parts.len()
            invariant
                root@.len() <= i <= self.parts.len(),
                parts@.len() == i - root@.len(),
                forall|j: int| 0 <= j < parts@.len() ==> parts@[j]@ == self.parts@[root@.len() + j]@,
            decreases self.parts.len() - i,
        {
            parts.push(copy_bytes(&self.parts[i]));
            i = i + 1;
        }
        let r = FsPath { parts };
        assert(r@ =~= self@.subrange(root@.len() as int, self@.len() as int));
        r
    }
}

} // verus!
