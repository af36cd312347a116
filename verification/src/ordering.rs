use vstd::prelude::*;
use vstd::set_lib::{set_int_range, lemma_int_range, lemma_subset_equality};
use crate::paths::FsPath;

verus! {

/// The index that the greedy walk through the images visits next: the first
/// of the nearest neighbours (nearest first) not visited yet, else the lowest
/// index not visited yet.
pub open spec fn first_unvisited(visited: Seq<bool>, neighbors: Seq<usize>) -> Option<usize>
    decreases neighbors.len(),
{
    if neighbors.len() == 0 {
        None
    } else if !visited[neighbors[0] as int] {
        Some(neighbors[0])
    } else {
        first_unvisited(visited, neighbors.drop_first())
    }
}

/// The lowest index not visited yet (the walk's fallback).
pub open spec fn lowest_unvisited(visited: Seq<bool>) -> int {
    choose|i: int| 0 <= i < visited.len() && !visited[i] && forall|j: int| 0 <= j < i ==> visited[j]
}

/// The next index of the walk.
pub open spec fn pick_next(visited: Seq<bool>, neighbors: Seq<usize>) -> usize {
    match first_unvisited(visited, neighbors) {
        Some(i) => i,
        None => lowest_unvisited(visited) as usize,
    }
}

/// What the walk's choice rule gives: some unvisited neighbour when there is
/// one, namely the first in the list (the nearest) with every neighbour
/// before it visited; no answer only when every neighbour is visited.
pub proof fn lemma_first_unvisited(visited: Seq<bool>, neighbors: Seq<usize>)
    ensures
        first_unvisited(visited, neighbors) is None <==> forall|j: int| 0 <= j < neighbors.len() ==> visited[neighbors[j] as int],
        first_unvisited(visited, neighbors) matches Some(r) ==> exists|k: int| 0 <= k < neighbors.len() && r == neighbors[k]
            && !visited[neighbors[k] as int] && forall|j: int| 0 <= j < k ==> visited[neighbors[j] as int],
    decreases neighbors.len(),
{
    if neighbors.len() > 0 {
        let rest = neighbors.drop_first();
        lemma_first_unvisited(visited, rest);
        if visited[neighbors[0] as int] {
            if first_unvisited(visited, rest) is None {
                assert forall|j: int| 0 <= j < neighbors.len() implies visited[neighbors[j] as int] by {
                    if j > 0 {
                        assert(neighbors[j] == rest[j - 1]);
                    }
                }
            } else {
                let r = first_unvisited(visited, rest)->0;
                let k = choose|k: int| 0 <= k < rest.len() && r == rest[k] && !visited[rest[k] as int]
                    && forall|j: int| 0 <= j < k ==> visited[rest[j] as int];
                assert(neighbors[k + 1] == rest[k]);
                assert forall|j: int| 0 <= j < k + 1 implies visited[neighbors[j] as int] by {
                    if j > 0 {
                        assert(neighbors[j] == rest[j - 1]);
                    }
                }
                assert(!visited[rest[k] as int]);
            }
        } else {
            assert(!visited[neighbors[0] as int]);
        }
    }
}

/// A lowest unvisited index exists whenever some index is unvisited.
proof fn lemma_lowest_exists(visited: Seq<bool>, i: int)
    requires
        0 <= i < visited.len(),
        !visited[i],
    ensures
        exists|l: int| 0 <= l < visited.len() && !visited[l] && forall|j: int| 0 <= j < l ==> visited[j],
    decreases i,
{
    if !(forall|j: int| 0 <= j < i ==> visited[j]) {
        let j = choose|j: int| 0 <= j < i && !visited[j];
        lemma_lowest_exists(visited, j);
    }
}

/// The greedy walk's choice: the nearest listed neighbour not visited yet
/// (every neighbour listed before it is visited); only when all listed
/// neighbours are visited, the lowest index not visited yet.
pub proof fn lemma_pick_next(visited: Seq<bool>, neighbors: Seq<usize>)
    requires
        visited.len() <= usize::MAX,
        forall|k: int| 0 <= k < neighbors.len() ==> (#[trigger] neighbors[k]) < visited.len(),
        exists|i: int| 0 <= i < visited.len() && !visited[i],
    ensures
        (exists|k: int| 0 <= k < neighbors.len() && !visited[neighbors[k] as int]) ==> exists|k: int|
            0 <= k < neighbors.len() && pick_next(visited, neighbors) == neighbors[k] && !visited[neighbors[k] as int]
            && forall|j: int| 0 <= j < k ==> visited[neighbors[j] as int],
        (forall|k: int| 0 <= k < neighbors.len() ==> visited[neighbors[k] as int]) ==> {
            let r = pick_next(visited, neighbors) as int;
            &&& 0 <= r < visited.len()
            &&& !visited[r]
            &&& forall|j: int| 0 <= j < r ==> visited[j]
        },
{
    lemma_first_unvisited(visited, neighbors);
    let i = choose|i: int| 0 <= i < visited.len() && !visited[i];
    lemma_lowest_exists(visited, i);
    if forall|k: int| 0 <= k < neighbors.len() ==> visited[neighbors[k] as int] {
        let l = lowest_unvisited(visited);
        assert(0 <= l < visited.len());
        assert((l as usize) as int == l);
    }
}

/// The order in which the images are fed to the video encoder: starting at
/// image 0, each step moves to the most similar image not used yet (as the
/// nearest-neighbour query ranks them), falling back to the lowest unused
/// index when all neighbours found are used.
pub struct VisitOrder {
    visited: Vec<bool>,
    sequence: Vec<usize>,
}

impl VisitOrder {
    #[verifier::type_invariant]
    spec fn inv(self) -> bool {
        &&& self.sequence@.len() >= 1
        &&& self.sequence@[0] == 0
        &&& self.sequence@.no_duplicates()
        &&& forall|k: int| 0 <= k < self.sequence@.len() ==> (#[trigger] self.sequence@[k]) < self.visited@.len()
        &&& forall|i: int| 0 <= i < self.visited@.len() ==> (#[trigger] self.visited@[i] <==> self.sequence@.contains(i as usize))
    }

    /// Which images were visited.
    pub closed spec fn visited_view(&self) -> Seq<bool> {
        self.visited@
    }

    /// The images in the order visited so far.
    pub closed spec fn sequence_view(&self) -> Seq<usize> {
        self.sequence@
    }

    /// A walk over `n` images that has visited image 0; `n` must be positive.
    pub fn new(n: usize) -> (r: VisitOrder)
        requires
            n > 0,
        ensures
            r.visited_view().len() == n,
            r.sequence_view() == seq![0usize],
    {
        let mut visited: Vec<bool> = Vec::new();
        let mut i: usize = 0;
        while i < n
            invariant
                i <= n,
                visited@.len() == i,
                forall|j: int| 0 <= j < i ==> visited@[j] == (j == 0),
            decreases n - i,
        {
            visited.push(i == 0);
            i = i + 1;
        }
        let mut sequence: Vec<usize> = Vec::new();
        sequence.push(0);
        assert(sequence@ =~= seq![0usize]);
        assert forall|i: int| 0 <= i < visited@.len() implies (#[trigger] visited@[i] <==> sequence@.contains(i as usize)) by {
            if i == 0 {
                assert(sequence@[0] == 0usize);
            } else if sequence@.contains(i as usize) {
                let t = choose|t: int| 0 <= t < sequence@.len() && sequence@[t] == i as usize;
                assert(t == 0);
            }
        }
        VisitOrder { visited, sequence }
    }

    /// The image visited last.
    pub fn current(&self) -> (r: usize)
        ensures
            r == self.sequence_view().last(),
            r < self.visited_view().len(),
    {
        proof {
            use_type_invariant(self);
        }
        self.sequence[self.sequence.len() - 1]
    }

    /// Whether every image was visited.
    pub fn is_complete(&self) -> (r: bool)
        ensures
            r == (self.sequence_view().len() == self.visited_view().len()),
    {
        self.sequence.len() == self.visited.len()
    }

    /// Visits the next image, given the neighbours of the current one
    /// (nearest first) as indices of images; some image must be unvisited.
    pub fn step(&mut self, neighbors: &Vec<usize>) -> (r: usize)
        requires
            old(self).sequence_view().len() < old(self).visited_view().len(),
            forall|k: int| 0 <= k < neighbors@.len() ==> (#[trigger] neighbors@[k]) < old(self).visited_view().len(),
        ensures
            r == pick_next(old(self).visited_view(), neighbors@),
            !old(self).visited_view()[r as int],
            final(self).sequence_view() == old(self).sequence_view().push(r),
            final(self).visited_view() == old(self).visited_view().update(r as int, true),
            (exists|k: int| 0 <= k < neighbors@.len() && !old(self).visited_view()[neighbors@[k] as int]) ==> exists|k: int|
                0 <= k < neighbors@.len() && r == neighbors@[k]
                && forall|j: int| 0 <= j < k ==> old(self).visited_view()[neighbors@[j] as int],
            (forall|k: int| 0 <= k < neighbors@.len() ==> old(self).visited_view()[neighbors@[k] as int])
                ==> forall|j: int| 0 <= j < r ==> old(self).visited_view()[j],
    {
        proof {
            use_type_invariant(&*self);
            self.lemma_some_unvisited();
            assert(self.visited@.len() == self.visited.len());
            lemma_pick_next(self.visited@, neighbors@);
        }
        let n = self.visited.len();
        let mut k: usize = 0;
        let ghost vis = self.visited@;
        assert(neighbors@.skip(0) =~= neighbors@);
        while k < neighbors.len() && self.visited[neighbors[k]]
            invariant
                vis == self.visited@,
                n == vis.len(),
                k <= neighbors@.len(),
                forall|t: int| 0 <= t < neighbors@.len() ==> (#[trigger] neighbors@[t]) < n,
                first_unvisited(vis, neighbors@) == first_unvisited(vis, neighbors@.skip(k as int)),
            decreases neighbors@.len() - k,
        {
            assert(neighbors@.skip(k as int)[0] == neighbors@[k as int]);
            assert(neighbors@.skip(k as int).drop_first() =~= neighbors@.skip(k + 1));
            k = k + 1;
        }
        let found: Option<usize> = if k < neighbors.len() {
            assert(neighbors@.skip(k as int)[0] == neighbors@[k as int]);
            Some(neighbors[k])
        } else {
            None
        };
        let next = match found {
            Some(c) => c,
            None => {
                proof {
                    assert(neighbors@.skip(k as int) =~= Seq::<usize>::empty());
                }
                let mut i: usize = 0;
                proof {
                    self.lemma_some_unvisited();
                }
                while i < n && self.visited[i]
                    invariant
                        vis == self.visited@,
                        n == vis.len(),
                        i <= n,
                        exists|j: int| 0 <= j < n && !vis[j],
                        forall|j: int| 0 <= j < i ==> vis[j],
                    decreases n - i,
                {
                    i = i + 1;
                }
                proof {
                    let l = lowest_unvisited(vis);
                    assert(0 <= i < n && !vis[i as int] && forall|j: int| 0 <= j < i ==> vis[j]);
                    let lw = choose|i: int| 0 <= i < vis.len() && !vis[i] && forall|j: int| 0 <= j < i ==> vis[j];
                    assert(lw == i) by {
                        if lw < i {
                            assert(vis[lw]);
                        } else if lw > i {
                            assert(vis[i as int]);
                        }
                    }
                }
                i
            },
        };
        let ghost old_seq = self.sequence@;
        proof {
            assert(!vis[next as int]);
            assert(!old_seq.contains(next));
        }
        let mut placeholder = VisitOrder { visited: vec![true], sequence: vec![0] };
        proof {
            assert(placeholder.sequence@.contains(0usize)) by {
                assert(placeholder.sequence@[0] == 0usize);
            }
        }
        std::mem::swap(self, &mut placeholder);
        let VisitOrder { mut visited, mut sequence } = placeholder;
        visited.set(next, true);
        sequence.push(next);
        proof {
            assert forall|a: int, b: int| 0 <= a < b < sequence@.len() implies sequence@[a] != sequence@[b] by {
                if b < old_seq.len() {
                    assert(old_seq[a] != old_seq[b]);
                } else {
                    assert(old_seq.contains(old_seq[a]));
                }
            }
            assert forall|i: int| 0 <= i < visited@.len() implies (#[trigger] visited@[i] <==> sequence@.contains(i as usize)) by {
                if i == next {
                    assert(sequence@[old_seq.len() as int] == next);
                } else {
                    assert(visited@[i] == vis[i]);
                    if sequence@.contains(i as usize) {
                        let t = choose|t: int| 0 <= t < sequence@.len() && sequence@[t] == i as usize;
                        if t < old_seq.len() {
                            assert(old_seq[t] == i as usize);
                        }
                    }
                    if old_seq.contains(i as usize) {
                        let t = choose|t: int| 0 <= t < old_seq.len() && old_seq[t] == i as usize;
                        assert(sequence@[t] == i as usize);
                    }
                }
            }
        }
        *self = VisitOrder { visited, sequence };
        next
    }

    proof fn lemma_some_unvisited(self)
        requires
            self.inv(),
            self.sequence@.len() < self.visited@.len(),
        ensures
            exists|j: int| 0 <= j < self.visited@.len() && !self.visited@[j],
    {
        if forall|j: int| 0 <= j < self.visited@.len() ==> self.visited@[j] {
            let n = self.visited@.len();
            let t = as_ints(self.sequence@);
            lemma_no_dup_len_bound(self.sequence@, n);
            lemma_int_range(0, n as int);
            assert forall|v: int| set_int_range(0, n as int).contains(v) implies t.to_set().contains(v) by {
                assert(0 <= v < n);
                assert(n == self.visited.len());
                assert((v as usize) as int == v);
                assert(self.visited@[v]);
                assert(self.sequence@.contains(v as usize));
                let k = choose|k: int| 0 <= k < self.sequence@.len() && self.sequence@[k] == v as usize;
                assert(t[k] == v);
            }
            vstd::seq_lib::seq_to_set_is_finite(t);
            vstd::set_lib::lemma_len_subset(set_int_range(0, n as int), t.to_set());
        }
    }

    /// The finished walk: every image exactly once, starting with image 0.
    pub fn into_sequence(self) -> (r: Vec<usize>)
        requires
            self.sequence_view().len() == self.visited_view().len(),
        ensures
            r@ == self.sequence_view(),
            r@.len() == self.visited_view().len(),
            r@.no_duplicates(),
            r@[0] == 0,
            forall|k: int| 0 <= k < r@.len() ==> (#[trigger] r@[k]) < r@.len(),
            forall|i: usize| i < r@.len() ==> #[trigger] r@.contains(i),
    {
        proof {
            use_type_invariant(&self);
            assert forall|i: usize| i < self.sequence@.len() implies #[trigger] self.sequence@.contains(i) by {
                lemma_permutation_covers(self.sequence@, self.visited@.len(), i);
            }
        }
        self.sequence
    }
}

/// The indices as integers.
pub open spec fn as_ints(s: Seq<usize>) -> Seq<int> {
    s.map_values(|x: usize| x as int)
}

proof fn lemma_covers_all(s: Seq<usize>, n: nat)
    requires
        forall|k: int| 0 <= k < s.len() ==> (#[trigger] s[k]) < n,
    ensures
        as_ints(s).to_set().subset_of(set_int_range(0, n as int)),
{
    assert forall|v: int| as_ints(s).to_set().contains(v) implies set_int_range(0, n as int).contains(v) by {
        let t = choose|t: int| 0 <= t < as_ints(s).len() && #[trigger] as_ints(s)[t] == v;
        assert(s[t] < n);
    }
}

proof fn lemma_no_dup_len_bound(s: Seq<usize>, n: nat)
    requires
        s.no_duplicates(),
        forall|k: int| 0 <= k < s.len() ==> (#[trigger] s[k]) < n,
    ensures
        s.len() <= n,
        as_ints(s).to_set().len() == s.len(),
{
    let t = as_ints(s);
    assert(t.no_duplicates());
    t.unique_seq_to_set();
    lemma_covers_all(s, n);
    lemma_int_range(0, n as int);
    vstd::set_lib::lemma_len_subset(t.to_set(), set_int_range(0, n as int));
}

/// A sequence of `n` distinct indices below `n` contains every index below `n`.
pub proof fn lemma_permutation_covers(s: Seq<usize>, n: nat, i: usize)
    requires
        s.no_duplicates(),
        s.len() == n,
        forall|k: int| 0 <= k < s.len() ==> (#[trigger] s[k]) < n,
        i < n,
    ensures
        s.contains(i),
{
    let t = as_ints(s);
    lemma_no_dup_len_bound(s, n);
    lemma_int_range(0, n as int);
    lemma_covers_all(s, n);
    vstd::set_lib::lemma_len_subset(t.to_set(), set_int_range(0, n as int));
    lemma_subset_equality(t.to_set(), set_int_range(0, n as int));
    assert(set_int_range(0, n as int).contains(i as int));
    assert(t.to_set().contains(i as int));
    let k = choose|k: int| 0 <= k < t.len() && t[k] == i as int;
    assert(s[k] == i);
}

/// An image that goes into the video: its path, its size once turned
/// upright (landscape), and whether it had to be turned by 90 degrees.
pub struct ImageInfo {
    pub path: FsPath,
    pub width: u32,
    pub height: u32,
    pub rotate: bool,
}

/// The abstract value of an image record.
pub type ImageView = (Seq<Seq<u8>>, u32, u32, bool);

impl View for ImageInfo {
    type V = ImageView;

    open spec fn view(&self) -> ImageView {
        (self.path@, self.width, self.height, self.rotate)
    }
}

/// The views of a list of images.
pub open spec fn image_views(s: Seq<ImageInfo>) -> Seq<ImageView> {
    s.map_values(|i: ImageInfo| i@)
}

/// The record of an image of `width` x `height` pixels: portrait images are
/// turned by 90 degrees, which swaps the two sides.
pub fn oriented(path: FsPath, width: u32, height: u32) -> (r: ImageInfo)
    ensures
        r.path@ == path@,
        r.rotate == (width < height),
        r.width == (if width < height { height } else { width }),
        r.height == (if width < height { width } else { height }),
        r.width >= r.height,
{
    let rotate = width < height;
    if rotate {
        ImageInfo { path, width: height, height: width, rotate }
    } else {
        ImageInfo { path, width, height, rotate }
    }
}

/// The smallest canvas every image fits on: the largest width and the
/// largest height (0 x 0 for no images).
pub fn canvas_size(images: &Vec<ImageInfo>) -> (r: (u32, u32))
    ensures
        forall|k: int| 0 <= k < images@.len() ==> (#[trigger] images@[k]).width <= r.0 && images@[k].height <= r.1,
        r.0 == 0 || exists|k: int| 0 <= k < images@.len() && (#[trigger] images@[k]).width == r.0,
        r.1 == 0 || exists|k: int| 0 <= k < images@.len() && (#[trigger] images@[k]).height == r.1,
{
    let mut w: u32 = 0;
    let mut h: u32 = 0;
    let mut i: usize = 0;
    while i < images.len()
        invariant
            i <= images@.len(),
            forall|k: int| 0 <= k < i ==> (#[trigger] images@[k]).width <= w && images@[k].height <= h,
            w == 0 || exists|k: int| 0 <= k < i && (#[trigger] images@[k]).width == w,
            h == 0 || exists|k: int| 0 <= k < i && (#[trigger] images@[k]).height == h,
        decreases images@.len() - i,
    {
        let img = &images[i];
        if img.width > w {
            w = img.width;
        }
        if img.height > h {
            h = img.height;
        }
        i = i + 1;
    }
    (w, h)
}

/// A copy of an image record.
pub fn copy_image(i: &ImageInfo) -> (r: ImageInfo)
    ensures
        r@ == i@,
{
    ImageInfo { path: i.path.duplicate(), width: i.width, height: i.height, rotate: i.rotate }
}

/// The images in the order of the walk: position `k` holds image `order[k]`.
pub fn reorder(images: &Vec<ImageInfo>, order: &Vec<usize>) -> (r: Vec<ImageInfo>)
    requires
        forall|k: int| 0 <= k < order@.len() ==> (#[trigger] order@[k]) < images@.len(),
    ensures
        r@.len() == order@.len(),
        forall|k: int| 0 <= k < order@.len() ==> (#[trigger] r@[k])@ == images@[order@[k] as int]@,
{
    let mut r: Vec<ImageInfo> = Vec::new();
    let mut k: usize = 0;
    while k < order.len()
        invariant
            k <= order@.len(),
            r@.len() == k,
            forall|t: int| 0 <= t < order@.len() ==> (#[trigger] order@[t]) < images@.len(),
            forall|t: int| 0 <= t < k ==> (#[trigger] r@[t])@ == images@[order@[t] as int]@,
        decreases order@.len() - k,
    {
        r.push(copy_image(&images[order[k]]));
        k = k + 1;
    }
    r
}

} // verus!
