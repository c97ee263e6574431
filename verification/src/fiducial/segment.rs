//! Connected components and boundary clustering: the second stage of the
//! detector.
//!
//! A disjoint-set forest labels every maximal black and white region of the
//! binary image. Each pair of adjacent pixels with opposite labels is a point
//! on the interface between two regions, and the points are grouped by the pair
//! of regions they separate.

use vstd::prelude::*;

use crate::count::{how_many, lemma_how_many, lemma_same_count};
use crate::fiducial::threshold::{is_label, Binary, BLACK, SKIP, WHITE};
use crate::raster::{lemma_coordinates, lemma_linear_index, Raster};

verus! {

/// How many elements of `labels` are `r`.
pub open spec fn class_size(labels: Seq<int>, r: int) -> nat
    decreases labels.len(),
{
    if labels.len() == 0 {
        0
    } else {
        class_size(labels.drop_last(), r) + if labels.last() == r {
            1nat
        } else {
            0nat
        }
    }
}

/// `labels` with the classes of `a` and `b` merged.
///
/// The representative of the larger class stays, and on a tie that of `a`.
pub open spec fn merged(labels: Seq<int>, a: int, b: int) -> Seq<int> {
    let ra = labels[a];
    let rb = labels[b];
    if ra == rb {
        labels
    } else if class_size(labels, ra) < class_size(labels, rb) {
        relabelled(labels, ra, rb)
    } else {
        relabelled(labels, rb, ra)
    }
}

/// `labels` with every `from` replaced by `to`.
pub open spec fn relabelled(labels: Seq<int>, from: int, to: int) -> Seq<int> {
    labels.map_values(
        |l: int|
            if l == from {
                to
            } else {
                l
            },
    )
}

/// Every label is an element that represents itself.
pub open spec fn is_labelling(labels: Seq<int>) -> bool {
    forall|i: int|
        #![trigger labels[i]]
        0 <= i < labels.len() ==> 0 <= labels[i] < labels.len() && labels[labels[i]] == labels[i]
}

/// Every parent link stays in the forest and leads to a larger size.
spec fn links_rise(parent: Seq<u32>, size: Seq<u32>) -> bool {
    &&& parent.len() == size.len()
    &&& forall|i: int| 0 <= i < parent.len() ==> 0 <= #[trigger] parent[i] < parent.len()
    &&& forall|i: int| 0 <= i < parent.len() ==> #[trigger] size[i] <= parent.len()
    &&& forall|i: int|
        #![trigger parent[i]]
        0 <= i < parent.len() && parent[i] != i ==> size[i] < size[parent[i] as int]
}

/// The end of the chain of parents that starts at `i`.
spec fn root(parent: Seq<u32>, size: Seq<u32>, i: int) -> int
    decreases parent.len() - size[i],
    when links_rise(parent, size) && 0 <= i < parent.len()
{
    if parent[i] == i {
        i
    } else {
        root(parent, size, parent[i] as int)
    }
}

/// The root of every element.
spec fn roots(parent: Seq<u32>, size: Seq<u32>) -> Seq<int> {
    Seq::new(parent.len(), |i: int| root(parent, size, i))
}

/// Disjoint-set forest with union by size and path halving.
#[derive(Debug, Clone)]
pub struct UnionFind {
    parent: Vec<u32>,
    size: Vec<u32>,
}

impl View for UnionFind {
    type V = Seq<int>;

    /// The representative of every element.
    closed spec fn view(&self) -> Seq<int> {
        roots(self.parent@, self.size@)
    }
}

/// A root is in the forest and is its own root.
proof fn lemma_root(parent: Seq<u32>, size: Seq<u32>, i: int)
    requires
        links_rise(parent, size),
        0 <= i < parent.len(),
    ensures
        0 <= root(parent, size, i) < parent.len(),
        parent[root(parent, size, i)] == root(parent, size, i),
        root(parent, size, root(parent, size, i)) == root(parent, size, i),
    decreases parent.len() - size[i],
{
    if parent[i] != i {
        lemma_root(parent, size, parent[i] as int);
    }
}

/// Pointing an element at its grandparent moves no root.
proof fn lemma_halving(parent: Seq<u32>, size: Seq<u32>, i: int, j: int)
    requires
        links_rise(parent, size),
        0 <= i < parent.len(),
        0 <= j < parent.len(),
        parent[i] != i,
    ensures
        links_rise(parent.update(i, parent[parent[i] as int]), size),
        root(parent.update(i, parent[parent[i] as int]), size, j) == root(parent, size, j),
    decreases parent.len() - size[j],
{
    let grand = parent[parent[i] as int];
    let halved = parent.update(i, grand);
    assert(size[i] < size[parent[i] as int]);
    assert(size[parent[i] as int] <= size[grand as int]);
    assert(links_rise(halved, size));
    if j == i {
        assert(halved[i] == grand);
        lemma_halving(parent, size, i, grand as int);
        assert(root(halved, size, i) == root(halved, size, grand as int));
        assert(root(parent, size, i) == root(parent, size, parent[i] as int));
        assert(root(parent, size, parent[i] as int) == root(parent, size, grand as int));
    } else if parent[j] != j {
        lemma_halving(parent, size, i, parent[j] as int);
        assert(root(halved, size, j) == root(halved, size, parent[j] as int));
    } else {
        assert(halved[j] == j);
    }
}

/// Hanging root `lose` under root `keep` moves exactly the elements of `lose`.
proof fn lemma_hanging(parent: Seq<u32>, size: Seq<u32>, keep: int, lose: int, total: u32, j: int)
    requires
        links_rise(parent, size),
        0 <= keep < parent.len(),
        0 <= lose < parent.len(),
        keep != lose,
        parent[keep] == keep,
        parent[lose] == lose,
        size[keep] <= total <= parent.len(),
        size[lose] < total,
        keep <= u32::MAX,
        0 <= j < parent.len(),
    ensures
        links_rise(parent.update(lose, keep as u32), size.update(keep, total)),
        root(parent.update(lose, keep as u32), size.update(keep, total), j) == (if root(
            parent,
            size,
            j,
        ) == lose {
            keep
        } else {
            root(parent, size, j)
        }),
    decreases parent.len() - size[j],
{
    let p = parent.update(lose, keep as u32);
    let s = size.update(keep, total);
    assert forall|i: int| #![trigger p[i]] 0 <= i < p.len() && p[i] != i implies s[i] < s[
        p[i] as int] by {
        if i != lose {
            assert(parent[i] == p[i]);
        }
    }
    assert(links_rise(p, s));
    if j == lose {
        assert(p[lose] == keep && p[keep] == keep);
        assert(root(p, s, lose) == root(p, s, keep));
    } else if parent[j] != j {
        assert(p[j] == parent[j]);
        lemma_hanging(parent, size, keep, lose, total, parent[j] as int);
        assert(root(p, s, j) == root(p, s, parent[j] as int));
    } else {
        assert(p[j] == j);
    }
}

/// No class is larger than the whole, nor are two distinct ones together.
proof fn lemma_class_size_bounds(labels: Seq<int>, r: int, q: int)
    ensures
        class_size(labels, r) <= labels.len(),
        r != q ==> class_size(labels, r) + class_size(labels, q) <= labels.len(),
    decreases labels.len(),
{
    if labels.len() > 0 {
        lemma_class_size_bounds(labels.drop_last(), r, q);
    }
}

/// A represented class is not empty.
proof fn lemma_class_size_positive(labels: Seq<int>, i: int)
    requires
        0 <= i < labels.len(),
    ensures
        class_size(labels, labels[i]) >= 1,
    decreases labels.len(),
{
    if i < labels.len() - 1 {
        lemma_class_size_positive(labels.drop_last(), i);
    }
}

/// Relabelling moves a class whole into another.
proof fn lemma_relabelled_sizes(labels: Seq<int>, from: int, to: int, r: int)
    requires
        from != to,
    ensures
        class_size(relabelled(labels, from, to), r) == (if r == to {
            class_size(labels, to) + class_size(labels, from)
        } else if r == from {
            0
        } else {
            class_size(labels, r)
        }),
    decreases labels.len(),
{
    if labels.len() > 0 {
        lemma_relabelled_sizes(labels.drop_last(), from, to, r);
        assert(relabelled(labels, from, to).drop_last() =~= relabelled(
            labels.drop_last(),
            from,
            to,
        ));
    } else {
        assert(relabelled(labels, from, to) =~= labels);
    }
}

/// With distinct labels every class has one element.
proof fn lemma_singletons(n: nat, r: int)
    ensures
        class_size(Seq::new(n, |i: int| i), r) == (if 0 <= r < n {
            1nat
        } else {
            0nat
        }),
    decreases n,
{
    if n > 0 {
        lemma_singletons((n - 1) as nat, r);
        assert(Seq::new(n, |i: int| i).drop_last() =~= Seq::new((n - 1) as nat, |i: int| i));
    }
}

impl UnionFind {
    /// The forest is acyclic and every root knows the size of its class.
    pub closed spec fn wf(&self) -> bool {
        &&& self.parent@.len() <= u32::MAX
        &&& links_rise(self.parent@, self.size@)
        &&& forall|r: int|
            #![trigger self.parent@[r]]
            0 <= r < self.parent@.len() && self.parent@[r] == r ==> self.size@[r] == class_size(
                self@,
                r,
            )
    }

    /// Representatives represent themselves.
    proof fn lemma_is_labelling(&self)
        requires
            self.wf(),
        ensures
            is_labelling(self@),
            self@.len() <= u32::MAX,
    {
        assert forall|i: int| #![trigger self@[i]] 0 <= i < self@.len() implies 0 <= self@[i]
            < self@.len() && self@[self@[i]] == self@[i] by {
            lemma_root(self.parent@, self.size@, i);
        }
    }

    /// `n` singleton sets.
    pub fn new(n: usize) -> (uf: UnionFind)
        requires
            n <= u32::MAX,
        ensures
            uf.wf(),
            uf@ == Seq::new(n as nat, |i: int| i),
    {
        let mut parent: Vec<u32> = Vec::new();
        let mut i: usize = 0;
        while i < n
            invariant
                i <= n <= u32::MAX,
                parent@.len() == i,
                forall|k: int| 0 <= k < i ==> #[trigger] parent@[k] == k,
            decreases n - i,
        {
            parent.push(i as u32);
            i = i + 1;
        }
        let uf = UnionFind { parent, size: vec![1u32; n] };
        proof {
            assert(links_rise(uf.parent@, uf.size@));
            assert(uf@ =~= Seq::new(n as nat, |i: int| i));
            assert forall|r: int| 0 <= r < n implies class_size(uf@, r) == 1 by {
                lemma_singletons(n as nat, r);
            }
        }
        uf
    }

    /// Representative of `i`'s set.
    pub fn find(&mut self, i: u32) -> (r: u32)
        requires
            old(self).wf(),
            i < old(self)@.len(),
        ensures
            final(self).wf(),
            final(self)@ == old(self)@,
            r == old(self)@[i as int],
            r < old(self)@.len(),
            old(self)@[r as int] == r,
    {
        let mut at: u32 = i;
        let ghost labels = self@;
        while self.parent[at as usize] != at
            invariant
                self.wf(),
                self@ == labels,
                at < labels.len(),
                i < labels.len(),
                labels[at as int] == labels[i as int],
            decreases self.parent@.len() - self.size@[at as int],
        {
            let up: u32 = self.parent[at as usize];
            let grand: u32 = self.parent[up as usize];
            let ghost before = self.parent@;
            self.parent[at as usize] = grand;
            proof {
                assert forall|j: int| 0 <= j < before.len() implies root(
                    self.parent@,
                    self.size@,
                    j,
                ) == root(before, self.size@, j) by {
                    lemma_halving(before, self.size@, at as int, j);
                }
                lemma_halving(before, self.size@, at as int, at as int);
                assert(self@ =~= labels);
                assert forall|r: int|
                    #![trigger self.parent@[r]]
                    0 <= r < self.parent@.len() && self.parent@[r] == r implies self.size@[r]
                    == class_size(self@, r) by {
                    if r == at {
                        assert(self.size@[at as int] < self.size@[up as int]);
                        assert(self.size@[up as int] <= self.size@[grand as int]);
                    } else {
                        assert(before[r] == r);
                    }
                }
                assert(root(before, self.size@, at as int) == root(before, self.size@, up as int));
                assert(root(before, self.size@, up as int) == root(
                    before,
                    self.size@,
                    grand as int,
                ));
                assert(self.size@[at as int] < self.size@[up as int]);
                assert(self.size@[up as int] <= self.size@[grand as int]);
            }
            at = grand;
        }
        proof {
            self.lemma_is_labelling();
            assert(labels[labels[i as int]] == labels[i as int]);
        }
        at
    }

    /// Merge the sets containing `a` and `b`.
    pub fn union(&mut self, a: u32, b: u32)
        requires
            old(self).wf(),
            a < old(self)@.len(),
            b < old(self)@.len(),
        ensures
            final(self).wf(),
            final(self)@ == merged(old(self)@, a as int, b as int),
    {
        let ghost labels = self@;
        let ra: u32 = self.find(a);
        let rb: u32 = self.find(b);
        if ra == rb {
            return ;
        }
        proof {
            lemma_root(self.parent@, self.size@, a as int);
            lemma_root(self.parent@, self.size@, b as int);
            assert(self.parent@[ra as int] == ra && self.parent@[rb as int] == rb);
            lemma_class_size_bounds(labels, ra as int, rb as int);
            lemma_class_size_positive(labels, a as int);
            lemma_class_size_positive(labels, b as int);
        }
        let smaller: bool = self.size[ra as usize] < self.size[rb as usize];
        let keep: u32 = if smaller {
            rb
        } else {
            ra
        };
        let lose: u32 = if smaller {
            ra
        } else {
            rb
        };
        let total: u32 = self.size[keep as usize] + self.size[lose as usize];
        let ghost p = self.parent@;
        let ghost s = self.size@;
        self.parent[lose as usize] = keep;
        self.size[keep as usize] = total;
        proof {
            assert forall|j: int| 0 <= j < p.len() implies root(self.parent@, self.size@, j) == (
            if labels[j] == lose {
                keep as int
            } else {
                labels[j]
            }) by {
                lemma_hanging(p, s, keep as int, lose as int, total, j);
            }
            lemma_hanging(p, s, keep as int, lose as int, total, a as int);
            assert(self@ =~= relabelled(labels, lose as int, keep as int));
            assert forall|r: int|
                #![trigger self.parent@[r]]
                0 <= r < self.parent@.len() && self.parent@[r] == r implies self.size@[r]
                == class_size(self@, r) by {
                lemma_relabelled_sizes(labels, lose as int, keep as int, r);
                assert(r != lose);
                assert(p[r] == r);
            }
        }
    }

    /// Cardinality of `i`'s set.
    pub fn set_size(&mut self, i: u32) -> (n: u32)
        requires
            old(self).wf(),
            i < old(self)@.len(),
        ensures
            final(self).wf(),
            final(self)@ == old(self)@,
            n == class_size(old(self)@, old(self)@[i as int]),
    {
        let r: u32 = self.find(i);
        proof {
            lemma_root(self.parent@, self.size@, i as int);
        }
        self.size[r as usize]
    }
}

/// A merge joins exactly the two classes it names: elements are together
/// afterwards when they were before, or when one was with `a` and the other
/// with `b`.
pub proof fn law_merge_joins_exactly_two_classes(labels: Seq<int>, a: int, b: int, i: int, j: int)
    requires
        0 <= a < labels.len(),
        0 <= b < labels.len(),
        0 <= i < labels.len(),
        0 <= j < labels.len(),
    ensures
        merged(labels, a, b).len() == labels.len(),
        merged(labels, a, b)[i] == merged(labels, a, b)[j] <==> {
            ||| labels[i] == labels[j]
            ||| labels[i] == labels[a] && labels[j] == labels[b]
            ||| labels[i] == labels[b] && labels[j] == labels[a]
        },
{
}

/// A merged class has as many elements as the two classes had together, and
/// every other class keeps its own.
pub proof fn law_merge_adds_sizes(labels: Seq<int>, a: int, b: int, i: int)
    requires
        is_labelling(labels),
        0 <= a < labels.len(),
        0 <= b < labels.len(),
        0 <= i < labels.len(),
    ensures
        ({
            let m = merged(labels, a, b);
            class_size(m, m[i]) == (if labels[a] == labels[b] {
                class_size(labels, labels[i])
            } else if labels[i] == labels[a] || labels[i] == labels[b] {
                class_size(labels, labels[a]) + class_size(labels, labels[b])
            } else {
                class_size(labels, labels[i])
            })
        }),
{
    let m = merged(labels, a, b);
    if labels[a] != labels[b] {
        lemma_relabelled_sizes(labels, labels[a], labels[b], m[i]);
        lemma_relabelled_sizes(labels, labels[b], labels[a], m[i]);
    }
}

/// Merging what is merged changes nothing, in either order of the arguments.
pub proof fn law_merge_is_idempotent(labels: Seq<int>, a: int, b: int)
    requires
        0 <= a < labels.len(),
        0 <= b < labels.len(),
    ensures
        merged(merged(labels, a, b), a, b) == merged(labels, a, b),
        merged(merged(labels, a, b), b, a) == merged(labels, a, b),
{
}

/// Label maps stay label maps under merging.
proof fn lemma_merged_is_labelling(labels: Seq<int>, a: int, b: int)
    requires
        is_labelling(labels),
        0 <= a < labels.len(),
        0 <= b < labels.len(),
    ensures
        is_labelling(merged(labels, a, b)),
        merged(labels, a, b).len() == labels.len(),
{
    let m = merged(labels, a, b);
    assert forall|i: int| #![trigger m[i]] 0 <= i < m.len() implies 0 <= m[i] < m.len() && m[m[i]]
        == m[i] by {
        assert(labels[labels[a]] == labels[a]);
        assert(labels[labels[b]] == labels[b]);
        assert(labels[labels[i]] == labels[i]);
    }
}

/// Pixel `i` and its right neighbour hold the same label, and not [`SKIP`].
pub open spec fn joins_right(image: Raster, i: int) -> bool {
    &&& image.data[i] != SKIP
    &&& i % image.width as int + 1 < image.width
    &&& image.data[i + 1] == image.data[i]
}

/// Pixel `i` and its lower neighbour hold the same label, and not [`SKIP`].
pub open spec fn joins_down(image: Raster, i: int) -> bool {
    &&& image.data[i] != SKIP
    &&& i / image.width as int + 1 < image.height
    &&& image.data[i + image.width] == image.data[i]
}

/// `labels` once pixel `i` has been joined to its right and lower neighbours.
pub open spec fn joined_at(image: Raster, labels: Seq<int>, i: int) -> Seq<int> {
    let right = if joins_right(image, i) {
        merged(labels, i, i + 1)
    } else {
        labels
    };
    if joins_down(image, i) {
        merged(right, i, i + image.width)
    } else {
        right
    }
}

/// The labels once the first `k` pixels have been joined, in raster order.
pub open spec fn labels_after(image: Raster, k: nat) -> Seq<int>
    decreases k,
{
    if k == 0 {
        Seq::new(image.data.len(), |i: int| i)
    } else {
        joined_at(image, labels_after(image, (k - 1) as nat), k - 1)
    }
}

/// The component of every pixel, named by one of its pixels.
pub open spec fn component_labels(image: Raster) -> Seq<int> {
    labels_after(image, image.data.len())
}

/// Pixels `i` and `j` are neighbours with the same label, and not [`SKIP`].
pub open spec fn linked(image: Raster, i: int, j: int) -> bool {
    ||| j == i + 1 && joins_right(image, i)
    ||| j == i + image.width && joins_down(image, i)
    ||| i == j + 1 && joins_right(image, j)
    ||| i == j + image.width && joins_down(image, j)
}

/// `path` is a walk over linked pixels.
pub open spec fn is_walk(image: Raster, path: Seq<int>) -> bool {
    &&& path.len() >= 1
    &&& forall|k: int| 0 <= k < path.len() ==> 0 <= #[trigger] path[k] < image.data.len()
    &&& forall|k: int, l: int|
        #![trigger path[k], path[l]]
        0 <= k && l == k + 1 && l < path.len() ==> linked(image, path[k], path[l])
}

/// Some walk over linked pixels leads from `i` to `j`.
pub open spec fn connected(image: Raster, i: int, j: int) -> bool {
    exists|path: Seq<int>| #[trigger] is_walk(image, path) && path[0] == i && path.last() == j
}

proof fn lemma_connected_reverse(image: Raster, i: int, j: int)
    requires
        connected(image, i, j),
    ensures
        connected(image, j, i),
{
    let path = choose|path: Seq<int>| #[trigger]
        is_walk(image, path) && path[0] == i && path.last() == j;
    let back = Seq::new(path.len(), |k: int| path[path.len() - 1 - k]);
    assert(is_walk(image, back)) by {
        assert forall|k: int, l: int|
            #![trigger back[k], back[l]]
            0 <= k && l == k + 1 && l < back.len() implies linked(image, back[k], back[l]) by {
            let a = path.len() - 1 - l;
            let b = path.len() - 1 - k;
            assert(linked(image, path[a], path[b]));
        }
    }
    assert(back[0] == j && back.last() == i);
}

proof fn lemma_connected_join(image: Raster, i: int, j: int, k: int)
    requires
        connected(image, i, j),
        connected(image, j, k),
    ensures
        connected(image, i, k),
{
    let p = choose|path: Seq<int>| #[trigger]
        is_walk(image, path) && path[0] == i && path.last() == j;
    let q = choose|path: Seq<int>| #[trigger]
        is_walk(image, path) && path[0] == j && path.last() == k;
    let both = p + q.subrange(1, q.len() as int);
    assert(is_walk(image, both)) by {
        assert forall|a: int, b: int|
            #![trigger both[a], both[b]]
            0 <= a && b == a + 1 && b < both.len() implies linked(image, both[a], both[b]) by {
            if b < p.len() {
                assert(linked(image, p[a], p[b]));
            } else {
                let c = a - p.len() + 1;
                let d = b - p.len() + 1;
                assert(both[b] == q[d]);
                if a < p.len() {
                    assert(both[a] == j && q[0] == j);
                    assert(linked(image, q[0], q[1]));
                } else {
                    assert(both[a] == q[c]);
                    assert(linked(image, q[c], q[d]));
                }
            }
        }
    }
    assert(both[0] == i);
    assert(both.last() == k);
}

proof fn lemma_connected_link(image: Raster, i: int, j: int)
    requires
        0 <= i < image.data.len(),
        0 <= j < image.data.len(),
        i == j || linked(image, i, j),
    ensures
        connected(image, i, j),
{
    if i == j {
        let path = seq![i];
        assert(is_walk(image, path));
        assert(path.last() == j);
    } else {
        let path = seq![i, j];
        assert(is_walk(image, path));
        assert(path.last() == j);
    }
}

/// The neighbours a pixel is joined to are in the image.
proof fn lemma_joins_inside(image: Raster, i: int)
    requires
        image.wf(),
        0 <= i < image.data.len(),
    ensures
        joins_right(image, i) ==> i + 1 < image.data.len(),
        joins_down(image, i) ==> i + image.width < image.data.len(),
{
    let w = image.width as int;
    let h = image.height as int;
    lemma_coordinates(i, w, h);
    if i % w + 1 < w {
        lemma_linear_index(i % w + 1, i / w, w, h);
    }
    if i / w + 1 < h {
        lemma_linear_index(i % w, i / w + 1, w, h);
        assert((i / w + 1) * w == (i / w) * w + w) by (nonlinear_arith);
    }
}

/// Elements with one label are connected.
spec fn labels_sound(image: Raster, labels: Seq<int>) -> bool {
    forall|i: int, j: int|
        #![trigger labels[i], labels[j]]
        0 <= i < labels.len() && 0 <= j < labels.len() && labels[i] == labels[j] ==> connected(
            image,
            i,
            j,
        )
}

proof fn lemma_merge_sound(image: Raster, labels: Seq<int>, a: int, b: int)
    requires
        labels_sound(image, labels),
        labels.len() == image.data.len(),
        0 <= a < labels.len(),
        0 <= b < labels.len(),
        linked(image, a, b),
    ensures
        labels_sound(image, merged(labels, a, b)),
        merged(labels, a, b).len() == labels.len(),
{
    let m = merged(labels, a, b);
    lemma_connected_link(image, a, b);
    lemma_connected_reverse(image, a, b);
    assert forall|i: int, j: int|
        #![trigger m[i], m[j]]
        0 <= i < m.len() && 0 <= j < m.len() && m[i] == m[j] implies connected(image, i, j) by {
        law_merge_joins_exactly_two_classes(labels, a, b, i, j);
        if labels[i] == labels[j] {
        } else if labels[i] == labels[a] && labels[j] == labels[b] {
            lemma_connected_join(image, i, a, b);
            lemma_connected_join(image, i, b, j);
        } else {
            lemma_connected_join(image, i, b, a);
            lemma_connected_join(image, i, a, j);
        }
    }
}

proof fn lemma_labels_after(image: Raster, k: nat)
    requires
        image.wf(),
        k <= image.data.len(),
    ensures
        labels_after(image, k).len() == image.data.len(),
        is_labelling(labels_after(image, k)),
        labels_sound(image, labels_after(image, k)),
        forall|i: int|
            #![trigger image.data[i]]
            0 <= i < k && joins_right(image, i) ==> labels_after(image, k)[i] == labels_after(
                image,
                k,
            )[i + 1],
        forall|i: int|
            #![trigger image.data[i]]
            0 <= i < k && joins_down(image, i) ==> labels_after(image, k)[i] == labels_after(
                image,
                k,
            )[i + image.width],
    decreases k,
{
    let labels = labels_after(image, k);
    if k == 0 {
        assert forall|i: int, j: int|
            #![trigger labels[i], labels[j]]
            0 <= i < labels.len() && 0 <= j < labels.len() && labels[i]
                == labels[j] implies connected(image, i, j) by {
            lemma_connected_link(image, i, j);
        }
    } else {
        let p = k - 1;
        lemma_labels_after(image, p as nat);
        let before = labels_after(image, p as nat);
        lemma_joins_inside(image, p);
        let right = if joins_right(image, p) {
            merged(before, p, p + 1)
        } else {
            before
        };
        if joins_right(image, p) {
            lemma_merge_sound(image, before, p, p + 1);
            lemma_merged_is_labelling(before, p, p + 1);
            law_merge_joins_exactly_two_classes(before, p, p + 1, p, p + 1);
        }
        if joins_down(image, p) {
            lemma_merge_sound(image, right, p, p + image.width);
            lemma_merged_is_labelling(right, p, p + image.width);
            law_merge_joins_exactly_two_classes(right, p, p + image.width, p, p + image.width);
        }
        assert forall|i: int, j: int|
            0 <= i < before.len() && 0 <= j < before.len() && before[i] == before[j] implies #[trigger] labels[i]
            == #[trigger] labels[j] by {
        }
        assert forall|i: int|
            #![trigger image.data[i]]
            0 <= i < k && joins_right(image, i) implies labels[i] == labels[i + 1] by {
            lemma_joins_inside(image, i);
            if i < p {
                assert(before[i] == before[i + 1]);
            } else {
                assert(right[i] == right[i + 1]);
            }
        }
        assert forall|i: int|
            #![trigger image.data[i]]
            0 <= i < k && joins_down(image, i) implies labels[i] == labels[i + image.width] by {
            lemma_joins_inside(image, i);
            if i < p {
                assert(before[i] == before[i + image.width]);
            }
        }
    }
}

/// Components are exactly the connected regions: two pixels share a component
/// when a walk over equally labelled neighbours joins them, and only then.
pub proof fn law_components_are_connected_regions(image: Raster, i: int, j: int)
    requires
        image.wf(),
        0 <= i < image.data.len(),
        0 <= j < image.data.len(),
    ensures
        component_labels(image)[i] == component_labels(image)[j] <==> connected(image, i, j),
{
    let labels = component_labels(image);
    lemma_labels_after(image, image.data.len());
    if connected(image, i, j) {
        let path = choose|path: Seq<int>| #[trigger]
            is_walk(image, path) && path[0] == i && path.last() == j;
        lemma_walk_keeps_label(image, path, path.len() - 1);
    }
}

proof fn lemma_walk_keeps_label(image: Raster, path: Seq<int>, k: int)
    requires
        image.wf(),
        is_walk(image, path),
        0 <= k < path.len(),
    ensures
        component_labels(image)[path[k]] == component_labels(image)[path[0]],
    decreases k,
{
    if k > 0 {
        lemma_walk_keeps_label(image, path, k - 1);
        lemma_labels_after(image, image.data.len());
        let a = path[k - 1];
        let b = path[k];
        assert(linked(image, a, b));
        assert(0 <= image.data[a] && 0 <= image.data[b]);
    }
}

/// A skipped pixel is a component of its own.
pub proof fn law_skipped_pixels_join_nothing(image: Raster, i: int, j: int)
    requires
        image.wf(),
        0 <= i < image.data.len(),
        0 <= j < image.data.len(),
        image.data[i] == SKIP,
        component_labels(image)[i] == component_labels(image)[j],
    ensures
        i == j,
{
    law_components_are_connected_regions(image, i, j);
    let path = choose|path: Seq<int>| #[trigger]
        is_walk(image, path) && path[0] == i && path.last() == j;
    if path.len() > 1 {
        assert(linked(image, path[0], path[1]));
    }
}

/// A component never mixes labels.
pub proof fn law_components_hold_one_label(image: Raster, i: int, j: int)
    requires
        image.wf(),
        0 <= i < image.data.len(),
        0 <= j < image.data.len(),
        component_labels(image)[i] == component_labels(image)[j],
    ensures
        image.data[i] == image.data[j],
{
    law_components_are_connected_regions(image, i, j);
    let path = choose|path: Seq<int>| #[trigger]
        is_walk(image, path) && path[0] == i && path.last() == j;
    lemma_walk_keeps_byte(image, path, path.len() - 1);
}

proof fn lemma_walk_keeps_byte(image: Raster, path: Seq<int>, k: int)
    requires
        is_walk(image, path),
        0 <= k < path.len(),
    ensures
        image.data[path[k]] == image.data[path[0]],
    decreases k,
{
    if k > 0 {
        lemma_walk_keeps_byte(image, path, k - 1);
        assert(linked(image, path[k - 1], path[k]));
    }
}

/// Label maximal 4-connected runs of equal binarisation.
///
/// [`SKIP`] pixels join nothing: a flat region is no evidence of a component.
pub fn connected_components(binary: &Binary) -> (uf: UnionFind)
    requires
        binary.wf(),
        binary@.data.len() <= u32::MAX,
    ensures
        uf.wf(),
        uf@ == component_labels(binary@),
{
    let w: u32 = binary.width();
    let h: u32 = binary.height();
    let n: usize = binary.data().len();
    let ghost image = binary@;
    let mut uf = UnionFind::new(n);
    let mut i: usize = 0;
    assert(uf@ =~= labels_after(image, 0));
    while i < n
        invariant
            binary.wf(),
            image == binary@,
            w == image.width,
            h == image.height,
            n == image.data.len(),
            n <= u32::MAX,
            i <= n,
            uf.wf(),
            uf@ == labels_after(image, i as nat),
        decreases n - i,
    {
        proof {
            lemma_coordinates(i as int, w as int, h as int);
            lemma_labels_after(image, i as nat);
            lemma_joins_inside(image, i as int);
            let x = i as int % w as int;
            let y = i as int / w as int;
            if x + 1 < w {
                lemma_linear_index(x + 1, y, w as int, h as int);
            }
            if y + 1 < h {
                lemma_linear_index(x, y + 1, w as int, h as int);
                assert((y + 1) * w == y * w + w) by (nonlinear_arith);
            }
        }
        let x: u32 = (i % (w as usize)) as u32;
        let y: u32 = (i / (w as usize)) as u32;
        let v: u8 = binary.at(x, y);
        if v != SKIP {
            let at: u32 = i as u32;
            if x + 1 < w && binary.at(x + 1, y) == v {
                uf.union(at, at + 1);
            }
            if y + 1 < h && binary.at(x, y + 1) == v {
                uf.union(at, at + w);
            }
        }
        i = i + 1;
    }
    uf
}

/// A point half-way between two neighbouring pixels, in half pixels: the point
/// `(3.5, 2)` is `(7, 4)`.
#[derive(Debug, Clone, Copy, PartialEq, Eq, Structural)]
pub struct HalfPoint {
    pub x2: u64,
    pub y2: u64,
}

/// Boundary points separating one black region from one white region.
#[derive(Debug)]
pub struct Cluster {
    /// `(black region root, white region root)`: the interface identity.
    pub key: (u32, u32),
    /// Points on the interface, in raster order.
    pub points: Vec<HalfPoint>,
}

impl Clone for Cluster {
    fn clone(&self) -> (copy: Cluster)
        ensures
            copy.key == self.key,
            copy.points@ == self.points@,
    {
        let points: Vec<HalfPoint> = self.points.clone();
        assert(points@ =~= self.points@);
        Cluster { key: self.key, points }
    }
}

/// Whether key `a` comes before key `b`: by black region, then by white region.
pub open spec fn key_before(a: (int, int), b: (int, int)) -> bool {
    a.0 < b.0 || (a.0 == b.0 && a.1 < b.1)
}

impl Cluster {
    /// The interface identity.
    pub open spec fn interface(&self) -> (int, int) {
        (self.key.0 as int, self.key.1 as int)
    }
}

/// The interface between neighbouring pixels `i` and `j` of opposite labels.
pub open spec fn interface_of(image: Raster, labels: Seq<int>, i: int, j: int) -> (int, int) {
    if image.data[i] == BLACK {
        (labels[i], labels[j])
    } else {
        (labels[j], labels[i])
    }
}

/// Pixels `i` and `j` hold opposite labels, and neither is [`SKIP`].
pub open spec fn opposed(image: Raster, i: int, j: int) -> bool {
    image.data[i] != SKIP && image.data[j] != SKIP && image.data[i] != image.data[j]
}

/// The interface crossings from pixel `i` to its right and lower neighbours.
pub open spec fn crossings_at(image: Raster, labels: Seq<int>, i: int) -> Seq<
    ((int, int), HalfPoint),
> {
    let w = image.width as int;
    let x = i % w;
    let y = i / w;
    let right = if x + 1 < w && opposed(image, i, i + 1) {
        seq![
            (
                interface_of(image, labels, i, i + 1),
                HalfPoint { x2: (2 * x + 1) as u64, y2: (2 * y) as u64 },
            ),
        ]
    } else {
        seq![]
    };
    let down = if y + 1 < image.height && opposed(image, i, i + w) {
        seq![
            (
                interface_of(image, labels, i, i + w),
                HalfPoint { x2: (2 * x) as u64, y2: (2 * y + 1) as u64 },
            ),
        ]
    } else {
        seq![]
    };
    right + down
}

/// The interface crossings from the first `k` pixels, in raster order.
pub open spec fn crossings_before(image: Raster, labels: Seq<int>, k: nat) -> Seq<
    ((int, int), HalfPoint),
>
    decreases k,
{
    if k == 0 {
        seq![]
    } else {
        crossings_before(image, labels, (k - 1) as nat) + crossings_at(image, labels, k - 1)
    }
}

/// Every interface crossing of the image, in raster order.
pub open spec fn crossings(image: Raster, labels: Seq<int>) -> Seq<((int, int), HalfPoint)> {
    crossings_before(image, labels, image.data.len())
}

/// The points of the crossings on interface `key`, in order.
pub open spec fn points_on(all: Seq<((int, int), HalfPoint)>, key: (int, int)) -> Seq<HalfPoint>
    decreases all.len(),
{
    if all.len() == 0 {
        seq![]
    } else if all.last().0 == key {
        points_on(all.drop_last(), key).push(all.last().1)
    } else {
        points_on(all.drop_last(), key)
    }
}

/// `clusters` are the interfaces of `all` with at least `min_points` points:
/// one each, ordered by key.
pub open spec fn are_clusters(
    clusters: Seq<Cluster>,
    all: Seq<((int, int), HalfPoint)>,
    min_points: int,
) -> bool {
    &&& forall|a: int, b: int|
        #![trigger clusters[a], clusters[b]]
        0 <= a < b < clusters.len() ==> key_before(
            clusters[a].interface(),
            clusters[b].interface(),
        )
    &&& forall|a: int|
        #![trigger clusters[a]]
        0 <= a < clusters.len() ==> clusters[a].points@ == points_on(all, clusters[a].interface())
            && clusters[a].points@.len() >= min_points && clusters[a].points@.len() > 0
    &&& forall|key: (int, int)|
        #![trigger points_on(all, key)]
        points_on(all, key).len() > 0 && points_on(all, key).len() >= min_points ==> exists|a: int|
            0 <= a < clusters.len() && #[trigger] clusters[a].interface() == key
}

/// First position whose key does not come before `key`.
fn cluster_position(clusters: &Vec<Cluster>, key: (u32, u32)) -> (pos: usize)
    requires
        forall|a: int, b: int|
            #![trigger clusters@[a], clusters@[b]]
            0 <= a < b < clusters@.len() ==> key_before(
                clusters@[a].interface(),
                clusters@[b].interface(),
            ),
    ensures
        pos <= clusters@.len(),
        forall|a: int|
            #![trigger clusters@[a]]
            0 <= a < pos ==> key_before(
                clusters@[a].interface(),
                (key.0 as int, key.1 as int),
            ),
        forall|a: int|
            #![trigger clusters@[a]]
            pos <= a < clusters@.len() ==> !key_before(
                clusters@[a].interface(),
                (key.0 as int, key.1 as int),
            ),
{
    let ghost want = (key.0 as int, key.1 as int);
    let mut lo: usize = 0;
    let mut hi: usize = clusters.len();
    while lo < hi
        invariant
            lo <= hi <= clusters@.len(),
            want == (key.0 as int, key.1 as int),
            forall|a: int, b: int|
                #![trigger clusters@[a], clusters@[b]]
                0 <= a < b < clusters@.len() ==> key_before(
                    clusters@[a].interface(),
                    clusters@[b].interface(),
                ),
            forall|a: int|
                #![trigger clusters@[a]]
                0 <= a < lo ==> key_before(clusters@[a].interface(), want),
            forall|a: int|
                #![trigger clusters@[a]]
                hi <= a < clusters@.len() ==> !key_before(clusters@[a].interface(), want),
        decreases hi - lo,
    {
        let mid: usize = lo + (hi - lo) / 2;
        let k: (u32, u32) = clusters[mid].key;
        let before: bool = k.0 < key.0 || (k.0 == key.0 && k.1 < key.1);
        if before {
            lo = mid + 1;
        } else {
            hi = mid;
        }
    }
    lo
}

/// Add one crossing to the clusters of the crossings before it.
fn record_crossing(
    clusters: &mut Vec<Cluster>,
    key: (u32, u32),
    point: HalfPoint,
    Ghost(all): Ghost<Seq<((int, int), HalfPoint)>>,
)
    requires
        are_clusters(old(clusters)@, all, 1),
    ensures
        are_clusters(
            final(clusters)@,
            all.push(((key.0 as int, key.1 as int), point)),
            1,
        ),
{
    let ghost want = (key.0 as int, key.1 as int);
    let ghost more = all.push((want, point));
    let ghost before = clusters@;
    let pos: usize = cluster_position(clusters, key);
    let known: bool = pos < clusters.len() && clusters[pos].key.0 == key.0 && clusters[pos].key.1
        == key.1;
    assert(more.drop_last() =~= all);
    assert forall|k: (int, int)| #[trigger] points_on(more, k) == (if k == want {
        points_on(all, k).push(point)
    } else {
        points_on(all, k)
    }) by {}
    if known {
        clusters[pos].points.push(point);
        proof {
            let now = clusters@;
            assert(now[pos as int].interface() == before[pos as int].interface());
            assert forall|a: int| #![trigger now[a]] 0 <= a < now.len() implies now[a].interface()
                == before[a].interface() by {}
            assert forall|a: int|
                #![trigger now[a]]
                0 <= a < now.len() implies now[a].points@ == points_on(more, now[a].interface())
                && now[a].points@.len() >= 1 by {
                assert(before[a].points@ == points_on(all, before[a].interface()));
                if a != pos {
                    assert(before[a].interface() != want) by {
                        if a < pos {
                            assert(key_before(before[a].interface(), before[pos as int].interface()));
                        } else {
                            assert(key_before(before[pos as int].interface(), before[a].interface()));
                        }
                    }
                }
            }
            assert forall|k: (int, int)|
                #![trigger points_on(more, k)]
                points_on(more, k).len() > 0 implies exists|a: int|
                0 <= a < now.len() && #[trigger] now[a].interface() == k by {
                if k == want {
                    assert(now[pos as int].interface() == k);
                } else {
                    assert(points_on(all, k).len() > 0);
                    let a = choose|a: int|
                        0 <= a < before.len() && #[trigger] before[a].interface() == k;
                    assert(now[a].interface() == k);
                }
            }
        }
    } else {
        let mut points: Vec<HalfPoint> = Vec::new();
        points.push(point);
        proof {
            assert forall|a: int|
                0 <= a < before.len() implies #[trigger] before[a].interface() != want by {
                if a < pos {
                } else if a == pos {
                } else {
                    assert(key_before(before[pos as int].interface(), before[a].interface()));
                    assert(!key_before(before[pos as int].interface(), want));
                }
            }
            assert(points_on(all, want).len() == 0) by {
                if points_on(all, want).len() > 0 {
                    let a = choose|a: int|
                        0 <= a < before.len() && #[trigger] before[a].interface() == want;
                    assert(before[a].interface() != want);
                }
            }
            assert(points_on(all, want) =~= seq![]);
        }
        clusters.insert(pos, Cluster { key, points });
        proof {
            let now = clusters@;
            assert(now[pos as int].interface() == want);
            assert(points@ =~= points_on(more, want));
            assert forall|a: int| 0 <= a < now.len() implies #[trigger] now[a] == (if a < pos {
                before[a]
            } else if a == pos {
                now[pos as int]
            } else {
                before[a - 1]
            }) by {}
            assert forall|a: int, b: int|
                #![trigger now[a], now[b]]
                0 <= a < b < now.len() implies key_before(now[a].interface(), now[b].interface()) by {
                if a == pos {
                    assert(!key_before(before[b - 1].interface(), want));
                    assert(before[b - 1].interface() != want);
                } else if b == pos {
                    assert(key_before(before[a].interface(), want));
                } else {
                    let c = if a < pos {
                        a
                    } else {
                        a - 1
                    };
                    let d = if b < pos {
                        b
                    } else {
                        b - 1
                    };
                    assert(key_before(before[c].interface(), before[d].interface()));
                }
            }
            assert forall|a: int|
                #![trigger now[a]]
                0 <= a < now.len() implies now[a].points@ == points_on(more, now[a].interface())
                && now[a].points@.len() >= 1 by {
                if a != pos {
                    let c = if a < pos {
                        a
                    } else {
                        a - 1
                    };
                    assert(before[c].interface() != want);
                    assert(before[c].points@ == points_on(all, before[c].interface()));
                }
            }
            assert forall|k: (int, int)|
                #![trigger points_on(more, k)]
                points_on(more, k).len() > 0 implies exists|a: int|
                0 <= a < now.len() && #[trigger] now[a].interface() == k by {
                if k == want {
                    assert(now[pos as int].interface() == k);
                } else {
                    assert(points_on(all, k).len() > 0);
                    let c = choose|a: int|
                        0 <= a < before.len() && #[trigger] before[a].interface() == k;
                    let a = if c < pos {
                        c
                    } else {
                        c + 1
                    };
                    assert(now[a].interface() == k);
                }
            }
        }
    }
}

/// Keep the clusters with at least `min_points` points, in order.
fn keep_large(clusters: Vec<Cluster>, min_points: usize, Ghost(all): Ghost<
    Seq<((int, int), HalfPoint)>,
>) -> (out: Vec<Cluster>)
    requires
        are_clusters(clusters@, all, 1),
    ensures
        are_clusters(out@, all, min_points as int),
{
    let ghost source = clusters@;
    let mut rest: Vec<Cluster> = clusters;
    let mut reversed: Vec<Cluster> = Vec::new();
    let ghost mut from: Seq<int> = seq![];
    while rest.len() > 0
        invariant
            rest@.len() <= source.len(),
            rest@ == source.subrange(0, rest@.len() as int),
            from.len() == reversed@.len(),
            forall|a: int|
                #![trigger from[a]]
                0 <= a < from.len() ==> rest@.len() <= from[a] < source.len() && reversed@[a]
                    == source[from[a]] && source[from[a]].points@.len() >= min_points,
            forall|a: int, b: int|
                #![trigger from[a], from[b]]
                0 <= a < b < from.len() ==> from[b] < from[a],
            forall|k: int|
                #![trigger source[k]]
                rest@.len() <= k < source.len() && source[k].points@.len() >= min_points
                    ==> exists|a: int| 0 <= a < from.len() && #[trigger] from[a] == k,
        decreases rest@.len(),
    {
        let ghost k = rest@.len() - 1;
        let ghost was = from;
        let popped: Option<Cluster> = rest.pop();
        if let Some(c) = popped {
            assert(c == source[k]);
            assert(rest@ =~= source.subrange(0, k));
            if c.points.len() >= min_points {
                reversed.push(c);
                proof {
                    from = from.push(k);
                    assert(from[was.len() as int] == k);
                    assert forall|j: int|
                        #![trigger source[j]]
                        k <= j < source.len() && source[j].points@.len() >= min_points implies exists|
                        a: int,
                    |
                        0 <= a < from.len() && #[trigger] from[a] == j by {
                        if j > k {
                            let a = choose|a: int| 0 <= a < was.len() && #[trigger] was[a] == j;
                            assert(from[a] == j);
                        }
                    }
                }
            }
        }
    }
    let ghost picked = reversed@;
    let mut out: Vec<Cluster> = Vec::new();
    while reversed.len() > 0
        invariant
            reversed@.len() + out@.len() == picked.len(),
            reversed@ == picked.subrange(0, reversed@.len() as int),
            forall|a: int|
                #![trigger out@[a]]
                0 <= a < out@.len() ==> out@[a] == picked[picked.len() - 1 - a],
        decreases reversed@.len(),
    {
        let ghost k = reversed@.len() - 1;
        let popped: Option<Cluster> = reversed.pop();
        if let Some(c) = popped {
            assert(c == picked[k]);
            assert(reversed@ =~= picked.subrange(0, k));
            out.push(c);
        }
    }
    proof {
        let m = picked.len();
        assert forall|a: int| 0 <= a < out@.len() implies #[trigger] out@[a] == source[from[m - 1
            - a]] by {}
        assert forall|a: int, b: int|
            #![trigger out@[a], out@[b]]
            0 <= a < b < out@.len() implies key_before(
            out@[a].interface(),
            out@[b].interface(),
        ) by {
            let p = from[m - 1 - a];
            let q = from[m - 1 - b];
            assert(p < q);
            assert(key_before(source[p].interface(), source[q].interface()));
        }
        assert forall|a: int|
            #![trigger out@[a]]
            0 <= a < out@.len() implies out@[a].points@ == points_on(all, out@[a].interface())
            && out@[a].points@.len() >= min_points && out@[a].points@.len() > 0 by {
            let p = from[m - 1 - a];
            assert(source[p].points@ == points_on(all, source[p].interface()));
        }
        assert forall|key: (int, int)|
            #![trigger points_on(all, key)]
            points_on(all, key).len() > 0 && points_on(all, key).len() >= min_points implies exists|
            a: int,
        |
            0 <= a < out@.len() && #[trigger] out@[a].interface() == key by {
            let k = choose|k: int| 0 <= k < source.len() && #[trigger] source[k].interface() == key;
            assert(source[k].points@ == points_on(all, source[k].interface()));
            let c = choose|c: int| 0 <= c < from.len() && #[trigger] from[c] == k;
            let a = m - 1 - c;
            assert(out@[a] == source[from[m - 1 - a]]);
            assert(out@[a].interface() == key);
        }
    }
    out
}

/// Group black/white interface points by the pair of regions they separate.
///
/// Clusters of fewer than `min_points` points are dropped. The clusters are
/// ordered by region key and the points of each are in raster order.
pub fn gradient_clusters(binary: &Binary, uf: &mut UnionFind, min_points: usize) -> (clusters: Vec<
    Cluster,
>)
    requires
        binary.wf(),
        old(uf).wf(),
        old(uf)@.len() == binary@.data.len(),
    ensures
        final(uf).wf(),
        final(uf)@ == old(uf)@,
        are_clusters(clusters@, crossings(binary@, old(uf)@), min_points as int),
{
    let w: u32 = binary.width();
    let h: u32 = binary.height();
    let n: usize = binary.data().len();
    let ghost image = binary@;
    let ghost labels = uf@;
    proof {
        uf.lemma_is_labelling();
    }
    let mut groups: Vec<Cluster> = Vec::new();
    let mut i: usize = 0;
    while i < n
        invariant
            binary.wf(),
            image == binary@,
            w == image.width,
            h == image.height,
            n == image.data.len(),
            n <= u32::MAX,
            i <= n,
            uf.wf(),
            uf@ == labels,
            labels.len() == n,
            is_labelling(labels),
            are_clusters(groups@, crossings_before(image, labels, i as nat), 1),
        decreases n - i,
    {
        proof {
            lemma_coordinates(i as int, w as int, h as int);
            let x = i as int % w as int;
            let y = i as int / w as int;
            if x + 1 < w {
                lemma_linear_index(x + 1, y, w as int, h as int);
            }
            if y + 1 < h {
                lemma_linear_index(x, y + 1, w as int, h as int);
                assert((y + 1) * w == y * w + w) by (nonlinear_arith);
            }
        }
        let x: u32 = (i % (w as usize)) as u32;
        let y: u32 = (i / (w as usize)) as u32;
        let v: u8 = binary.at(x, y);
        let at: u32 = i as u32;
        let ghost before = crossings_before(image, labels, i as nat);
        let ghost mut seen = before;
        if v != SKIP {
            if x + 1 < w {
                let r: u8 = binary.at(x + 1, y);
                if r != SKIP && r != v {
                    let here: u32 = uf.find(at);
                    let there: u32 = uf.find(at + 1);
                    let key: (u32, u32) = if v == BLACK {
                        (here, there)
                    } else {
                        (there, here)
                    };
                    let point = HalfPoint { x2: 2 * (x as u64) + 1, y2: 2 * (y as u64) };
                    record_crossing(&mut groups, key, point, Ghost(before));
                    proof {
                        seen = before.push(((key.0 as int, key.1 as int), point));
                    }
                }
            }
            if y + 1 < h {
                let d: u8 = binary.at(x, y + 1);
                if d != SKIP && d != v {
                    let here: u32 = uf.find(at);
                    let there: u32 = uf.find(at + w);
                    let key: (u32, u32) = if v == BLACK {
                        (here, there)
                    } else {
                        (there, here)
                    };
                    let point = HalfPoint { x2: 2 * (x as u64), y2: 2 * (y as u64) + 1 };
                    record_crossing(&mut groups, key, point, Ghost(seen));
                    proof {
                        seen = seen.push(((key.0 as int, key.1 as int), point));
                    }
                }
            }
        }
        proof {
            assert(seen =~= before + crossings_at(image, labels, i as int));
            assert(seen == crossings_before(image, labels, (i + 1) as nat));
        }
        i = i + 1;
    }
    keep_large(groups, min_points, Ghost(crossings(image, labels)))
}

/// There is a label for every pixel.
pub proof fn lemma_component_count(image: Raster)
    requires
        image.wf(),
    ensures
        component_labels(image).len() == image.data.len(),
{
    lemma_labels_after(image, image.data.len());
}

/// A component's label names a pixel of the component.
proof fn lemma_component_named_by_member(image: Raster, i: int)
    requires
        image.wf(),
        0 <= i < image.data.len(),
    ensures
        component_labels(image).len() == image.data.len(),
        0 <= component_labels(image)[i] < image.data.len(),
        component_labels(image)[component_labels(image)[i]] == component_labels(image)[i],
{
    lemma_labels_after(image, image.data.len());
    assert(is_labelling(component_labels(image)));
}

/// An interface separates a black component from a white one.
pub proof fn law_interfaces_separate_black_from_white(image: Raster, k: nat, c: int)
    requires
        image.wf(),
        forall|i: int| 0 <= i < image.data.len() ==> is_label(#[trigger] image.data[i]),
        k <= image.data.len(),
        0 <= c < crossings_before(image, component_labels(image), k).len(),
    ensures
        ({
            let key = crossings_before(image, component_labels(image), k)[c].0;
            &&& 0 <= key.0 < image.data.len()
            &&& 0 <= key.1 < image.data.len()
            &&& image.data[key.0] == BLACK
            &&& image.data[key.1] == WHITE
        }),
    decreases k,
{
    let labels = component_labels(image);
    let w = image.width as int;
    let p = k - 1;
    let before = crossings_before(image, labels, p as nat);
    if c < before.len() {
        law_interfaces_separate_black_from_white(image, p as nat, c);
        assert(crossings_before(image, labels, k)[c] == before[c]);
    } else {
        let here = crossings_at(image, labels, p);
        assert(crossings_before(image, labels, k)[c] == here[c - before.len()]);
        lemma_coordinates(p, w, image.height as int);
        if p % w + 1 < w {
            lemma_linear_index(p % w + 1, p / w, w, image.height as int);
            lemma_component_named_by_member(image, p + 1);
            law_components_hold_one_label(image, p + 1, labels[p + 1]);
            assert(is_label(image.data[p + 1]));
        }
        if p / w + 1 < image.height {
            lemma_linear_index(p % w, p / w + 1, w, image.height as int);
            assert((p / w + 1) * w == (p / w) * w + w) by (nonlinear_arith);
            lemma_component_named_by_member(image, p + w);
            law_components_hold_one_label(image, p + w, labels[p + w]);
            assert(is_label(image.data[p + w]));
        }
        lemma_component_named_by_member(image, p);
        law_components_hold_one_label(image, p, labels[p]);
        assert(is_label(image.data[p]));
    }
}

/// An image without contrast has no interface.
pub proof fn law_blank_image_has_no_crossings(image: Raster, labels: Seq<int>, k: nat)
    requires
        image.wf(),
        k <= image.data.len(),
        forall|i: int| 0 <= i < image.data.len() ==> #[trigger] image.data[i] == SKIP,
    ensures
        crossings_before(image, labels, k) == Seq::<((int, int), HalfPoint)>::empty(),
    decreases k,
{
    if k > 0 {
        law_blank_image_has_no_crossings(image, labels, (k - 1) as nat);
        assert(image.data[k - 1] == SKIP);
    }
}

// ---------------------------------------------------------------------------
// Components and edges, in terms of pixels
// ---------------------------------------------------------------------------

proof fn lemma_class_counted(labels: Seq<int>, r: int, n: nat)
    requires
        n <= labels.len(),
    ensures
        class_size(labels.take(n as int), r) == how_many(n, |i: int| labels[i] == r),
    decreases n,
{
    let p = |i: int| labels[i] == r;
    if n > 0 {
        lemma_class_counted(labels, r, (n - 1) as nat);
        lemma_how_many(n, p);
        assert(labels.take(n as int).drop_last() =~= labels.take(n - 1));
    } else {
        lemma_how_many(1, p);
    }
}

/// The size of a set is how many it holds.
pub proof fn law_set_size_counts_its_members(labels: Seq<int>, r: int)
    ensures
        class_size(labels, r) == how_many(labels.len(), |i: int| labels[i] == r),
{
    lemma_class_counted(labels, r, labels.len());
    assert(labels.take(labels.len() as int) =~= labels);
}

/// Of two sets that are merged the larger one keeps its representative, and of two of
/// the same size the first; every other set keeps its own.
pub proof fn law_larger_set_gives_the_representative(labels: Seq<int>, a: int, b: int, i: int)
    requires
        0 <= a < labels.len(),
        0 <= b < labels.len(),
        0 <= i < labels.len(),
    ensures
        ({
            let size_a = how_many(labels.len(), |k: int| labels[k] == labels[a]);
            let size_b = how_many(labels.len(), |k: int| labels[k] == labels[b]);
            let m = merged(labels, a, b);
            &&& labels[i] != labels[a] && labels[i] != labels[b] ==> m[i] == labels[i]
            &&& labels[i] == labels[a] || labels[i] == labels[b] ==> m[i] == (if size_a >= size_b {
                labels[a]
            } else {
                labels[b]
            })
        }),
{
    let (ra, rb) = (labels[a], labels[b]);
    law_set_size_counts_its_members(labels, ra);
    law_set_size_counts_its_members(labels, rb);
    lemma_same_count(labels.len(), |k: int| labels[k] == ra, |k: int| labels[k] == labels[a]);
    lemma_same_count(labels.len(), |k: int| labels[k] == rb, |k: int| labels[k] == labels[b]);
}

/// Two pixels are joined directly exactly when they are next to each other, along a row
/// or a column, and have the same label, which is not the one that is skipped.
pub proof fn law_equal_neighbours_are_joined(image: Raster, i: int, j: int)
    requires
        image.wf(),
        0 <= i < image.data.len(),
        0 <= j < image.data.len(),
    ensures
        ({
            let w = image.width as int;
            let dx = i % w - j % w;
            let dy = i / w - j / w;
            linked(image, i, j) <==> image.data[i] == image.data[j] && image.data[i] != SKIP && ((dx
                == 0 && (dy == 1 || dy == -1)) || (dy == 0 && (dx == 1 || dx == -1)))
        }),
{
    let w = image.width as int;
    let h = image.height as int;
    lemma_coordinates(i, w, h);
    lemma_coordinates(j, w, h);
    let (x, y) = (i % w, i / w);
    let (u, v) = (j % w, j / w);
    assert(i == y * w + x);
    assert(j == v * w + u);
    lemma_step_right(image, i, j);
    lemma_step_right(image, j, i);
    lemma_step_down(image, i, j);
    lemma_step_down(image, j, i);
}

proof fn lemma_step_right(image: Raster, i: int, j: int)
    requires
        image.wf(),
        0 <= i < image.data.len(),
        0 <= j < image.data.len(),
    ensures
        ({
            let w = image.width as int;
            (j == i + 1 && i % w + 1 < w) <==> (i / w == j / w && j % w == i % w + 1)
        }),
{
    let w = image.width as int;
    let h = image.height as int;
    lemma_coordinates(i, w, h);
    lemma_coordinates(j, w, h);
    let (x, y) = (i % w, i / w);
    if j == i + 1 && x + 1 < w {
        lemma_linear_index(x + 1, y, w, h);
    }
}

proof fn lemma_step_down(image: Raster, i: int, j: int)
    requires
        image.wf(),
        0 <= i < image.data.len(),
        0 <= j < image.data.len(),
    ensures
        ({
            let w = image.width as int;
            (j == i + w && i / w + 1 < image.height) <==> (i % w == j % w && j / w == i / w + 1)
        }),
{
    let w = image.width as int;
    let h = image.height as int;
    lemma_coordinates(i, w, h);
    lemma_coordinates(j, w, h);
    let (x, y) = (i % w, i / w);
    let (u, v) = (j % w, j / w);
    assert((y + 1) * w == y * w + w) by (nonlinear_arith);
    if j == i + w && y + 1 < h {
        lemma_linear_index(x, y + 1, w, h);
    }
    if x == u && v == y + 1 {
        assert(j == (y + 1) * w + x);
    }
}

/// Neighbours with the same label are in one component.
pub proof fn law_equal_neighbours_share_a_component(image: Raster, i: int, j: int)
    requires
        image.wf(),
        0 <= i < image.data.len(),
        0 <= j < image.data.len(),
        image.data[i] == image.data[j],
        image.data[i] != SKIP,
        ({
            let w = image.width as int;
            let dx = i % w - j % w;
            let dy = i / w - j / w;
            (dx == 0 && (dy == 1 || dy == -1)) || (dy == 0 && (dx == 1 || dx == -1))
        }),
    ensures
        component_labels(image)[i] == component_labels(image)[j],
{
    law_equal_neighbours_are_joined(image, i, j);
    let path = seq![i, j];
    assert(is_walk(image, path));
    law_components_are_connected_regions(image, i, j);
}

/// Whether a crossing is the midpoint of a dark pixel and a light one next to it.
pub open spec fn is_edge_between(
    image: Raster,
    labels: Seq<int>,
    crossing: ((int, int), HalfPoint),
    dark: int,
    light: int,
) -> bool {
    let w = image.width as int;
    let dx = dark % w - light % w;
    let dy = dark / w - light / w;
    &&& 0 <= dark < image.data.len()
    &&& 0 <= light < image.data.len()
    &&& image.data[dark] == BLACK
    &&& image.data[light] == WHITE
    &&& (dx == 0 && (dy == 1 || dy == -1)) || (dy == 0 && (dx == 1 || dx == -1))
    &&& crossing.0 == (labels[dark], labels[light])
    &&& crossing.1.x2 == dark % w + light % w
    &&& crossing.1.y2 == dark / w + light / w
}

proof fn lemma_crossing_at(
    image: Raster,
    labels: Seq<int>,
    i: int,
    c: int,
)
    requires
        image.wf(),
        image.width <= u32::MAX,
        image.height <= u32::MAX,
        forall|k: int| 0 <= k < image.data.len() ==> is_label(#[trigger] image.data[k]),
        0 <= i < image.data.len(),
        0 <= c < crossings_at(image, labels, i).len(),
    ensures
        exists|dark: int, light: int| #[trigger]
            is_edge_between(image, labels, crossings_at(image, labels, i)[c], dark, light),
{
    let w = image.width as int;
    let h = image.height as int;
    lemma_coordinates(i, w, h);
    let (x, y) = (i % w, i / w);
    let all = crossings_at(image, labels, i);
    let right = x + 1 < w && opposed(image, i, i + 1);
    let j = if right && c == 0 {
        i + 1
    } else {
        i + w
    };
    if right && c == 0 {
        lemma_linear_index(x + 1, y, w, h);
    } else {
        lemma_linear_index(x, y + 1, w, h);
        assert((y + 1) * w == y * w + w) by (nonlinear_arith);
    }
    assert(is_label(image.data[i]) && is_label(image.data[j]));
    if image.data[i] == BLACK {
        assert(is_edge_between(image, labels, all[c], i, j));
    } else {
        assert(is_edge_between(image, labels, all[c], j, i));
    }
}

proof fn lemma_crossing_comes_from(
    image: Raster,
    labels: Seq<int>,
    k: nat,
    c: int,
)
    requires
        k <= image.data.len(),
        0 <= c < crossings_before(image, labels, k).len(),
    ensures
        exists|i: int, d: int|
            0 <= i < k && 0 <= d < crossings_at(image, labels, i).len()
                && #[trigger] crossings_at(image, labels, i)[d] == crossings_before(
                image,
                labels,
                k,
            )[c],
    decreases k,
{
    let before = crossings_before(image, labels, (k - 1) as nat);
    if c < before.len() {
        lemma_crossing_comes_from(image, labels, (k - 1) as nat, c);
        let (i, d) = choose|i: int, d: int|
            0 <= i < k - 1 && 0 <= d < crossings_at(image, labels, i).len()
                && #[trigger] crossings_at(image, labels, i)[d] == before[c];
        assert(crossings_at(image, labels, i)[d] == crossings_before(image, labels, k)[c]);
    } else {
        assert(crossings_at(image, labels, k - 1)[c - before.len()] == crossings_before(
            image,
            labels,
            k,
        )[c]);
    }
}

/// Nothing but an edge is a crossing: each one is the midpoint of a dark pixel and a
/// light one next to it, and belongs to their two regions, the dark one first.
pub proof fn law_crossings_are_edges(image: Raster, labels: Seq<int>, c: int)
    requires
        image.wf(),
        image.width <= u32::MAX,
        image.height <= u32::MAX,
        forall|k: int| 0 <= k < image.data.len() ==> is_label(#[trigger] image.data[k]),
        0 <= c < crossings(image, labels).len(),
    ensures
        exists|dark: int, light: int| #[trigger]
            is_edge_between(image, labels, crossings(image, labels)[c], dark, light),
{
    lemma_crossing_comes_from(image, labels, image.data.len(), c);
    let (i, d) = choose|i: int, d: int|
        0 <= i < image.data.len() && 0 <= d < crossings_at(image, labels, i).len()
            && #[trigger] crossings_at(image, labels, i)[d] == crossings(image, labels)[c];
    lemma_crossing_at(image, labels, i, d);
}

proof fn lemma_crossing_is_listed(
    image: Raster,
    labels: Seq<int>,
    k: nat,
    i: int,
    d: int,
)
    requires
        k <= image.data.len(),
        0 <= i < k,
        0 <= d < crossings_at(image, labels, i).len(),
    ensures
        crossings_before(image, labels, k).contains(crossings_at(image, labels, i)[d]),
    decreases k,
{
    let before = crossings_before(image, labels, (k - 1) as nat);
    let now = crossings_before(image, labels, k);
    let c = crossings_at(image, labels, i)[d];
    if i < k - 1 {
        lemma_crossing_is_listed(image, labels, (k - 1) as nat, i, d);
        let a = choose|a: int| 0 <= a < before.len() && before[a] == c;
        assert(now[a] == c);
    } else {
        assert(now[before.len() + d] == c);
    }
}

/// No edge is missed: wherever a dark pixel is next to a light one, their midpoint is a
/// crossing of their two regions.
pub proof fn law_every_edge_is_crossed(image: Raster, labels: Seq<int>, dark: int, light: int)
    requires
        image.wf(),
        image.width <= u32::MAX,
        image.height <= u32::MAX,
        0 <= dark < image.data.len(),
        0 <= light < image.data.len(),
        image.data[dark] == BLACK,
        image.data[light] == WHITE,
        ({
            let w = image.width as int;
            let dx = dark % w - light % w;
            let dy = dark / w - light / w;
            (dx == 0 && (dy == 1 || dy == -1)) || (dy == 0 && (dx == 1 || dx == -1))
        }),
    ensures
        exists|c: int|
            0 <= c < crossings(image, labels).len() && is_edge_between(
                image,
                labels,
                #[trigger] crossings(image, labels)[c],
                dark,
                light,
            ),
{
    let w = image.width as int;
    let h = image.height as int;
    lemma_coordinates(dark, w, h);
    lemma_coordinates(light, w, h);
    lemma_step_right(image, dark, light);
    lemma_step_right(image, light, dark);
    lemma_step_down(image, dark, light);
    lemma_step_down(image, light, dark);
    let along = dark / w == light / w;
    let i = if along {
        if dark % w < light % w {
            dark
        } else {
            light
        }
    } else if dark / w < light / w {
        dark
    } else {
        light
    };
    let right = i % w + 1 < w && opposed(image, i, i + 1);
    let d = if along || !right {
        0int
    } else {
        1int
    };
    let point = crossings_at(image, labels, i)[d];
    assert(is_edge_between(image, labels, point, dark, light));
    lemma_crossing_is_listed(image, labels, image.data.len(), i, d);
    let all = crossings(image, labels);
    let c = choose|c: int| 0 <= c < all.len() && all[c] == point;
    assert(is_edge_between(image, labels, all[c], dark, light));
}

proof fn lemma_points_on(
    all: Seq<((int, int), HalfPoint)>,
    key: (int, int),
    n: nat,
    i: int,
)
    requires
        n <= all.len(),
    ensures
        points_on(all.take(n as int), key).len() == how_many(n, |k: int| all[k].0 == key),
        0 <= i < n && all[i].0 == key ==> how_many(i as nat, |k: int| all[k].0 == key) < points_on(
            all.take(n as int),
            key,
        ).len() && points_on(all.take(n as int), key)[how_many(
            i as nat,
            |k: int| all[k].0 == key,
        ) as int] == all[i].1,
    decreases n,
{
    let p = |k: int| all[k].0 == key;
    if n > 0 {
        lemma_points_on(all, key, (n - 1) as nat, i);
        lemma_how_many(n, p);
        assert(all.take(n as int).drop_last() =~= all.take(n - 1));
    } else {
        lemma_how_many(1, p);
    }
}

/// Crossings are grouped by the two regions that they separate: a pair of regions has a
/// cluster exactly when enough crossings separate it, and the cluster holds all of them,
/// in their order, and nothing else. Clusters come in the order of their regions.
pub proof fn law_clusters_group_the_crossings(
    clusters: Seq<Cluster>,
    all: Seq<((int, int), HalfPoint)>,
    min_points: int,
    i: int,
    a: int,
    b: int,
)
    requires
        are_clusters(clusters, all, min_points),
        0 <= i < all.len(),
    ensures
        ({
            let key = all[i].0;
            let count = how_many(all.len(), |k: int| all[k].0 == key);
            let rank = how_many(i as nat, |k: int| all[k].0 == key);
            &&& count >= min_points ==> exists|c: int|
                0 <= c < clusters.len() && ({
                    let it = #[trigger] clusters[c];
                    &&& (it.key.0 as int, it.key.1 as int) == key
                    &&& it.points@.len() == count
                    &&& it.points@[rank as int] == all[i].1
                })
            &&& count < min_points ==> forall|c: int|
                0 <= c < clusters.len() ==> ((#[trigger] clusters[c]).key.0 as int, clusters[
                    c
                ].key.1 as int) != key
            &&& 0 <= a < b < clusters.len() ==> clusters[a].key.0 < clusters[b].key.0 || (
            clusters[a].key.0 == clusters[b].key.0 && clusters[a].key.1 < clusters[b].key.1)
            &&& 0 <= a < clusters.len() ==> clusters[a].points@.len() == how_many(
                all.len(),
                |k: int| all[k].0 == (clusters[a].key.0 as int, clusters[a].key.1 as int),
            ) && clusters[a].points@.len() > 0
        }),
{
    let key = all[i].0;
    assert(all.take(all.len() as int) =~= all);
    lemma_points_on(all, key, all.len(), i);
    if 0 <= a < clusters.len() {
        lemma_points_on(all, clusters[a].interface(), all.len(), i);
        assert(clusters[a].points@ == points_on(all, clusters[a].interface()));
    }
    if 0 <= a < b < clusters.len() {
        assert(key_before(clusters[a].interface(), clusters[b].interface()));
    }
    let count = how_many(all.len(), |k: int| all[k].0 == key);
    if count >= min_points {
        assert(points_on(all, key).len() > 0);
        let c = choose|c: int| 0 <= c < clusters.len() && #[trigger] clusters[c].interface() == key;
        assert(clusters[c].points@ == points_on(all, key));
    } else {
        assert forall|c: int| 0 <= c < clusters.len() implies ((#[trigger] clusters[c]).key.0 as int,
            clusters[c].key.1 as int) != key by {
            assert(clusters[c].points@ == points_on(all, clusters[c].interface()));
            assert(clusters[c].points@.len() >= min_points);
        }
    }
}

proof fn lemma_crossing_names_its_pixel(image: Raster, labels: Seq<int>, i: int, d: int)
    requires
        image.wf(),
        image.width <= u32::MAX,
        image.height <= u32::MAX,
        0 <= i < image.data.len(),
        0 <= d < crossings_at(image, labels, i).len(),
    ensures
        ({
            let p = crossings_at(image, labels, i)[d].1;
            &&& (p.y2 as int / 2) * image.width + p.x2 as int / 2 == i
            &&& crossings_at(image, labels, i).len() == 2 ==> (d == 0 <==> p.x2 % 2 == 1)
        }),
{
    let w = image.width as int;
    lemma_coordinates(i, w, image.height as int);
    let (x, y) = (i % w, i / w);
    assert((2 * x + 1) / 2 == x && (2 * x) / 2 == x && (2 * y + 1) / 2 == y && (2 * y) / 2 == y);
    assert(y * w == y * image.width);
}

proof fn lemma_crossings_distinct(image: Raster, labels: Seq<int>, k: nat, a: int, b: int)
    requires
        image.wf(),
        image.width <= u32::MAX,
        image.height <= u32::MAX,
        k <= image.data.len(),
        0 <= a < b < crossings_before(image, labels, k).len(),
    ensures
        crossings_before(image, labels, k)[a].1 != crossings_before(image, labels, k)[b].1,
    decreases k,
{
    let before = crossings_before(image, labels, (k - 1) as nat);
    let now = crossings_before(image, labels, k);
    let last = crossings_at(image, labels, k - 1);
    let n = before.len() as int;
    if b < n {
        lemma_crossings_distinct(image, labels, (k - 1) as nat, a, b);
    } else {
        assert(now[b] == last[b - n]);
        lemma_crossing_names_its_pixel(image, labels, k - 1, b - n);
        if a < n {
            lemma_crossing_comes_from(image, labels, (k - 1) as nat, a);
            let (i, d) = choose|i: int, d: int|
                0 <= i < k - 1 && 0 <= d < crossings_at(image, labels, i).len()
                    && #[trigger] crossings_at(image, labels, i)[d] == before[a];
            lemma_crossing_names_its_pixel(image, labels, i, d);
            assert(now[a] == before[a]);
        } else {
            assert(now[a] == last[a - n]);
            lemma_crossing_names_its_pixel(image, labels, k - 1, a - n);
        }
    }
}

/// No edge is crossed twice.
pub proof fn law_every_edge_is_crossed_once(image: Raster, labels: Seq<int>, a: int, b: int)
    requires
        image.wf(),
        image.width <= u32::MAX,
        image.height <= u32::MAX,
        0 <= a < b < crossings(image, labels).len(),
    ensures
        crossings(image, labels)[a].1 != crossings(image, labels)[b].1,
{
    lemma_crossings_distinct(image, labels, image.data.len(), a, b);
}

} // verus!
