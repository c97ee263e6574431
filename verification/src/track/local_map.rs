//! The sliding set of landmarks the tracker solves its pose against: bounded,
//! forgetful, and thrown away on reset.

use std::collections::HashMap;

use vstd::prelude::*;

use crate::order::{comes_before, is_stable_order, key_less, lists, stable_order, SortKey};

verus! {

broadcast use vstd::std_specs::hash::group_hash_axioms;

/// A landmark of the local map; `X` is the type of its position.
#[derive(Debug, Clone, Copy)]
pub struct LocalLandmark<X> {
    /// Stable identity.
    pub id: u64,
    /// Position in world coordinates, up to scale.
    pub position: X,
    /// Number of frames this landmark has been an inlier in.
    pub observations: u32,
}

/// A landmark together with the frame that saw it last.
pub struct Entry<X> {
    pub landmark: LocalLandmark<X>,
    pub last_seen: u64,
}

/// The landmarks in insertion order, found by id.
#[derive(Debug)]
pub struct LocalMap<X> {
    landmarks: Vec<LocalLandmark<X>>,
    last_seen: Vec<u64>,
    index: HashMap<u64, usize>,
}

impl<X> View for LocalMap<X> {
    type V = Seq<Entry<X>>;

    closed spec fn view(&self) -> Seq<Entry<X>> {
        Seq::new(
            self.landmarks@.len(),
            |i: int| Entry { landmark: self.landmarks@[i], last_seen: self.last_seen@[i] },
        )
    }
}

/// Whether entry `i` has the given id.
pub open spec fn is_at<X>(entries: Seq<Entry<X>>, id: u64, i: int) -> bool {
    0 <= i < entries.len() && entries[i].landmark.id == id
}

/// Whether some entry has the given id.
pub open spec fn knows<X>(entries: Seq<Entry<X>>, id: u64) -> bool {
    exists|i: int| #[trigger] is_at(entries, id, i)
}

/// Position of the entry with the given id.
pub open spec fn place_of<X>(entries: Seq<Entry<X>>, id: u64) -> int {
    choose|i: int| #[trigger] is_at(entries, id, i)
}

/// No id occurs twice.
pub open spec fn ids_are_distinct<X>(entries: Seq<Entry<X>>) -> bool {
    forall|i: int, j: int|
        #![trigger entries[i], entries[j]]
        0 <= i < j < entries.len() ==> entries[i].landmark.id != entries[j].landmark.id
}

/// The entries once `landmark` has been put in, seen in `frame`: in the place of
/// its namesake if there is one, at the end if not.
pub open spec fn with_landmark<X>(
    entries: Seq<Entry<X>>,
    landmark: LocalLandmark<X>,
    frame: u64,
) -> Seq<Entry<X>> {
    let entry = Entry { landmark, last_seen: frame };
    if knows(entries, landmark.id) {
        entries.update(place_of(entries, landmark.id), entry)
    } else {
        entries.push(entry)
    }
}

/// One more than `n`, or `n` when that is the greatest count.
pub open spec fn counted_up(n: u32) -> u32 {
    if n == u32::MAX {
        n
    } else {
        (n + 1) as u32
    }
}

/// The entries once landmark `id` has been an inlier of `frame`; unknown ids
/// change nothing.
pub open spec fn with_sighting<X>(entries: Seq<Entry<X>>, id: u64, frame: u64) -> Seq<Entry<X>> {
    if knows(entries, id) {
        let i = place_of(entries, id);
        let l = entries[i].landmark;
        entries.update(
            i,
            Entry {
                landmark: LocalLandmark { observations: counted_up(l.observations), ..l },
                last_seen: frame,
            },
        )
    } else {
        entries
    }
}

/// The entries once landmark `id` has been moved; unknown ids change nothing.
pub open spec fn with_position<X>(entries: Seq<Entry<X>>, id: u64, position: X) -> Seq<Entry<X>> {
    if knows(entries, id) {
        let i = place_of(entries, id);
        let e = entries[i];
        entries.update(
            i,
            Entry { landmark: LocalLandmark { position, ..e.landmark }, last_seen: e.last_seen },
        )
    } else {
        entries
    }
}

/// Whether an entry has been seen within the last `ttl` frames.
pub open spec fn is_fresh<X>(e: Entry<X>, frame: u64, ttl: u64) -> bool {
    frame - e.last_seen <= ttl
}

/// Whether entry `a` is kept in preference to entry `b`: more observations, then
/// seen later, then the lower id.
pub open spec fn outranks<X>(a: Entry<X>, b: Entry<X>) -> bool {
    a.landmark.observations > b.landmark.observations || (a.landmark.observations
        == b.landmark.observations && (a.last_seen > b.last_seen || (a.last_seen == b.last_seen
        && a.landmark.id < b.landmark.id)))
}

/// The fresh entries that outrank entry `i`, by position.
pub open spec fn betters<X>(entries: Seq<Entry<X>>, frame: u64, ttl: u64, i: int) -> Set<int> {
    Set::new(
        |k: int|
            0 <= k < entries.len() && is_fresh(entries[k], frame, ttl) && outranks(
                entries[k],
                entries[i],
            ),
    )
}

/// Whether entry `i` survives a cull: it is fresh, and fewer than `capacity`
/// fresh entries outrank it.
pub open spec fn survives<X>(
    entries: Seq<Entry<X>>,
    frame: u64,
    ttl: u64,
    capacity: usize,
    i: int,
) -> bool {
    is_fresh(entries[i], frame, ttl) && betters(entries, frame, ttl, i).len() < capacity
}

/// The survivors among the first `n` entries, in order.
pub open spec fn survivors<X>(
    entries: Seq<Entry<X>>,
    frame: u64,
    ttl: u64,
    capacity: usize,
    n: nat,
) -> Seq<Entry<X>>
    decreases n,
{
    if n == 0 {
        seq![]
    } else {
        let before = survivors(entries, frame, ttl, capacity, (n - 1) as nat);
        if survives(entries, frame, ttl, capacity, n - 1) {
            before.push(entries[n - 1])
        } else {
            before
        }
    }
}

/// The entries that a cull leaves.
pub open spec fn culled<X>(
    entries: Seq<Entry<X>>,
    frame: u64,
    ttl: u64,
    capacity: usize,
) -> Seq<Entry<X>> {
    survivors(entries, frame, ttl, capacity, entries.len())
}

impl<X: Copy> LocalMap<X> {
    /// The index names each landmark's position, and nothing else.
    pub closed spec fn wf(&self) -> bool {
        &&& self.landmarks@.len() == self.last_seen@.len()
        &&& forall|i: int|
            #![trigger self.landmarks@[i]]
            0 <= i < self.landmarks@.len() ==> self.index@.contains_key(self.landmarks@[i].id)
                && self.index@[self.landmarks@[i].id] == i
        &&& forall|id: u64| #[trigger]
            self.index@.contains_key(id) ==> self.index@[id] < self.landmarks@.len()
                && self.landmarks@[self.index@[id] as int].id == id
    }

    /// The index agrees with the landmarks.
    pub proof fn lemma_ids_are_distinct(&self)
        requires
            self.wf(),
        ensures
            ids_are_distinct(self@),
    {
        assert forall|i: int, j: int|
            #![trigger self@[i], self@[j]]
            0 <= i < j < self@.len() implies self@[i].landmark.id != self@[j].landmark.id by {
            assert(self.index@[self.landmarks@[i].id] == i);
            assert(self.index@[self.landmarks@[j].id] == j);
        }
    }

    proof fn lemma_place(&self, id: u64)
        requires
            self.wf(),
        ensures
            knows(self@, id) <==> self.index@.contains_key(id),
            self.index@.contains_key(id) ==> place_of(self@, id) == self.index@[id] && is_at(
                self@,
                id,
                self.index@[id] as int,
            ),
    {
        if self.index@.contains_key(id) {
            let i = self.index@[id] as int;
            assert(is_at(self@, id, i));
            let p = place_of(self@, id);
            assert(is_at(self@, id, p));
            assert(self.index@[self.landmarks@[p].id] == p);
        }
        if knows(self@, id) {
            let i = choose|i: int| #[trigger] is_at(self@, id, i);
            assert(self.index@.contains_key(self.landmarks@[i].id));
        }
    }

    /// An empty map.
    pub fn new() -> (map: LocalMap<X>)
        ensures
            map.wf(),
            map@ == Seq::<Entry<X>>::empty(),
    {
        let map = LocalMap {
            landmarks: Vec::new(),
            last_seen: Vec::new(),
            index: HashMap::new(),
        };
        assert(map@ =~= Seq::<Entry<X>>::empty());
        map
    }

    /// Every landmark, in insertion order.
    pub fn landmarks(&self) -> (all: &[LocalLandmark<X>])
        ensures
            all@.len() == self@.len(),
            forall|i: int| 0 <= i < all@.len() ==> #[trigger] all@[i] == self@[i].landmark,
    {
        self.landmarks.as_slice()
    }

    /// Landmark count.
    pub fn len(&self) -> (n: usize)
        ensures
            n == self@.len(),
    {
        self.landmarks.len()
    }

    /// Whether the map holds nothing.
    pub fn is_empty(&self) -> (empty: bool)
        ensures
            empty == (self@.len() == 0),
    {
        self.landmarks.len() == 0
    }

    /// Borrow a landmark by id.
    pub fn get(&self, id: u64) -> (found: Option<&LocalLandmark<X>>)
        requires
            self.wf(),
        ensures
            found is Some <==> knows(self@, id),
            found matches Some(l) ==> *l == self@[place_of(self@, id)].landmark && l.id == id,
    {
        proof {
            self.lemma_place(id);
        }
        match self.index.get(&id) {
            Some(i) => Some(&self.landmarks[*i]),
            None => None,
        }
    }

    /// Put a landmark in, seen in `frame`.
    pub fn insert(&mut self, landmark: LocalLandmark<X>, frame: u64)
        requires
            old(self).wf(),
        ensures
            final(self).wf(),
            final(self)@ == with_landmark(old(self)@, landmark, frame),
    {
        proof {
            self.lemma_place(landmark.id);
        }
        let known: Option<usize> = match self.index.get(&landmark.id) {
            Some(i) => Some(*i),
            None => None,
        };
        match known {
            Some(i) => {
                self.landmarks[i] = landmark;
                self.last_seen[i] = frame;
            },
            None => {
                let n: usize = self.landmarks.len();
                self.index.insert(landmark.id, n);
                self.landmarks.push(landmark);
                self.last_seen.push(frame);
            },
        }
        proof {
            assert(self@ =~= with_landmark(old(self)@, landmark, frame));
            assert forall|id: u64| #[trigger] self.index@.contains_key(id) implies self.index@[id]
                < self.landmarks@.len() && self.landmarks@[self.index@[id] as int].id == id by {
                if id != landmark.id {
                    assert(old(self).index@.contains_key(id));
                }
            }
            assert forall|i: int|
                #![trigger self.landmarks@[i]]
                0 <= i < self.landmarks@.len() implies self.index@.contains_key(
                self.landmarks@[i].id,
            ) && self.index@[self.landmarks@[i].id] == i by {
                if i < old(self).landmarks@.len() {
                    assert(old(self).index@.contains_key(old(self).landmarks@[i].id));
                }
            }
        }
    }

    /// Count landmark `id` as an inlier of `frame`.
    pub fn observe(&mut self, id: u64, frame: u64)
        requires
            old(self).wf(),
        ensures
            final(self).wf(),
            final(self)@ == with_sighting(old(self)@, id, frame),
    {
        proof {
            self.lemma_place(id);
        }
        let known: Option<usize> = match self.index.get(&id) {
            Some(i) => Some(*i),
            None => None,
        };
        if let Some(i) = known {
            let l: LocalLandmark<X> = self.landmarks[i];
            let observations: u32 = if l.observations == u32::MAX {
                l.observations
            } else {
                l.observations + 1
            };
            self.landmarks[i] = LocalLandmark { id: l.id, position: l.position, observations };
            self.last_seen[i] = frame;
            proof {
                assert(self@ =~= with_sighting(old(self)@, id, frame));
                assert forall|k: int|
                    #![trigger self.landmarks@[k]]
                    0 <= k < self.landmarks@.len() implies self.index@.contains_key(
                    self.landmarks@[k].id,
                ) && self.index@[self.landmarks@[k].id] == k by {
                    assert(old(self).index@.contains_key(old(self).landmarks@[k].id));
                }
            }
        }
    }

    /// Move landmark `id`.
    pub fn set_position(&mut self, id: u64, position: X)
        requires
            old(self).wf(),
        ensures
            final(self).wf(),
            final(self)@ == with_position(old(self)@, id, position),
    {
        proof {
            self.lemma_place(id);
        }
        let known: Option<usize> = match self.index.get(&id) {
            Some(i) => Some(*i),
            None => None,
        };
        if let Some(i) = known {
            let l: LocalLandmark<X> = self.landmarks[i];
            self.landmarks[i] = LocalLandmark { id: l.id, position, observations: l.observations };
            proof {
                assert(self@ =~= with_position(old(self)@, id, position));
                assert forall|k: int|
                    #![trigger self.landmarks@[k]]
                    0 <= k < self.landmarks@.len() implies self.index@.contains_key(
                    self.landmarks@[k].id,
                ) && self.index@[self.landmarks@[k].id] == k by {
                    assert(old(self).index@.contains_key(old(self).landmarks@[k].id));
                }
            }
        }
    }

    /// Forget everything.
    pub fn clear(&mut self)
        ensures
            final(self).wf(),
            final(self)@ == Seq::<Entry<X>>::empty(),
    {
        self.landmarks.clear();
        self.last_seen.clear();
        self.index.clear();
        assert(self@ =~= Seq::<Entry<X>>::empty());
    }
}

/// `fresh` lists the positions of the fresh entries, in order.
spec fn lists_fresh<X>(entries: Seq<Entry<X>>, frame: u64, ttl: u64, fresh: Seq<usize>) -> bool {
    &&& forall|a: int|
        #![trigger fresh[a]]
        0 <= a < fresh.len() ==> fresh[a] < entries.len() && is_fresh(
            entries[fresh[a] as int],
            frame,
            ttl,
        )
    &&& forall|a: int, b: int|
        #![trigger fresh[a], fresh[b]]
        0 <= a < b < fresh.len() ==> fresh[a] < fresh[b]
    &&& forall|k: int|
        #![trigger entries[k]]
        0 <= k < entries.len() && is_fresh(entries[k], frame, ttl) ==> lists(fresh, k)
}

/// The sort key of an entry: the better the smaller.
spec fn keeping_key<X>(e: Entry<X>) -> SortKey {
    SortKey {
        major: (u64::MAX - e.landmark.observations) as u64,
        minor: (u64::MAX - e.last_seen) as u64,
        last: e.landmark.id,
    }
}

proof fn lemma_key_is_rank<X>(a: Entry<X>, b: Entry<X>)
    ensures
        key_less(keeping_key(a), keeping_key(b)) <==> outranks(a, b),
        keeping_key(a) == keeping_key(b) ==> a.landmark.id == b.landmark.id,
{
}

/// The `p`-th of the ranked fresh entries is outranked by exactly `p` of them.
proof fn lemma_rank_counts<X>(
    entries: Seq<Entry<X>>,
    frame: u64,
    ttl: u64,
    fresh: Seq<usize>,
    keys: Seq<SortKey>,
    order: Seq<usize>,
    p: int,
)
    requires
        ids_are_distinct(entries),
        lists_fresh(entries, frame, ttl, fresh),
        keys.len() == fresh.len(),
        forall|a: int|
            0 <= a < fresh.len() ==> #[trigger] keys[a] == keeping_key(entries[fresh[a] as int]),
        is_stable_order(keys, order),
        0 <= p < order.len(),
    ensures
        betters(entries, frame, ttl, fresh[order[p] as int] as int).finite(),
        betters(entries, frame, ttl, fresh[order[p] as int] as int).len() == p,
{
    let i = fresh[order[p] as int] as int;
    let f = |q: int| fresh[order[q] as int] as int;
    let all = vstd::set_lib::set_int_range(0, p);
    let better = betters(entries, frame, ttl, i);
    vstd::set_lib::lemma_int_range(0, p);
    assert(0 <= order[p] < fresh.len());
    assert(vstd::relations::injective_on(f, all)) by {
        assert forall|x1: int, x2: int|
            all.contains(x1) && all.contains(x2) && #[trigger] f(x1) == #[trigger] f(x2) implies x1
            == x2 by {
            assert(0 <= order[x1] < fresh.len() && 0 <= order[x2] < fresh.len());
            if order[x1] < order[x2] {
                assert(fresh[order[x1] as int] < fresh[order[x2] as int]);
            } else if order[x2] < order[x1] {
                assert(fresh[order[x2] as int] < fresh[order[x1] as int]);
            } else if x1 < x2 {
                assert(comes_before(keys, order[x1] as int, order[x2] as int));
            } else if x2 < x1 {
                assert(comes_before(keys, order[x2] as int, order[x1] as int));
            }
        }
    }
    assert forall|q: int| #[trigger] all.contains(q) implies better.contains(f(q)) by {
        let a = order[q] as int;
        let b = order[p] as int;
        assert(0 <= a < fresh.len());
        assert(comes_before(keys, a, b));
        lemma_key_is_rank(entries[fresh[a] as int], entries[fresh[b] as int]);
        if keys[a] == keys[b] {
            assert(fresh[a] < fresh[b]);
            assert(entries[fresh[a] as int].landmark.id != entries[fresh[b] as int].landmark.id);
        }
    }
    assert forall|k: int| better.contains(k) implies exists|q: int|
        all.contains(q) && #[trigger] f(q) == k by {
        assert(is_fresh(entries[k], frame, ttl));
        assert(lists(fresh, k));
        let a = choose|a: int| 0 <= a < fresh.len() && #[trigger] fresh[a] == k;
        assert(lists(order, a));
        let q = choose|q: int| 0 <= q < order.len() && #[trigger] order[q] == a;
        lemma_key_is_rank(entries[k], entries[i]);
        assert(key_less(keys[a], keys[order[p] as int]));
        if q > p {
            assert(comes_before(keys, order[p] as int, order[q] as int));
        }
        assert(q < p);
        assert(f(q) == k);
        assert(all.contains(q));
    }
    assert(all.map(f) =~= better) by {
        assert forall|k: int| all.map(f).contains(k) implies better.contains(k) by {
            let q = choose|q: int| all.contains(q) && f(q) == k;
            assert(better.contains(f(q)));
        }
        assert forall|k: int| better.contains(k) implies all.map(f).contains(k) by {
            let q = choose|q: int| all.contains(q) && #[trigger] f(q) == k;
            assert(all.contains(q) && f(q) == k);
        }
    }
    vstd::set_lib::lemma_map_size(all, better, f);
}

/// Fewer entries outrank a fresh entry than there are fresh entries.
proof fn lemma_few_betters<X>(
    entries: Seq<Entry<X>>,
    frame: u64,
    ttl: u64,
    fresh: Seq<usize>,
    i: int,
)
    requires
        lists_fresh(entries, frame, ttl, fresh),
        0 <= i < entries.len(),
        is_fresh(entries[i], frame, ttl),
    ensures
        betters(entries, frame, ttl, i).finite(),
        betters(entries, frame, ttl, i).len() < fresh.len(),
{
    let f = |q: int| fresh[q] as int;
    let all = vstd::set_lib::set_int_range(0, fresh.len() as int);
    let every = all.map(f);
    let better = betters(entries, frame, ttl, i);
    vstd::set_lib::lemma_int_range(0, fresh.len() as int);
    assert(vstd::relations::injective_on(f, all)) by {
        assert forall|x1: int, x2: int|
            all.contains(x1) && all.contains(x2) && #[trigger] f(x1) == #[trigger] f(x2) implies x1
            == x2 by {
            if x1 < x2 {
                assert(fresh[x1] < fresh[x2]);
            } else if x2 < x1 {
                assert(fresh[x2] < fresh[x1]);
            }
        }
    }
    vstd::set_lib::lemma_map_size(all, every, f);
    assert forall|k: int|
        0 <= k < entries.len() && is_fresh(#[trigger] entries[k], frame, ttl) implies every.contains(
        k,
    ) by {
        assert(lists(fresh, k));
        let a = choose|a: int| 0 <= a < fresh.len() && #[trigger] fresh[a] == k;
        assert(all.contains(a) && f(a) == k);
    }
    assert(every.contains(i));
    assert(better.subset_of(every.remove(i)));
    vstd::set_lib::lemma_len_subset(better, every.remove(i));
}

impl<X: Copy> LocalMap<X> {
    /// Which entries survive a cull.
    fn survivor_flags(&self, frame: u64, ttl: u64, capacity: usize) -> (flags: Vec<bool>)
        requires
            self.wf(),
        ensures
            flags@.len() == self@.len(),
            forall|i: int|
                0 <= i < flags@.len() ==> #[trigger] flags@[i] == survives(
                    self@,
                    frame,
                    ttl,
                    capacity,
                    i,
                ),
    {
        let ghost entries = self@;
        let n: usize = self.landmarks.len();
        let mut fresh: Vec<usize> = Vec::new();
        let mut i: usize = 0;
        while i < n
            invariant
                self.wf(),
                entries == self@,
                n == entries.len(),
                i <= n,
                forall|a: int|
                    #![trigger fresh@[a]]
                    0 <= a < fresh@.len() ==> fresh@[a] < i && is_fresh(
                        entries[fresh@[a] as int],
                        frame,
                        ttl,
                    ),
                forall|a: int, b: int|
                    #![trigger fresh@[a], fresh@[b]]
                    0 <= a < b < fresh@.len() ==> fresh@[a] < fresh@[b],
                forall|k: int|
                    #![trigger entries[k]]
                    0 <= k < i && is_fresh(entries[k], frame, ttl) ==> lists(fresh@, k),
            decreases n - i,
        {
            let seen: u64 = self.last_seen[i];
            let ghost before = fresh@;
            assert(entries[i as int].last_seen == seen);
            if seen >= frame || frame - seen <= ttl {
                fresh.push(i);
                proof {
                    assert(fresh@[before.len() as int] == i);
                    assert forall|k: int|
                        #![trigger entries[k]]
                        0 <= k < i + 1 && is_fresh(entries[k], frame, ttl) implies lists(
                        fresh@,
                        k,
                    ) by {
                        if k < i {
                            assert(lists(before, k));
                            let a = choose|a: int|
                                0 <= a < before.len() && #[trigger] before[a] == k;
                            assert(fresh@[a] == k);
                        }
                    }
                }
            }
            i = i + 1;
        }
        let mut flags: Vec<bool> = vec![false; n];
        if fresh.len() <= capacity {
            let mut a: usize = 0;
            while a < fresh.len()
                invariant
                    n == entries.len(),
                    lists_fresh(entries, frame, ttl, fresh@),
                    a <= fresh@.len(),
                    flags@.len() == n,
                    forall|k: int| #![trigger flags@[k]] 0 <= k < n && flags@[k] ==> is_fresh(entries[k], frame, ttl),
                    forall|c: int| 0 <= c < a ==> flags@[#[trigger] fresh@[c] as int],
                decreases fresh@.len() - a,
            {
                let k: usize = fresh[a];
                flags[k] = true;
                a = a + 1;
            }
            proof {
                assert forall|k: int| 0 <= k < n implies #[trigger] flags@[k] == survives(
                    entries,
                    frame,
                    ttl,
                    capacity,
                    k,
                ) by {
                    if is_fresh(entries[k], frame, ttl) {
                        lemma_few_betters(entries, frame, ttl, fresh@, k);
                        assert(lists(fresh@, k));
                    }
                }
            }
        } else {
            proof {
                self.lemma_ids_are_distinct();
            }
            let mut keys: Vec<SortKey> = Vec::new();
            let mut b: usize = 0;
            while b < fresh.len()
                invariant
                    self.wf(),
                    entries == self@,
                    lists_fresh(entries, frame, ttl, fresh@),
                    b <= fresh@.len(),
                    keys@.len() == b,
                    forall|c: int|
                        0 <= c < b ==> #[trigger] keys@[c] == keeping_key(
                            entries[fresh@[c] as int],
                        ),
                decreases fresh@.len() - b,
            {
                let k: usize = fresh[b];
                let l: LocalLandmark<X> = self.landmarks[k];
                assert(entries[k as int].landmark == l);
                keys.push(
                    SortKey {
                        major: 0xffff_ffff_ffff_ffffu64 - (l.observations as u64),
                        minor: 0xffff_ffff_ffff_ffffu64 - self.last_seen[k],
                        last: l.id,
                    },
                );
                b = b + 1;
            }
            let order: Vec<usize> = stable_order(&keys);
            let mut p: usize = 0;
            while p < capacity
                invariant
                    n == entries.len(),
                    lists_fresh(entries, frame, ttl, fresh@),
                    capacity < fresh@.len(),
                    keys@.len() == fresh@.len(),
                    is_stable_order(keys@, order@),
                    p <= capacity,
                    flags@.len() == n,
                    forall|k: int|
                        #![trigger flags@[k]]
                        0 <= k < n ==> (flags@[k] <==> exists|q: int|
                            0 <= q < p && #[trigger] fresh@[order@[q] as int] == k),
                decreases capacity - p,
            {
                assert(0 <= order@[p as int] < fresh@.len());
                let k: usize = fresh[order[p]];
                let ghost before = flags@;
                flags[k] = true;
                proof {
                    assert forall|j: int| #![trigger flags@[j]] 0 <= j < n implies (flags@[j]
                        <==> exists|q: int|
                        0 <= q < p + 1 && #[trigger] fresh@[order@[q] as int] == j) by {
                        if j == k {
                            assert(fresh@[order@[p as int] as int] == j);
                        } else {
                            assert(flags@[j] == before[j]);
                        }
                    }
                }
                p = p + 1;
            }
            proof {
                assert forall|k: int| 0 <= k < n implies #[trigger] flags@[k] == survives(
                    entries,
                    frame,
                    ttl,
                    capacity,
                    k,
                ) by {
                    if flags@[k] {
                        let q = choose|q: int|
                            0 <= q < capacity && #[trigger] fresh@[order@[q] as int] == k;
                        assert(0 <= order@[q] < fresh@.len());
                        lemma_rank_counts(entries, frame, ttl, fresh@, keys@, order@, q);
                    } else if is_fresh(entries[k], frame, ttl) {
                        assert(lists(fresh@, k));
                        let a = choose|a: int| 0 <= a < fresh@.len() && #[trigger] fresh@[a] == k;
                        assert(lists(order@, a));
                        let q = choose|q: int| 0 <= q < order@.len() && #[trigger] order@[q] == a;
                        assert(fresh@[order@[q] as int] == k);
                        lemma_rank_counts(entries, frame, ttl, fresh@, keys@, order@, q);
                    }
                }
            }
        }
        flags
    }

    /// Drop the landmarks unobserved for `ttl` frames, then the weakest until at
    /// most `capacity` remain.
    pub fn cull(&mut self, frame: u64, ttl: u64, capacity: usize)
        requires
            old(self).wf(),
        ensures
            final(self).wf(),
            final(self)@ == culled(old(self)@, frame, ttl, capacity),
    {
        let flags: Vec<bool> = self.survivor_flags(frame, ttl, capacity);
        let ghost entries = self@;
        proof {
            self.lemma_ids_are_distinct();
        }
        let n: usize = self.landmarks.len();
        let mut landmarks: Vec<LocalLandmark<X>> = Vec::new();
        let mut last_seen: Vec<u64> = Vec::new();
        let mut index: HashMap<u64, usize> = HashMap::new();
        let ghost mut kept: Seq<Entry<X>> = seq![];
        let mut i: usize = 0;
        while i < n
            invariant
                self.wf(),
                entries == self@,
                ids_are_distinct(entries),
                n == entries.len(),
                flags@.len() == n,
                forall|k: int|
                    0 <= k < n ==> #[trigger] flags@[k] == survives(
                        entries,
                        frame,
                        ttl,
                        capacity,
                        k,
                    ),
                i <= n,
                landmarks@.len() == last_seen@.len(),
                kept == survivors(entries, frame, ttl, capacity, i as nat),
                kept.len() == landmarks@.len(),
                forall|k: int|
                    0 <= k < kept.len() ==> #[trigger] kept[k] == (Entry {
                        landmark: landmarks@[k],
                        last_seen: last_seen@[k],
                    }),
                forall|k: int|
                    #![trigger landmarks@[k]]
                    0 <= k < landmarks@.len() ==> index@.contains_key(landmarks@[k].id)
                        && index@[landmarks@[k].id] == k && exists|j: int|
                        0 <= j < i && #[trigger] entries[j].landmark.id == landmarks@[k].id,
                forall|id: u64| #[trigger]
                    index@.contains_key(id) ==> index@[id] < landmarks@.len()
                        && landmarks@[index@[id] as int].id == id,
            decreases n - i,
        {
            if flags[i] {
                let l: LocalLandmark<X> = self.landmarks[i];
                let at: usize = landmarks.len();
                let ghost before = landmarks@;
                let ghost map_before = index@;
                proof {
                    assert(entries[i as int].landmark == l);
                    if index@.contains_key(l.id) {
                        let k = index@[l.id] as int;
                        assert(landmarks@[k].id == l.id);
                        let j = choose|j: int|
                            0 <= j < i && #[trigger] entries[j].landmark.id == landmarks@[k].id;
                        assert(entries[j].landmark.id != entries[i as int].landmark.id);
                    }
                }
                index.insert(l.id, at);
                landmarks.push(l);
                last_seen.push(self.last_seen[i]);
                proof {
                    kept = kept.push(entries[i as int]);
                    assert forall|k: int|
                        #![trigger landmarks@[k]]
                        0 <= k < landmarks@.len() implies index@.contains_key(landmarks@[k].id)
                        && index@[landmarks@[k].id] == k && exists|j: int|
                        0 <= j < i + 1 && #[trigger] entries[j].landmark.id
                            == landmarks@[k].id by {
                        if k < before.len() {
                            assert(before[k] == landmarks@[k]);
                            assert(map_before.contains_key(before[k].id));
                            let j = choose|j: int|
                                0 <= j < i && #[trigger] entries[j].landmark.id == before[k].id;
                            assert(entries[j].landmark.id == landmarks@[k].id);
                        } else {
                            assert(entries[i as int].landmark.id == landmarks@[k].id);
                        }
                    }
                    assert forall|id: u64| #[trigger] index@.contains_key(id) implies index@[id]
                        < landmarks@.len() && landmarks@[index@[id] as int].id == id by {
                        if id != l.id {
                            assert(map_before.contains_key(id));
                        }
                    }
                }
            } else {
                proof {
                    assert forall|k: int|
                        #![trigger landmarks@[k]]
                        0 <= k < landmarks@.len() implies index@.contains_key(landmarks@[k].id)
                        && index@[landmarks@[k].id] == k && exists|j: int|
                        0 <= j < i + 1 && #[trigger] entries[j].landmark.id
                            == landmarks@[k].id by {
                        let j = choose|j: int|
                            0 <= j < i && #[trigger] entries[j].landmark.id == landmarks@[k].id;
                        assert(entries[j].landmark.id == landmarks@[k].id);
                    }
                }
            }
            i = i + 1;
        }
        self.landmarks = landmarks;
        self.last_seen = last_seen;
        self.index = index;
        assert(self@ =~= culled(entries, frame, ttl, capacity));
    }
}

/// The fresh entries that outrank an entry are finitely many.
proof fn lemma_betters_finite<X>(entries: Seq<Entry<X>>, frame: u64, ttl: u64, i: int)
    ensures
        betters(entries, frame, ttl, i).finite(),
{
    let all = vstd::set_lib::set_int_range(0, entries.len() as int);
    vstd::set_lib::lemma_int_range(0, entries.len() as int);
    assert(betters(entries, frame, ttl, i).subset_of(all));
    vstd::set_lib::lemma_set_subset_finite(all, betters(entries, frame, ttl, i));
}

/// A better entry is outranked by fewer.
proof fn lemma_better_is_outranked_less<X>(
    entries: Seq<Entry<X>>,
    frame: u64,
    ttl: u64,
    a: int,
    b: int,
)
    requires
        0 <= a < entries.len(),
        0 <= b < entries.len(),
        is_fresh(entries[a], frame, ttl),
        outranks(entries[a], entries[b]),
    ensures
        betters(entries, frame, ttl, a).len() < betters(entries, frame, ttl, b).len(),
{
    let sa = betters(entries, frame, ttl, a);
    let sb = betters(entries, frame, ttl, b);
    lemma_betters_finite(entries, frame, ttl, a);
    lemma_betters_finite(entries, frame, ttl, b);
    assert(!sa.contains(a));
    assert(sa.insert(a).subset_of(sb));
    vstd::set_lib::lemma_len_subset(sa.insert(a), sb);
}

/// A cull keeps the best: whatever survives outranks every fresh entry that
/// does not.
pub proof fn law_cull_keeps_the_best<X>(
    entries: Seq<Entry<X>>,
    frame: u64,
    ttl: u64,
    capacity: usize,
    i: int,
    j: int,
)
    requires
        ids_are_distinct(entries),
        0 <= i < entries.len(),
        0 <= j < entries.len(),
        survives(entries, frame, ttl, capacity, i),
        is_fresh(entries[j], frame, ttl),
        !survives(entries, frame, ttl, capacity, j),
    ensures
        outranks(entries[i], entries[j]),
{
    if i < j {
        assert(entries[i].landmark.id != entries[j].landmark.id);
    } else if j < i {
        assert(entries[j].landmark.id != entries[i].landmark.id);
    }
    if !outranks(entries[i], entries[j]) {
        assert(outranks(entries[j], entries[i]));
        lemma_better_is_outranked_less(entries, frame, ttl, j, i);
    }
}

/// The positions below `n` that survive.
spec fn surviving<X>(
    entries: Seq<Entry<X>>,
    frame: u64,
    ttl: u64,
    capacity: usize,
    n: int,
) -> Set<int> {
    Set::new(|i: int| 0 <= i < n && survives(entries, frame, ttl, capacity, i))
}

proof fn lemma_survivors_counted<X>(
    entries: Seq<Entry<X>>,
    frame: u64,
    ttl: u64,
    capacity: usize,
    n: nat,
)
    ensures
        surviving(entries, frame, ttl, capacity, n as int).finite(),
        surviving(entries, frame, ttl, capacity, n as int).len() == survivors(
            entries,
            frame,
            ttl,
            capacity,
            n,
        ).len(),
    decreases n,
{
    let now = surviving(entries, frame, ttl, capacity, n as int);
    if n == 0 {
        assert(now =~= Set::empty());
    } else {
        lemma_survivors_counted(entries, frame, ttl, capacity, (n - 1) as nat);
        let before = surviving(entries, frame, ttl, capacity, n - 1);
        if survives(entries, frame, ttl, capacity, n - 1) {
            assert(now =~= before.insert(n - 1));
        } else {
            assert(now =~= before);
        }
    }
}

/// A cull bounds the map: at most `capacity` landmarks are left.
pub proof fn law_cull_bounds_the_map<X>(
    entries: Seq<Entry<X>>,
    frame: u64,
    ttl: u64,
    capacity: usize,
)
    requires
        ids_are_distinct(entries),
    ensures
        culled(entries, frame, ttl, capacity).len() <= capacity,
{
    let n = entries.len() as int;
    let s = surviving(entries, frame, ttl, capacity, n);
    let rank = |i: int| betters(entries, frame, ttl, i).len() as int;
    let ranks = s.map(rank);
    let all = vstd::set_lib::set_int_range(0, capacity as int);
    lemma_survivors_counted(entries, frame, ttl, capacity, entries.len());
    assert(vstd::relations::injective_on(rank, s)) by {
        assert forall|x1: int, x2: int|
            s.contains(x1) && s.contains(x2) && #[trigger] rank(x1) == #[trigger] rank(
                x2,
            ) implies x1 == x2 by {
            if x1 < x2 {
                assert(entries[x1].landmark.id != entries[x2].landmark.id);
            } else if x2 < x1 {
                assert(entries[x2].landmark.id != entries[x1].landmark.id);
            }
            if x1 != x2 {
                if outranks(entries[x1], entries[x2]) {
                    lemma_better_is_outranked_less(entries, frame, ttl, x1, x2);
                } else {
                    lemma_better_is_outranked_less(entries, frame, ttl, x2, x1);
                }
            }
        }
    }
    vstd::set_lib::lemma_map_size(s, ranks, rank);
    vstd::set_lib::lemma_int_range(0, capacity as int);
    assert(ranks.subset_of(all)) by {
        assert forall|r: int| ranks.contains(r) implies all.contains(r) by {
            let i = choose|i: int| s.contains(i) && rank(i) == r;
            assert(s.contains(i));
        }
    }
    vstd::set_lib::lemma_len_subset(ranks, all);
}

/// A cull drops landmarks and changes none: every entry that is left was there.
pub proof fn law_cull_changes_no_landmark<X>(
    entries: Seq<Entry<X>>,
    frame: u64,
    ttl: u64,
    capacity: usize,
    n: nat,
    k: int,
)
    requires
        n <= entries.len(),
        0 <= k < survivors(entries, frame, ttl, capacity, n).len(),
    ensures
        exists|i: int|
            0 <= i < n && survives(entries, frame, ttl, capacity, i) && #[trigger] entries[i]
                == survivors(entries, frame, ttl, capacity, n)[k],
    decreases n,
{
    let before = survivors(entries, frame, ttl, capacity, (n - 1) as nat);
    if k < before.len() {
        law_cull_changes_no_landmark(entries, frame, ttl, capacity, (n - 1) as nat, k);
        let i = choose|i: int|
            0 <= i < n - 1 && survives(entries, frame, ttl, capacity, i) && #[trigger] entries[i]
                == before[k];
        assert(entries[i] == survivors(entries, frame, ttl, capacity, n)[k]);
    } else {
        assert(entries[n - 1] == survivors(entries, frame, ttl, capacity, n)[k]);
    }
}

/// A landmark that was put in is found under its id, as it was put in.
pub proof fn law_inserted_landmark_is_found<X>(
    entries: Seq<Entry<X>>,
    landmark: LocalLandmark<X>,
    frame: u64,
)
    requires
        ids_are_distinct(entries),
    ensures
        ({
            let after = with_landmark(entries, landmark, frame);
            &&& ids_are_distinct(after)
            &&& knows(after, landmark.id)
            &&& after[place_of(after, landmark.id)] == (Entry { landmark, last_seen: frame })
        }),
{
    let after = with_landmark(entries, landmark, frame);
    if knows(entries, landmark.id) {
        let p = place_of(entries, landmark.id);
        assert(is_at(entries, landmark.id, p));
        assert(is_at(after, landmark.id, p));
        assert forall|i: int, j: int|
            #![trigger after[i], after[j]]
            0 <= i < j < after.len() implies after[i].landmark.id != after[j].landmark.id by {
            assert(entries[i].landmark.id != entries[j].landmark.id);
        }
        let q = place_of(after, landmark.id);
        assert(is_at(after, landmark.id, q));
        if q < p {
            assert(after[q].landmark.id != after[p].landmark.id);
        } else if p < q {
            assert(after[p].landmark.id != after[q].landmark.id);
        }
    } else {
        let p = entries.len() as int;
        assert(is_at(after, landmark.id, p));
        assert forall|i: int, j: int|
            #![trigger after[i], after[j]]
            0 <= i < j < after.len() implies after[i].landmark.id != after[j].landmark.id by {
            if j == p {
                assert(!is_at(entries, landmark.id, i));
            } else {
                assert(entries[i].landmark.id != entries[j].landmark.id);
            }
        }
        let q = place_of(after, landmark.id);
        assert(is_at(after, landmark.id, q));
        if q < p {
            assert(after[q].landmark.id != after[p].landmark.id);
        }
    }
}

proof fn lemma_ranks_are_injective<X>(entries: Seq<Entry<X>>, frame: u64, ttl: u64, s: Set<int>)
    requires
        ids_are_distinct(entries),
        forall|i: int|
            s.contains(i) ==> 0 <= i < entries.len() && is_fresh(#[trigger] entries[i], frame, ttl),
    ensures
        vstd::relations::injective_on(|i: int| betters(entries, frame, ttl, i).len() as int, s),
{
    let rank = |i: int| betters(entries, frame, ttl, i).len() as int;
    assert forall|x1: int, x2: int|
        s.contains(x1) && s.contains(x2) && #[trigger] rank(x1) == #[trigger] rank(
            x2,
        ) implies x1 == x2 by {
        assert(is_fresh(entries[x1], frame, ttl) && is_fresh(entries[x2], frame, ttl));
        if x1 < x2 {
            assert(entries[x1].landmark.id != entries[x2].landmark.id);
        } else if x2 < x1 {
            assert(entries[x2].landmark.id != entries[x1].landmark.id);
        }
        if x1 != x2 {
            if outranks(entries[x1], entries[x2]) {
                lemma_better_is_outranked_less(entries, frame, ttl, x1, x2);
            } else {
                lemma_better_is_outranked_less(entries, frame, ttl, x2, x1);
            }
        }
    }
}

/// A cull keeps as many landmarks as it may: all that were seen recently, and where
/// those are more than the capacity, exactly as many as that.
pub proof fn law_cull_keeps_as_many_as_it_may<X>(
    entries: Seq<Entry<X>>,
    frame: u64,
    ttl: u64,
    capacity: usize,
)
    requires
        ids_are_distinct(entries),
    ensures
        ({
            let recent = vstd::set_lib::set_int_range(0, entries.len() as int).filter(
                |i: int| frame <= entries[i].last_seen + ttl,
            ).len();
            culled(entries, frame, ttl, capacity).len() == (if recent < capacity {
                recent
            } else {
                capacity as nat
            })
        }),
{
    let n = entries.len() as int;
    let all = vstd::set_lib::set_int_range(0, n);
    let p = |i: int| frame <= entries[i].last_seen + ttl;
    let f = all.filter(p);
    let s = surviving(entries, frame, ttl, capacity, n);
    let rank = |i: int| betters(entries, frame, ttl, i).len() as int;
    vstd::set_lib::lemma_int_range(0, n);
    vstd::set_lib::lemma_len_subset(f, all);
    lemma_survivors_counted(entries, frame, ttl, capacity, entries.len());
    law_cull_bounds_the_map(entries, frame, ttl, capacity);
    assert(s.subset_of(f));
    vstd::set_lib::lemma_len_subset(s, f);
    let rest = f.difference(s);
    let m = f.len() as int;
    lemma_ranks_are_injective(entries, frame, ttl, rest);
    let ranks = rest.map(rank);
    vstd::set_lib::lemma_len_subset(rest, f);
    vstd::set_lib::lemma_map_size(rest, ranks, rank);
    let top = if capacity <= m {
        m
    } else {
        capacity as int
    };
    let room = vstd::set_lib::set_int_range(capacity as int, top);
    vstd::set_lib::lemma_int_range(capacity as int, top);
    assert(ranks.subset_of(room)) by {
        assert forall|r: int| ranks.contains(r) implies room.contains(r) by {
            let i = choose|i: int| rest.contains(i) && rank(i) == r;
            let better = betters(entries, frame, ttl, i);
            assert(better.subset_of(f.remove(i)));
            vstd::set_lib::lemma_len_subset(better, f.remove(i));
            assert(!survives(entries, frame, ttl, capacity, i));
        }
    }
    vstd::set_lib::lemma_len_subset(ranks, room);
    assert(f =~= s.union(rest));
    vstd::set_lib::lemma_set_disjoint_lens(s, rest);
}

proof fn lemma_kept_is_there<X>(
    entries: Seq<Entry<X>>,
    frame: u64,
    ttl: u64,
    capacity: usize,
    n: nat,
    i: int,
)
    requires
        ids_are_distinct(entries),
        n <= entries.len(),
        0 <= i < n,
    ensures
        survivors(entries, frame, ttl, capacity, n).contains(entries[i]) <==> survives(
            entries,
            frame,
            ttl,
            capacity,
            i,
        ),
    decreases n,
{
    let now = survivors(entries, frame, ttl, capacity, n);
    let before = survivors(entries, frame, ttl, capacity, (n - 1) as nat);
    if now.contains(entries[i]) {
        let k = choose|k: int| 0 <= k < now.len() && now[k] == entries[i];
        law_cull_changes_no_landmark(entries, frame, ttl, capacity, n, k);
        let j = choose|j: int|
            0 <= j < n && survives(entries, frame, ttl, capacity, j) && #[trigger] entries[j]
                == now[k];
        if i < j {
            assert(entries[i].landmark.id != entries[j].landmark.id);
        } else if j < i {
            assert(entries[j].landmark.id != entries[i].landmark.id);
        }
    }
    if survives(entries, frame, ttl, capacity, i) {
        if i == n - 1 {
            assert(now[before.len() as int] == entries[i]);
        } else {
            lemma_kept_is_there(entries, frame, ttl, capacity, (n - 1) as nat, i);
            let k = choose|k: int| 0 <= k < before.len() && before[k] == entries[i];
            assert(now[k] == entries[i]);
        }
    }
}

/// What a cull keeps was seen recently, and is better than anything recent that it
/// drops: seen in more frames, or as often and later, or as often and as late under a
/// lower id.
pub proof fn law_cull_prefers_what_is_seen_most<X>(
    entries: Seq<Entry<X>>,
    frame: u64,
    ttl: u64,
    capacity: usize,
    i: int,
    j: int,
)
    requires
        ids_are_distinct(entries),
        0 <= i < entries.len(),
        0 <= j < entries.len(),
        culled(entries, frame, ttl, capacity).contains(entries[i]),
    ensures
        frame <= entries[i].last_seen + ttl,
        frame <= entries[j].last_seen + ttl && !culled(entries, frame, ttl, capacity).contains(
            entries[j],
        ) ==> {
            let (a, b) = (entries[i], entries[j]);
            &&& a.landmark.observations >= b.landmark.observations
            &&& a.landmark.observations == b.landmark.observations ==> a.last_seen >= b.last_seen
            &&& a.landmark.observations == b.landmark.observations && a.last_seen == b.last_seen
                ==> a.landmark.id < b.landmark.id
        },
{
    lemma_kept_is_there(entries, frame, ttl, capacity, entries.len(), i);
    lemma_kept_is_there(entries, frame, ttl, capacity, entries.len(), j);
    if is_fresh(entries[j], frame, ttl) && !survives(entries, frame, ttl, capacity, j) {
        law_cull_keeps_the_best(entries, frame, ttl, capacity, i, j);
    }
}

proof fn lemma_survivors_in_order<X>(
    entries: Seq<Entry<X>>,
    frame: u64,
    ttl: u64,
    capacity: usize,
    n: nat,
    a: int,
    b: int,
)
    requires
        n <= entries.len(),
        0 <= a < b < survivors(entries, frame, ttl, capacity, n).len(),
    ensures
        exists|i: int, j: int|
            #![trigger entries[i], entries[j]]
            0 <= i < j < n && entries[i] == survivors(entries, frame, ttl, capacity, n)[a]
                && entries[j] == survivors(entries, frame, ttl, capacity, n)[b],
    decreases n,
{
    let now = survivors(entries, frame, ttl, capacity, n);
    let before = survivors(entries, frame, ttl, capacity, (n - 1) as nat);
    if b < before.len() {
        lemma_survivors_in_order(entries, frame, ttl, capacity, (n - 1) as nat, a, b);
        let (i, j) = choose|i: int, j: int|
            #![trigger entries[i], entries[j]]
            0 <= i < j < n - 1 && entries[i] == before[a] && entries[j] == before[b];
        assert(entries[i] == now[a] && entries[j] == now[b]);
    } else {
        law_cull_changes_no_landmark(entries, frame, ttl, capacity, (n - 1) as nat, a);
        let i = choose|i: int|
            0 <= i < n - 1 && survives(entries, frame, ttl, capacity, i) && #[trigger] entries[i]
                == before[a];
        assert(entries[i] == now[a] && entries[n - 1] == now[b]);
    }
}

/// A cull keeps the order of what it keeps.
pub proof fn law_cull_keeps_the_order<X>(
    entries: Seq<Entry<X>>,
    frame: u64,
    ttl: u64,
    capacity: usize,
    a: int,
    b: int,
)
    requires
        0 <= a < b < culled(entries, frame, ttl, capacity).len(),
    ensures
        exists|i: int, j: int|
            #![trigger entries[i], entries[j]]
            0 <= i < j < entries.len() && entries[i] == culled(entries, frame, ttl, capacity)[a]
                && entries[j] == culled(entries, frame, ttl, capacity)[b],
{
    lemma_survivors_in_order(entries, frame, ttl, capacity, entries.len(), a, b);
}

/// Putting a landmark in touches no other: one that is new goes to the end, one that is
/// known takes the place of its namesake, and all others stay where and as they are.
pub proof fn law_insertion_touches_one_landmark<X>(
    entries: Seq<Entry<X>>,
    landmark: LocalLandmark<X>,
    frame: u64,
    i: int,
)
    requires
        0 <= i < entries.len(),
        ids_are_distinct(entries),
    ensures
        ({
            let after = with_landmark(entries, landmark, frame);
            let known = exists|j: int|
                0 <= j < entries.len() && (#[trigger] entries[j]).landmark.id == landmark.id;
            &&& known ==> after.len() == entries.len()
            &&& !known ==> after.len() == entries.len() + 1 && after.last() == (Entry {
                landmark,
                last_seen: frame,
            })
            &&& entries[i].landmark.id != landmark.id ==> after[i] == entries[i]
            &&& entries[i].landmark.id == landmark.id ==> after[i] == (Entry {
                landmark,
                last_seen: frame,
            })
        }),
{
    let id = landmark.id;
    if knows(entries, id) {
        let at = place_of(entries, id);
        assert(is_at(entries, id, at));
        assert(entries[at].landmark.id == id);
        if at < i {
            assert(entries[at].landmark.id != entries[i].landmark.id);
        } else if i < at {
            assert(entries[i].landmark.id != entries[at].landmark.id);
        }
    } else if exists|j: int|
        0 <= j < entries.len() && (#[trigger] entries[j]).landmark.id == id {
        let j = choose|j: int| 0 <= j < entries.len() && (#[trigger] entries[j]).landmark.id == id;
        assert(is_at(entries, id, j));
    }
    if entries[i].landmark.id == id {
        assert(is_at(entries, id, i));
    }
}

/// A sighting counts one more for its landmark, until the count is full, and makes this
/// the frame in which it was last seen; moving a landmark changes its place alone.
/// Neither touches another landmark, nor does anything for an id that is not known.
pub proof fn law_sighting_and_moving_touch_one_landmark<X>(
    entries: Seq<Entry<X>>,
    id: u64,
    frame: u64,
    position: X,
    i: int,
)
    requires
        0 <= i < entries.len(),
        ids_are_distinct(entries),
    ensures
        ({
            let e = entries[i];
            let seen = with_sighting(entries, id, frame);
            let moved = with_position(entries, id, position);
            &&& seen.len() == entries.len() && moved.len() == entries.len()
            &&& e.landmark.id != id ==> seen[i] == e && moved[i] == e
            &&& e.landmark.id == id ==> {
                &&& seen[i].last_seen == frame
                &&& seen[i].landmark.id == id && seen[i].landmark.position == e.landmark.position
                &&& e.landmark.observations < u32::MAX ==> seen[i].landmark.observations
                    == e.landmark.observations + 1
                &&& e.landmark.observations == u32::MAX ==> seen[i].landmark.observations
                    == u32::MAX
                &&& moved[i].landmark.position == position
                &&& moved[i].landmark.id == id && moved[i].last_seen == e.last_seen
                &&& moved[i].landmark.observations == e.landmark.observations
            }
        }),
{
    if knows(entries, id) {
        let at = place_of(entries, id);
        assert(is_at(entries, id, at));
        if at < i {
            assert(entries[at].landmark.id != entries[i].landmark.id);
        } else if i < at {
            assert(entries[i].landmark.id != entries[at].landmark.id);
        }
    }
    if entries[i].landmark.id == id {
        assert(is_at(entries, id, i));
    }
}

/// Counting up adds one, as long as there is a number for it, and never takes anything
/// away.
pub proof fn law_count_never_falls(n: u32)
    ensures
        counted_up(n) >= n,
        n < u32::MAX ==> counted_up(n) == n + 1,
        counted_up(u32::MAX) == u32::MAX,
{
}

} // verus!
