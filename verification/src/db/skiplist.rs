//! An ordered set of keys kept as a skip list: every node sits on the bottom list, and
//! some nodes also on sparser lists above it, which searches use to skip ahead.
//!
//! Nodes live in vectors and refer to each other by index; node 0 is the head, which
//! holds no key and stands on every level.
use crate::util::comparator::{Comparator, KeyOrder};
use crate::util::random::{next_seed, Random};
use vstd::prelude::*;

verus! {

/// The number of levels.
pub const MAX_HEIGHT: usize = 12;

/// One node in this many stands one level higher than the level below it.
pub const BRANCHING: u32 = 4;

/// `keys` is strictly increasing under `C`.
pub open spec fn strictly_sorted<C: Comparator>(keys: Seq<Seq<u8>>) -> bool {
    forall|a: int, b: int|
        0 <= a < b < keys.len() ==> #[trigger] C::order_spec(keys[a], keys[b]) == KeyOrder::Less
}

/// `k` is where `target` belongs in `keys`: every key before position `k` sorts below
/// `target`, and none from `k` on does.
pub open spec fn is_lower_bound<C: Comparator>(keys: Seq<Seq<u8>>, target: Seq<u8>, k: int) -> bool {
    &&& 0 <= k <= keys.len()
    &&& forall|i: int| 0 <= i < k ==> #[trigger] C::order_spec(keys[i], target) == KeyOrder::Less
    &&& forall|i: int|
        k <= i < keys.len() ==> #[trigger] C::order_spec(keys[i], target) != KeyOrder::Less
}

/// Where a seek for `target` stops in sorted, accepted `keys`: at a key exactly when some
/// key is not below `target`, and then at the least such key.
pub proof fn lemma_lower_bound_least<C: Comparator>(keys: Seq<Seq<u8>>, target: Seq<u8>, k: int)
    requires
        strictly_sorted::<C>(keys),
        forall|i: int| 0 <= i < keys.len() ==> C::accepts(#[trigger] keys[i]),
        C::accepts(target),
        is_lower_bound::<C>(keys, target, k),
    ensures
        (k < keys.len()) == (exists|i: int|
            0 <= i < keys.len() && #[trigger] C::order_spec(keys[i], target) != KeyOrder::Less),
        k < keys.len() ==> forall|j: int|
            0 <= j < keys.len() && #[trigger] C::order_spec(keys[j], target) != KeyOrder::Less
                ==> C::order_spec(keys[j], keys[k]) != KeyOrder::Less,
{
    if k < keys.len() {
        assert(C::order_spec(keys[k], target) != KeyOrder::Less);
        assert forall|j: int|
            0 <= j < keys.len() && #[trigger] C::order_spec(keys[j], target) != KeyOrder::Less
                implies C::order_spec(keys[j], keys[k]) != KeyOrder::Less by {
            if j == k {
                C::lemma_order_reflexive(keys[k]);
            } else {
                assert(j > k);
                assert(C::order_spec(keys[k], keys[j]) == KeyOrder::Less);
                C::lemma_order_antisymmetric(keys[k], keys[j]);
            }
        }
    }
}

/// The last of sorted, accepted `keys` is the greatest: no key sorts after it.
pub proof fn lemma_last_greatest<C: Comparator>(keys: Seq<Seq<u8>>)
    requires
        strictly_sorted::<C>(keys),
        forall|i: int| 0 <= i < keys.len() ==> C::accepts(#[trigger] keys[i]),
        keys.len() > 0,
    ensures
        forall|i: int|
            0 <= i < keys.len() ==> #[trigger] C::order_spec(keys[i], keys[keys.len() - 1])
                != KeyOrder::Greater,
{
    assert forall|i: int| 0 <= i < keys.len() implies #[trigger] C::order_spec(keys[i], keys[keys.len() - 1])
        != KeyOrder::Greater by {
        if i == keys.len() - 1 {
            C::lemma_order_reflexive(keys[i]);
        } else {
            assert(C::order_spec(keys[i], keys[keys.len() - 1]) == KeyOrder::Less);
        }
    }
}

/// Some key of `keys` compares equal to `target`.
pub open spec fn has_equal<C: Comparator>(keys: Seq<Seq<u8>>, target: Seq<u8>) -> bool {
    exists|i: int| 0 <= i < keys.len() && #[trigger] C::order_spec(keys[i], target) == KeyOrder::Equal
}

/// The link at `level` of node `n` in a flat table of links, `MAX_HEIGHT` per node.
pub open spec fn flat_link(links: Seq<Option<usize>>, n: int, level: int) -> Option<usize> {
    links[n * MAX_HEIGHT + level]
}

/// The height reached from `height` with the generator at `seed`, and the seed after:
/// while below `MAX_HEIGHT`, the next number is drawn, and the height goes up by one when
/// it is a multiple of `BRANCHING`; the first other number ends the climb.
pub open spec fn height_from(seed: u32, height: nat) -> (nat, u32)
    decreases MAX_HEIGHT - height,
{
    if height >= MAX_HEIGHT {
        (height, seed)
    } else {
        let s = next_seed(seed);
        if s % BRANCHING == 0 {
            height_from(s, height + 1)
        } else {
            (height, s)
        }
    }
}

/// A height for a new node: one, raised by one level at a time with chance
/// 1/`BRANCHING` each, up to `MAX_HEIGHT`.
fn random_height(rnd: &mut Random) -> (h: usize)
    requires
        old(rnd).wf(),
    ensures
        final(rnd).wf(),
        1 <= h <= MAX_HEIGHT,
        (h as nat, final(rnd).spec_seed()) == height_from(old(rnd).spec_seed(), 1),
{
    let mut height: usize = 1;
    while height < MAX_HEIGHT && rnd.one_in(BRANCHING)
        invariant
            rnd.wf(),
            1 <= height <= MAX_HEIGHT,
            height_from(rnd.spec_seed(), height as nat) == height_from(old(rnd).spec_seed(), 1),
        decreases MAX_HEIGHT - height,
    {
        height = height + 1;
    }
    height
}

/// `n * MAX_HEIGHT + level` is the flat position of one node's link on one level only.
proof fn lemma_flat_index(n: int, level: int, m: int, lm: int)
    by (nonlinear_arith)
    requires
        0 <= level < MAX_HEIGHT,
        0 <= lm < MAX_HEIGHT,
        n * MAX_HEIGHT + level == m * MAX_HEIGHT + lm,
    ensures
        n == m,
        level == lm,
{
}

/// A skip list of byte-string keys, ordered by `C`.
pub struct SkipList<C: Comparator> {
    keys: Vec<Vec<u8>>,
    heights: Vec<usize>,
    links: Vec<Option<usize>>,
    max_height: usize,
    compare: C,
    rnd: Random,
    order: Ghost<Seq<usize>>,
    rank: Ghost<Seq<int>>,
}

impl<C: Comparator> View for SkipList<C> {
    type V = Seq<Seq<u8>>;

    /// The keys in list order.
    closed spec fn view(&self) -> Seq<Seq<u8>> {
        self.order@.map_values(|n: usize| self.keys@[n as int]@)
    }
}

impl<C: Comparator> SkipList<C> {
    spec fn node_count(&self) -> int {
        self.keys@.len() as int
    }

    spec fn key_of(&self, n: int) -> Seq<u8> {
        self.keys@[n]@
    }

    spec fn link(&self, n: int, level: int) -> Option<usize> {
        flat_link(self.links@, n, level)
    }

    /// Node `x` is the head or sorts below `target`, stands on `level`, and its successor
    /// there, if any, does not sort below `target`.
    spec fn is_predecessor(&self, x: int, level: int, target: Seq<u8>) -> bool {
        &&& 0 <= x < self.node_count()
        &&& 0 <= level < self.heights@[x]
        &&& (x == 0 || C::order_spec(self.key_of(x), target) == KeyOrder::Less)
        &&& match self.link(x, level) {
            Some(m) => C::order_spec(self.key_of(m as int), target) != KeyOrder::Less,
            None => true,
        }
    }

    spec fn links_forward(&self) -> bool {
        forall|n: int, level: int|
            0 <= n < self.node_count() && 0 <= level < self.heights@[n]
                ==> match #[trigger] self.link(n, level) {
                Some(m) => 1 <= m < self.node_count() && self.rank@[n] < self.rank@[m as int]
                    && level < self.heights@[m as int],
                None => true,
            }
    }

    spec fn bottom_chain(&self) -> bool {
        forall|n: int|
            0 <= n < self.node_count() ==> #[trigger] self.link(n, 0) == (if self.rank@[n] + 1
                < self.order@.len() {
                Some(self.order@[self.rank@[n] + 1])
            } else {
                None
            })
    }

    /// The list's internal invariant.
    pub closed spec fn wf(&self) -> bool {
        let n = self.node_count();
        &&& n >= 1
        &&& self.heights@.len() == n
        &&& self.links@.len() == n * MAX_HEIGHT
        &&& self.links@.len() <= usize::MAX
        &&& self.heights@[0] == MAX_HEIGHT
        &&& 1 <= self.max_height <= MAX_HEIGHT
        &&& self.rnd.wf()
        &&& forall|i: int| 1 <= i < n ==> 1 <= #[trigger] self.heights@[i] <= MAX_HEIGHT
        &&& forall|i: int| 1 <= i < n ==> C::accepts(#[trigger] self.keys@[i]@)
        &&& self.order@.len() == n - 1
        &&& self.rank@.len() == n
        &&& self.rank@[0] == -1
        &&& forall|j: int|
            0 <= j < self.order@.len() ==> 1 <= #[trigger] self.order@[j] < n && self.rank@[
                self.order@[j] as int
            ] == j
        &&& forall|i: int|
            1 <= i < n ==> 0 <= #[trigger] self.rank@[i] < self.order@.len() && self.order@[
                self.rank@[i]
            ] == i
        &&& strictly_sorted::<C>(self@)
        &&& self.bottom_chain()
        &&& self.links_forward()
        &&& forall|level: int| self.max_height <= level < MAX_HEIGHT ==> #[trigger] self.link(0, level) is None
    }

    proof fn lemma_view(&self)
        requires
            self.wf(),
        ensures
            self@.len() == self.order@.len(),
            forall|j: int| 0 <= j < self@.len() ==> #[trigger] self@[j] == self.key_of(self.order@[j] as int),
            forall|i: int| 1 <= i < self.node_count() ==> #[trigger] self@[self.rank@[i]] == self.key_of(i),
    {
    }

    /// Where the keys sorting below `target` end, told by a node: `x` is the head or sorts
    /// below `target`, and the node after it does not.
    proof fn lemma_lower_bound(&self, x: int, target: Seq<u8>)
        requires
            self.wf(),
            C::accepts(target),
            self.is_predecessor(x, 0, target),
        ensures
            is_lower_bound::<C>(self@, target, self.rank@[x] + 1),
    {
        self.lemma_view();
        let k = self.rank@[x] + 1;
        let v = self@;
        assert(0 <= k <= v.len()) by {
            if x != 0 {
                assert(0 <= self.rank@[x] < self.order@.len());
            }
        }
        assert forall|i: int| 0 <= i < k implies #[trigger] C::order_spec(v[i], target)
            == KeyOrder::Less by {
            if i < k - 1 {
                assert(C::order_spec(v[i], v[k - 1]) == KeyOrder::Less);
                assert(v[k - 1] == self.key_of(x));
                C::lemma_order_transitive(v[i], v[k - 1], target);
            } else {
                assert(v[k - 1] == self.key_of(x));
            }
        }
        assert forall|i: int| k <= i < v.len() implies #[trigger] C::order_spec(v[i], target)
            != KeyOrder::Less by {
            assert(self.link(x, 0) == Some(self.order@[k]));
            assert(v[k] == self.key_of(self.order@[k] as int));
            if i > k && C::order_spec(v[i], target) == KeyOrder::Less {
                assert(C::order_spec(v[k], v[i]) == KeyOrder::Less);
                C::lemma_order_transitive(v[k], v[i], target);
            }
        }
    }

    /// A new, empty list ordered by `compare`.
    pub fn new(compare: C) -> (r: Self)
        ensures
            r.wf(),
            r@ == Seq::<Seq<u8>>::empty(),
    {
        let mut links: Vec<Option<usize>> = Vec::new();
        let mut i: usize = 0;
        while i < MAX_HEIGHT
            invariant
                i <= MAX_HEIGHT,
                links@.len() == i,
                forall|j: int| 0 <= j < i ==> links@[j] is None,
            decreases MAX_HEIGHT - i,
        {
            links.push(None);
            i = i + 1;
        }
        let mut keys: Vec<Vec<u8>> = Vec::new();
        keys.push(Vec::new());
        let mut heights: Vec<usize> = Vec::new();
        heights.push(MAX_HEIGHT);
        let r = SkipList {
            keys,
            heights,
            links,
            max_height: 1,
            compare,
            rnd: Random::new(0xdeadbeef),
            order: Ghost(Seq::empty()),
            rank: Ghost(Seq::<int>::empty().push(-1int)),
        };
        assert(r@ =~= Seq::<Seq<u8>>::empty());
        assert forall|level: int| 0 <= level < MAX_HEIGHT implies #[trigger] r.link(0, level) is None by {
            assert(r.links@[level] is None);
        }
        r
    }

    /// Descends from the top level to the bottom; ends at the last node that sorts below
    /// `target` (or the head), and records for every level the node where the descent
    /// left that level (the head for levels above the list's height).
    fn find_position(&self, target: &[u8]) -> (r: (usize, Vec<usize>))
        requires
            self.wf(),
            C::accepts(target@),
        ensures
            self.is_predecessor(r.0 as int, 0, target@),
            r.1@.len() == MAX_HEIGHT,
            forall|level: int|
                0 <= level < MAX_HEIGHT ==> self.is_predecessor(#[trigger] r.1@[level] as int, level, target@),
    {
        let mut prev: Vec<usize> = Vec::new();
        let mut i: usize = 0;
        while i < MAX_HEIGHT
            invariant
                self.wf(),
                i <= MAX_HEIGHT,
                prev@.len() == i,
                forall|j: int| 0 <= j < i ==> prev@[j] == 0,
            decreases MAX_HEIGHT - i,
        {
            prev.push(0);
            i = i + 1;
        }
        let mut x: usize = 0;
        let mut level: usize = self.max_height - 1;
        loop
            invariant
                self.wf(),
                C::accepts(target@),
                level < self.max_height,
                0 <= x < self.node_count(),
                level < self.heights@[x as int],
                x == 0 || C::order_spec(self.key_of(x as int), target@) == KeyOrder::Less,
                prev@.len() == MAX_HEIGHT,
                forall|l: int|
                    level < l < MAX_HEIGHT ==> self.is_predecessor(#[trigger] prev@[l] as int, l, target@),
                forall|l: int| self.max_height <= l < MAX_HEIGHT ==> #[trigger] prev@[l] == 0,
            decreases level, self.node_count() - self.rank@[x as int],
        {
            proof {
                assert(self.link(x as int, level as int) == self.links@[x * MAX_HEIGHT + level]);
                if x != 0 {
                    assert(0 <= self.rank@[x as int]);
                }
            }
            let next = self.links[x * MAX_HEIGHT + level];
            let after = match next {
                Some(m) => self.compare.compare(self.keys[m].as_slice(), target) == KeyOrder::Less,
                None => false,
            };
            if after {
                let m = next.unwrap();
                proof {
                    assert(self.rank@[m as int] < self.order@.len());
                }
                x = m;
            } else {
                prev.set(level, x);
                if level == 0 {
                    return (x, prev);
                }
                level = level - 1;
            }
        }
    }

    /// The first node whose key does not sort below `key`, if any.
    fn find_greater_or_equal(&self, key: &[u8]) -> (r: Option<usize>)
        requires
            self.wf(),
            C::accepts(key@),
        ensures
            exists|k: int|
                is_lower_bound::<C>(self@, key@, k) && r == (if k < self@.len() {
                    Some(self.order@[k])
                } else {
                    None
                }),
    {
        let (x, _prev) = self.find_position(key);
        proof {
            self.lemma_lower_bound(x as int, key@);
            self.lemma_view();
            assert(self.link(x as int, 0) == self.links@[x * MAX_HEIGHT + 0]);
        }
        self.links[x * MAX_HEIGHT]
    }

    /// The last node whose key sorts below `key`, or the head.
    fn find_less_than(&self, key: &[u8]) -> (r: usize)
        requires
            self.wf(),
            C::accepts(key@),
        ensures
            0 <= r < self.node_count(),
            is_lower_bound::<C>(self@, key@, self.rank@[r as int] + 1),
    {
        let (x, _prev) = self.find_position(key);
        proof {
            self.lemma_lower_bound(x as int, key@);
        }
        x
    }

    /// The last node, or the head when the list is empty.
    fn find_last(&self) -> (r: usize)
        requires
            self.wf(),
        ensures
            0 <= r < self.node_count(),
            self.rank@[r as int] + 1 == self@.len(),
    {
        let mut x: usize = 0;
        let mut level: usize = self.max_height - 1;
        loop
            invariant
                self.wf(),
                level < self.max_height,
                0 <= x < self.node_count(),
                level < self.heights@[x as int],
            decreases level, self.node_count() - self.rank@[x as int],
        {
            proof {
                assert(self.link(x as int, level as int) == self.links@[x * MAX_HEIGHT + level]);
                if x != 0 {
                    assert(0 <= self.rank@[x as int]);
                }
            }
            let next = self.links[x * MAX_HEIGHT + level];
            match next {
                Some(m) => {
                    proof {
                        assert(self.rank@[m as int] < self.order@.len());
                    }
                    x = m;
                },
                None => {
                    if level == 0 {
                        proof {
                            self.lemma_view();
                            assert(self.link(x as int, 0) is None);
                            if x != 0 {
                                assert(0 <= self.rank@[x as int] < self.order@.len());
                            }
                        }
                        return x;
                    }
                    level = level - 1;
                },
            }
        }
    }

    /// Adds `key`, which must not compare equal to any key already in the list.
    pub fn insert(&mut self, key: Vec<u8>)
        requires
            old(self).wf(),
            C::accepts(key@),
            !has_equal::<C>(old(self)@, key@),
            old(self)@.len() + 3 <= usize::MAX / MAX_HEIGHT,
        ensures
            final(self).wf(),
            exists|k: int|
                is_lower_bound::<C>(old(self)@, key@, k) && final(self)@ == old(self)@.insert(
                    k,
                    key@,
                ),
    {
        let (x, prev) = self.find_position(key.as_slice());
        proof {
            self.lemma_lower_bound(x as int, key@);
            self.lemma_view();
        }
        let ghost k = self.rank@[x as int] + 1;
        let ghost old_list = *self;
        let height = random_height(&mut self.rnd);
        if height > self.max_height {
            self.max_height = height;
        }
        let new_node = self.keys.len();
        self.keys.push(key);
        self.heights.push(height);
        let ghost keys_now = self.keys;
        let ghost heights_now = self.heights;
        let ghost max_now = self.max_height;
        let ghost rnd_now = self.rnd;
        assert(keys_now@ == old_list.keys@.push(keys_now@[new_node as int]));
        let mut i: usize = 0;
        while i < MAX_HEIGHT
            invariant
                self.keys == keys_now,
                self.heights == heights_now,
                self.max_height == max_now,
                self.rnd == rnd_now,
                self.order == old_list.order,
                self.rank == old_list.rank,
                i <= MAX_HEIGHT,
                self.links@.len() == new_node * MAX_HEIGHT + i,
                forall|j: int| 0 <= j < new_node * MAX_HEIGHT ==> self.links@[j] == old_list.links@[j],
                forall|j: int| new_node * MAX_HEIGHT <= j < self.links@.len() ==> self.links@[j] is None,
                new_node == old_list.keys@.len(),
                old_list.links@.len() == new_node * MAX_HEIGHT,
                new_node + 2 <= usize::MAX / MAX_HEIGHT,
            decreases MAX_HEIGHT - i,
        {
            self.links.push(None);
            i = i + 1;
        }
        let ghost fresh = self.links@;
        assert(fresh.len() <= usize::MAX) by (nonlinear_arith)
            requires
                fresh.len() == (new_node + 1) * MAX_HEIGHT,
                new_node + 2 <= usize::MAX / MAX_HEIGHT,
        ;
        let mut l: usize = 0;
        while l < height
            invariant
                self.keys == keys_now,
                self.heights == heights_now,
                self.max_height == max_now,
                self.rnd == rnd_now,
                self.order == old_list.order,
                self.rank == old_list.rank,
                0 <= l <= height <= MAX_HEIGHT,
                new_node == old_list.keys@.len(),
                new_node + 2 <= usize::MAX / MAX_HEIGHT,
                self.links@.len() == fresh.len(),
                fresh.len() == (new_node + 1) * MAX_HEIGHT,
                fresh.len() <= usize::MAX,
                forall|j: int| 0 <= j < new_node * MAX_HEIGHT ==> fresh[j] == old_list.links@[j],
                forall|j: int| new_node * MAX_HEIGHT <= j < fresh.len() ==> fresh[j] is None,
                prev@.len() == MAX_HEIGHT,
                forall|level: int|
                    0 <= level < MAX_HEIGHT ==> old_list.is_predecessor(#[trigger] prev@[level] as int, level, key@),
                forall|n: int, level: int|
                    0 <= n <= new_node && 0 <= level < MAX_HEIGHT ==> #[trigger] flat_link(
                        self.links@,
                        n,
                        level,
                    ) == if n == new_node && level < l {
                        flat_link(fresh, prev@[level] as int, level)
                    } else if n != new_node && level < l && n == prev@[level] {
                        Some(new_node)
                    } else {
                        flat_link(fresh, n, level)
                    },
            decreases height - l,
        {
            let p = prev[l];
            proof {
                assert(flat_link(self.links@, p as int, l as int) == flat_link(fresh, p as int, l as int));
            }
            let old_next = self.links[p * MAX_HEIGHT + l];
            let ghost before = self.links@;
            self.links.set(new_node * MAX_HEIGHT + l, old_next);
            self.links.set(p * MAX_HEIGHT + l, Some(new_node));
            proof {
                assert forall|n: int, level: int|
                    0 <= n <= new_node && 0 <= level < MAX_HEIGHT implies #[trigger] flat_link(
                        self.links@,
                        n,
                        level,
                    ) == if n == new_node && level < l + 1 {
                        flat_link(fresh, prev@[level] as int, level)
                    } else if n != new_node && level < l + 1 && n == prev@[level] {
                        Some(new_node)
                    } else {
                        flat_link(fresh, n, level)
                    } by {
                    if n * MAX_HEIGHT + level == p * MAX_HEIGHT + l {
                        lemma_flat_index(n, level, p as int, l as int);
                    } else if n * MAX_HEIGHT + level == new_node * MAX_HEIGHT + l {
                        lemma_flat_index(n, level, new_node as int, l as int);
                    } else {
                        assert(flat_link(self.links@, n, level) == flat_link(before, n, level));
                        if level == l {
                            assert(n != new_node);
                            assert(n != prev@[level]);
                        }
                    }
                }
            }
            l = l + 1;
        }
        proof {
            let n_old = old_list.node_count();
            assert forall|n: int, level: int|
                0 <= n <= n_old && 0 <= level < MAX_HEIGHT implies #[trigger] flat_link(
                    self.links@,
                    n,
                    level,
                ) == if n == n_old && level < height {
                    old_list.link(prev@[level] as int, level)
                } else if n != n_old && level < height && n == prev@[level] {
                    Some(n_old as usize)
                } else if n == n_old {
                    None
                } else {
                    old_list.link(n, level)
                } by {
                if n < n_old {
                    assert(flat_link(fresh, n, level) == old_list.link(n, level));
                } else {
                    assert(flat_link(fresh, n, level) is None);
                }
                if level < height {
                    assert(flat_link(fresh, prev@[level] as int, level) == old_list.link(prev@[level] as int, level));
                }
            }
            self.order@ = old_list.order@.insert(k, new_node);
            self.rank@ = Seq::new(
                (n_old + 1) as nat,
                |i: int|
                    if i == n_old {
                        k
                    } else if old_list.rank@[i] >= k {
                        old_list.rank@[i] + 1
                    } else {
                        old_list.rank@[i]
                    },
            );
            self.lemma_insert_wf(old_list, key@, x as int, prev@, height as int, k, new_node);
        }
    }

    /// Whether some key in the list compares equal to `key`.
    pub fn contains(&self, key: &[u8]) -> (r: bool)
        requires
            self.wf(),
            C::accepts(key@),
        ensures
            r == has_equal::<C>(self@, key@),
    {
        let x = self.find_greater_or_equal(key);
        let ghost v = self@;
        let ghost k = choose|k: int|
            is_lower_bound::<C>(v, key@, k) && x == (if k < v.len() {
                Some(self.order@[k])
            } else {
                None
            });
        proof {
            self.lemma_view();
        }
        match x {
            Some(m) => {
                let r = self.compare.compare(key, self.keys[m].as_slice()) == KeyOrder::Equal;
                proof {
                    assert(v[k] == self.key_of(m as int));
                    C::lemma_order_antisymmetric(key@, v[k]);
                    if !r {
                        self.lemma_no_equal_from(k, key@);
                    }
                }
                r
            },
            None => {
                proof {
                    self.lemma_no_equal_from(k, key@);
                }
                false
            },
        }
    }

    /// When `k` is where `target` belongs and the key at `k`, if any, does not compare
    /// equal to it, no key does.
    proof fn lemma_no_equal_from(&self, k: int, target: Seq<u8>)
        requires
            self.wf(),
            C::accepts(target),
            is_lower_bound::<C>(self@, target, k),
            k < self@.len() ==> C::order_spec(self@[k], target) != KeyOrder::Equal,
        ensures
            !has_equal::<C>(self@, target),
    {
        self.lemma_view();
        let v = self@;
        assert forall|i: int| 0 <= i < v.len() implies #[trigger] C::order_spec(v[i], target)
            != KeyOrder::Equal by {
            if i > k {
                assert(C::order_spec(v[k], v[i]) == KeyOrder::Less);
                if C::order_spec(v[i], target) == KeyOrder::Equal {
                    C::lemma_order_transitive(v[k], v[i], target);
                }
            }
        }
    }

    /// An iterator over the list, not yet positioned.
    pub fn iter(&self) -> (r: Iterator<'_, C>)
        requires
            self.wf(),
        ensures
            r.wf(),
            r.keys() == self@,
            r.index() == self@.len(),
    {
        Iterator { list: self, node: None }
    }

    proof fn lemma_insert_wf(
        &self,
        old_list: Self,
        key: Seq<u8>,
        x: int,
        prev: Seq<usize>,
        height: int,
        k: int,
        new_node: usize,
    )
        requires
            new_node == old_list.node_count(),
            old_list.wf(),
            C::accepts(key),
            !has_equal::<C>(old_list@, key),
            old_list.is_predecessor(x, 0, key),
            k == old_list.rank@[x] + 1,
            is_lower_bound::<C>(old_list@, key, k),
            prev.len() == MAX_HEIGHT,
            forall|level: int|
                0 <= level < MAX_HEIGHT ==> old_list.is_predecessor(#[trigger] prev[level] as int, level, key),
            1 <= height <= MAX_HEIGHT,
            self.keys@ == old_list.keys@.push(self.keys@[old_list.node_count()]),
            self.keys@[old_list.node_count()]@ == key,
            self.heights@ == old_list.heights@.push(height as usize),
            self.max_height == if height > old_list.max_height {
                height as usize
            } else {
                old_list.max_height
            },
            self.rnd.wf(),
            self.links@.len() == (old_list.node_count() + 1) * MAX_HEIGHT,
            self.links@.len() <= usize::MAX,
            forall|n: int, level: int|
                0 <= n <= old_list.node_count() && 0 <= level < MAX_HEIGHT ==> #[trigger] flat_link(
                    self.links@,
                    n,
                    level,
                ) == if n == old_list.node_count() && level < height {
                    old_list.link(prev[level] as int, level)
                } else if n != old_list.node_count() && level < height && n == prev[level] {
                    Some(new_node)
                } else if n == old_list.node_count() {
                    None
                } else {
                    old_list.link(n, level)
                },
            self.order@ == old_list.order@.insert(k, old_list.node_count() as usize),
            self.rank@ == Seq::new(
                (old_list.node_count() + 1) as nat,
                |i: int|
                    if i == old_list.node_count() {
                        k
                    } else if old_list.rank@[i] >= k {
                        old_list.rank@[i] + 1
                    } else {
                        old_list.rank@[i]
                    },
            ),
        ensures
            self.wf(),
            self@ == old_list@.insert(k, key),
    {
        let n = old_list.node_count();
        let ov = old_list@;
        old_list.lemma_view();
        // Which old nodes sort below the new key.
        assert forall|i: int| 0 <= i < n implies (old_list.rank@[i] < k) == (i == 0 || C::order_spec(
            old_list.key_of(i),
            key,
        ) == KeyOrder::Less) by {
            if i >= 1 {
                assert(ov[old_list.rank@[i]] == old_list.key_of(i));
            }
        }
        // The view.
        assert(self.order@.len() == n);
        assert forall|j: int| 0 <= j < n implies #[trigger] self@[j] == ov.insert(k, key)[j] by {
            if j < k {
                assert(self.order@[j] == old_list.order@[j]);
            } else if j == k {
                assert(self.order@[j] == new_node);
            } else {
                assert(self.order@[j] == old_list.order@[j - 1]);
            }
        }
        assert(self@ =~= ov.insert(k, key));
        // Ranks and order agree.
        assert forall|j: int| 0 <= j < self.order@.len() implies 1 <= #[trigger] self.order@[j] < n + 1
            && self.rank@[self.order@[j] as int] == j by {
            if j < k {
                assert(self.order@[j] == old_list.order@[j]);
            } else if j > k {
                assert(self.order@[j] == old_list.order@[j - 1]);
            }
        }
        assert forall|i: int| 1 <= i < n + 1 implies 0 <= #[trigger] self.rank@[i] < self.order@.len()
            && self.order@[self.rank@[i]] == i by {
            if i < n {
                let r = old_list.rank@[i];
                assert(0 <= r < old_list.order@.len());
                assert(old_list.order@[r] == i);
            }
        }
        // Sorted.
        assert forall|a: int, b: int| 0 <= a < b < self@.len() implies #[trigger] C::order_spec(
            self@[a],
            self@[b],
        ) == KeyOrder::Less by {
            let v = self@;
            if b < k {
                assert(v[a] == ov[a] && v[b] == ov[b]);
            } else if b == k {
                assert(v[a] == ov[a] && v[b] == key);
            } else if a == k {
                assert(v[a] == key && v[b] == ov[b - 1]);
                assert(C::order_spec(ov[b - 1], key) != KeyOrder::Less);
                if C::order_spec(ov[b - 1], key) == KeyOrder::Equal {
                    assert(has_equal::<C>(ov, key));
                }
                C::lemma_order_antisymmetric(ov[b - 1], key);
            } else if a < k {
                assert(v[a] == ov[a] && v[b] == ov[b - 1]);
            } else {
                assert(v[a] == ov[a - 1] && v[b] == ov[b - 1]);
            }
        }
        // The predecessor on the bottom level is `x`.
        assert(prev[0] as int == x) by {
            old_list.lemma_lower_bound(prev[0] as int, key);
            let p0 = prev[0] as int;
            if old_list.rank@[p0] + 1 < k {
                assert(C::order_spec(ov[old_list.rank@[p0] + 1], key) != KeyOrder::Less);
            } else if old_list.rank@[p0] + 1 > k {
                assert(C::order_spec(ov[k], key) != KeyOrder::Less);
            }
            if p0 != x {
                if p0 >= 1 && x >= 1 {
                    assert(old_list.order@[old_list.rank@[p0]] == p0);
                    assert(old_list.order@[old_list.rank@[x]] == x);
                } else if p0 >= 1 {
                    assert(0 <= old_list.rank@[p0]);
                } else {
                    assert(0 <= old_list.rank@[x]);
                }
            }
        }
        // Bottom chain.
        assert forall|m: int| 0 <= m < n + 1 implies #[trigger] self.link(m, 0) == (if self.rank@[m] + 1
            < self.order@.len() {
            Some(self.order@[self.rank@[m] + 1])
        } else {
            None
        }) by {
            assert(old_list.link(m, 0) == flat_link(old_list.links@, m, 0));
            if m == n {
                assert(old_list.link(x, 0) == (if k < old_list.order@.len() {
                    Some(old_list.order@[k])
                } else {
                    None
                }));
            } else if m == x {
            } else {
                let r = old_list.rank@[m];
                if m >= 1 {
                    assert(0 <= r < old_list.order@.len());
                    assert(old_list.order@[r] == m);
                    assert(r != k - 1) by {
                        assert(old_list.order@[old_list.rank@[x]] == x || x == 0);
                        if x == 0 {
                            assert(k == 0);
                        }
                    }
                } else {
                    assert(k != 0);
                }
            }
        }
        // Forward links.
        assert forall|m: int, level: int|
            0 <= m < n + 1 && 0 <= level < self.heights@[m] implies match #[trigger] self.link(
            m,
            level,
        ) {
            Some(t) => 1 <= t < n + 1 && self.rank@[m] < self.rank@[t as int] && level
                < self.heights@[t as int],
            None => true,
        } by {
            if m == n {
                let p = prev[level] as int;
                assert(old_list.is_predecessor(p, level, key));
                assert(old_list.link(p, level) == flat_link(old_list.links@, p, level));
                match old_list.link(p, level) {
                    Some(t) => {
                        assert(1 <= t < n);
                        assert(level < old_list.heights@[t as int]);
                    },
                    None => {},
                }
            } else if level < height && m == prev[level] {
                assert(old_list.is_predecessor(m, level, key));
            } else {
                assert(old_list.link(m, level) == flat_link(old_list.links@, m, level));
                assert(self.heights@[m] == old_list.heights@[m]);
            }
        }
        // Levels above the height stay empty at the head.
        assert forall|level: int| self.max_height <= level < MAX_HEIGHT implies #[trigger] self.link(
            0,
            level,
        ) is None by {
            assert(old_list.link(0, level) == flat_link(old_list.links@, 0, level));
        }
        assert forall|i: int| 1 <= i < n + 1 implies 1 <= #[trigger] self.heights@[i] <= MAX_HEIGHT by {
            if i < n {
                assert(self.heights@[i] == old_list.heights@[i]);
            }
        }
        assert forall|i: int| 1 <= i < n + 1 implies C::accepts(#[trigger] self.keys@[i]@) by {
            if i < n {
                assert(self.keys@[i] == old_list.keys@[i]);
            }
        }
        assert(self.heights@[0] == MAX_HEIGHT);
        assert(self.rank@[0] == -1);
        assert(strictly_sorted::<C>(self@));
        assert(self.bottom_chain());
        assert(self.links_forward());
    }
}

/// After `key` is added where it belongs, a key compares equal to some key of the list
/// exactly when it did before or it compares equal to `key`; and the list stays strictly
/// sorted when `key` compared equal to none of it.
pub proof fn lemma_insert_contents<C: Comparator>(
    before: Seq<Seq<u8>>,
    key: Seq<u8>,
    k: int,
    probe: Seq<u8>,
)
    requires
        is_lower_bound::<C>(before, key, k),
    ensures
        has_equal::<C>(before.insert(k, key), probe) == (has_equal::<C>(before, probe)
            || C::order_spec(key, probe) == KeyOrder::Equal),
{
    let after = before.insert(k, key);
    if has_equal::<C>(before, probe) {
        let i = choose|i: int| 0 <= i < before.len() && #[trigger] C::order_spec(before[i], probe) == KeyOrder::Equal;
        if i < k {
            assert(after[i] == before[i]);
        } else {
            assert(after[i + 1] == before[i]);
        }
    }
    if C::order_spec(key, probe) == KeyOrder::Equal {
        assert(after[k] == key);
    }
    if has_equal::<C>(after, probe) {
        let i = choose|i: int| 0 <= i < after.len() && #[trigger] C::order_spec(after[i], probe) == KeyOrder::Equal;
        if i < k {
            assert(after[i] == before[i]);
        } else if i > k {
            assert(after[i] == before[i - 1]);
        }
    }
}

impl<C: Comparator> SkipList<C> {
    /// The keys of a list are strictly increasing.
    pub proof fn lemma_keys_sorted(&self)
        requires
            self.wf(),
        ensures
            strictly_sorted::<C>(self@),
            forall|i: int| 0 <= i < self@.len() ==> C::accepts(#[trigger] self@[i]),
    {
        assert forall|i: int| 0 <= i < self@.len() implies C::accepts(#[trigger] self@[i]) by {
            assert(self@[i] == self.keys@[self.order@[i] as int]@);
        }
    }
}

/// A position in a skip list.
pub struct Iterator<'a, C: Comparator> {
    list: &'a SkipList<C>,
    node: Option<usize>,
}

impl<'a, C: Comparator> Iterator<'a, C> {
    /// The keys of the list, in order.
    pub closed spec fn keys(&self) -> Seq<Seq<u8>> {
        self.list@
    }

    /// The position of the current key among `keys()`; their count when the iterator is not
    /// positioned.
    pub closed spec fn index(&self) -> int {
        match self.node {
            Some(m) => self.list.rank@[m as int],
            None => self.list@.len() as int,
        }
    }

    /// The iterator's internal invariant.
    pub closed spec fn wf(&self) -> bool {
        &&& self.list.wf()
        &&& match self.node {
            Some(m) => 1 <= m < self.list.node_count(),
            None => true,
        }
    }

    proof fn lemma_index(&self)
        requires
            self.wf(),
        ensures
            0 <= self.index() <= self.keys().len(),
            (self.index() < self.keys().len()) == (self.node is Some),
            self.node is Some ==> self.keys()[self.index()] == self.list.key_of(self.node->0 as int),
    {
        self.list.lemma_view();
    }

    /// The keys are in strictly increasing order and each is accepted by the comparator.
    pub proof fn lemma_iter_keys(&self)
        requires
            self.wf(),
        ensures
            strictly_sorted::<C>(self.keys()),
            forall|i: int| 0 <= i < self.keys().len() ==> C::accepts(#[trigger] self.keys()[i]),
    {
        self.list.lemma_keys_sorted();
    }

    /// The position lies within the keys, which are fewer than `usize::MAX`.
    pub proof fn lemma_position_bounds(&self)
        requires
            self.wf(),
        ensures
            0 <= self.index() <= self.keys().len(),
            self.keys().len() < usize::MAX,
    {
        self.lemma_index();
    }

    /// Whether the iterator is at a key.
    pub fn valid(&self) -> (r: bool)
        requires
            self.wf(),
        ensures
            r == (self.index() < self.keys().len()),
    {
        proof {
            self.lemma_index();
        }
        self.node.is_some()
    }

    /// The current key.
    pub fn key(&self) -> (r: &[u8])
        requires
            self.wf(),
            self.index() < self.keys().len(),
        ensures
            r@ == self.keys()[self.index()],
    {
        proof {
            self.lemma_index();
        }
        let m = self.node.unwrap();
        self.list.keys[m].as_slice()
    }

    /// Moves to the next key; past the last one the iterator is no longer positioned.
    pub fn next(&mut self)
        requires
            old(self).wf(),
            old(self).index() < old(self).keys().len(),
        ensures
            final(self).wf(),
            final(self).keys() == old(self).keys(),
            final(self).index() == old(self).index() + 1,
    {
        proof {
            self.lemma_index();
        }
        let m = self.node.unwrap();
        proof {
            assert(self.list.link(m as int, 0) == self.list.links@[m * MAX_HEIGHT + 0]);
        }
        self.node = self.list.links[m * MAX_HEIGHT];
        proof {
            self.list.lemma_view();
            let r = old(self).index();
            if r + 1 < self.list.order@.len() {
                assert(self.list.rank@[self.list.order@[r + 1] as int] == r + 1);
            }
        }
    }

    /// Moves to the key before the current one; before the first one the iterator is no
    /// longer positioned.
    pub fn prev(&mut self)
        requires
            old(self).wf(),
            old(self).index() < old(self).keys().len(),
        ensures
            final(self).wf(),
            final(self).keys() == old(self).keys(),
            final(self).index() == if old(self).index() == 0 {
                old(self).keys().len() as int
            } else {
                old(self).index() - 1
            },
    {
        proof {
            self.lemma_index();
        }
        let m = self.node.unwrap();
        let x = self.list.find_less_than(self.list.keys[m].as_slice());
        proof {
            let v = self.list@;
            let r = old(self).index();
            let k = self.list.rank@[x as int] + 1;
            C::lemma_order_reflexive(v[r]);
            if k < r {
                assert(C::order_spec(v[k], v[r]) == KeyOrder::Less);
            } else if k > r {
                assert(C::order_spec(v[r], v[r]) == KeyOrder::Less);
            }
            if x != 0 {
                assert(0 <= self.list.rank@[x as int]);
            }
        }
        if x == 0 {
            self.node = None;
        } else {
            self.node = Some(x);
        }
    }

    /// Moves to the first key that does not sort below `target`.
    pub fn seek(&mut self, target: &[u8])
        requires
            old(self).wf(),
            C::accepts(target@),
        ensures
            final(self).wf(),
            final(self).keys() == old(self).keys(),
            is_lower_bound::<C>(final(self).keys(), target@, final(self).index()),
    {
        let x = self.list.find_greater_or_equal(target);
        proof {
            self.list.lemma_view();
        }
        self.node = x;
    }

    /// Moves to the first key.
    pub fn seek_to_first(&mut self)
        requires
            old(self).wf(),
        ensures
            final(self).wf(),
            final(self).keys() == old(self).keys(),
            final(self).index() == 0,
    {
        proof {
            assert(self.list.link(0, 0) == self.list.links@[0 * MAX_HEIGHT + 0]);
            self.list.lemma_view();
        }
        self.node = self.list.links[0];
    }

    /// Moves to the last key.
    pub fn seek_to_last(&mut self)
        requires
            old(self).wf(),
        ensures
            final(self).wf(),
            final(self).keys() == old(self).keys(),
            final(self).index() == if old(self).keys().len() == 0 {
                0
            } else {
                old(self).keys().len() - 1
            },
    {
        let x = self.list.find_last();
        proof {
            self.list.lemma_view();
            if x != 0 {
                assert(0 <= self.list.rank@[x as int]);
            }
        }
        if x == 0 {
            self.node = None;
        } else {
            self.node = Some(x);
        }
    }
}

} // verus!
