//! Disjoint sets over `0..len` with path compression and union by rank.

use vstd::prelude::*;
use vstd::set_lib::{lemma_int_range, lemma_len_subset, set_int_range};

verus! {

/// The parent links form a forest: every link stays inside the structure,
/// and `depth` grows strictly along every link that is not a self-loop and
/// never exceeds `cap`.
pub open spec fn forest(parent: Seq<usize>, depth: Seq<nat>, cap: nat) -> bool {
    &&& depth.len() == parent.len()
    &&& forall|i: int| 0 <= i < parent.len() ==> (#[trigger] parent[i]) < parent.len()
    &&& forall|i: int| 0 <= i < depth.len() ==> (#[trigger] depth[i]) <= cap
    &&& forall|i: int|
        0 <= i < parent.len() && (#[trigger] parent[i]) != i ==> depth[i] < depth[parent[i] as int]
}

/// The element reached from `x` by following parent links to a self-loop.
pub open spec fn root_of(parent: Seq<usize>, depth: Seq<nat>, cap: nat, x: int) -> int
    decreases cap - depth[x],
    when forest(parent, depth, cap) && 0 <= x < parent.len()
{
    if parent[x] == x {
        x
    } else {
        root_of(parent, depth, cap, parent[x] as int)
    }
}

proof fn lemma_root(parent: Seq<usize>, depth: Seq<nat>, cap: nat, x: int)
    requires
        forest(parent, depth, cap),
        0 <= x < parent.len(),
    ensures
        0 <= root_of(parent, depth, cap, x) < parent.len(),
        parent[root_of(parent, depth, cap, x)] == root_of(parent, depth, cap, x),
        root_of(parent, depth, cap, root_of(parent, depth, cap, x)) == root_of(
            parent,
            depth,
            cap,
            x,
        ),
        depth[x] <= depth[root_of(parent, depth, cap, x)],
        parent[x] != x ==> depth[x] < depth[root_of(parent, depth, cap, x)],
    decreases cap - depth[x],
{
    assert(parent[x] < parent.len());
    if parent[x] != x {
        lemma_root(parent, depth, cap, parent[x] as int);
    }
}

proof fn lemma_compress_forest(parent: Seq<usize>, depth: Seq<nat>, cap: nat, x: int, r: usize)
    requires
        forest(parent, depth, cap),
        0 <= x < parent.len(),
        r == root_of(parent, depth, cap, x),
    ensures
        forest(parent.update(x, r), depth, cap),
{
    lemma_root(parent, depth, cap, x);
    let changed = parent.update(x, r);
    assert forall|i: int| 0 <= i < changed.len() implies (#[trigger] changed[i]) < changed.len() by {
        assert(parent[i] < parent.len());
    }
    assert forall|i: int| 0 <= i < changed.len() && (#[trigger] changed[i]) != i implies depth[i]
        < depth[changed[i] as int] by {
        assert(parent[i] < parent.len());
    }
}

proof fn lemma_compress_root(
    parent: Seq<usize>,
    depth: Seq<nat>,
    cap: nat,
    x: int,
    r: usize,
    i: int,
)
    requires
        forest(parent, depth, cap),
        0 <= x < parent.len(),
        0 <= i < parent.len(),
        r == root_of(parent, depth, cap, x),
        forest(parent.update(x, r), depth, cap),
    ensures
        root_of(parent.update(x, r), depth, cap, i) == root_of(parent, depth, cap, i),
    decreases cap - depth[i],
{
    let changed = parent.update(x, r);
    lemma_root(parent, depth, cap, x);
    assert(parent[i] < parent.len());
    if i == x {
        if r != x {
            assert(changed[r as int] == r);
            assert(root_of(changed, depth, cap, r as int) == r);
        }
    } else if parent[i] != i {
        lemma_compress_root(parent, depth, cap, x, r, parent[i] as int);
    }
}

/// The depths after the root `ry` is linked below the root `rx`.
pub open spec fn linked_depth(depth: Seq<nat>, rx: int, ry: int) -> Seq<nat> {
    depth.update(
        rx,
        if depth[rx] > depth[ry] {
            depth[rx]
        } else {
            depth[ry] + 1
        },
    )
}

/// The cap after the root `ry` is linked below the root `rx`.
pub open spec fn linked_cap(depth: Seq<nat>, cap: nat, rx: int, ry: int) -> nat {
    if cap > depth[ry] {
        cap
    } else {
        depth[ry] + 1
    }
}

proof fn lemma_link_forest(parent: Seq<usize>, depth: Seq<nat>, cap: nat, rx: int, ry: int)
    requires
        forest(parent, depth, cap),
        0 <= rx < parent.len(),
        0 <= ry < parent.len(),
        parent[rx] == rx,
        parent[ry] == ry,
        rx != ry,
    ensures
        forest(
            parent.update(ry, rx as usize),
            linked_depth(depth, rx, ry),
            linked_cap(depth, cap, rx, ry),
        ),
{
    let linked = parent.update(ry, rx as usize);
    let deeper = linked_depth(depth, rx, ry);
    let capped = linked_cap(depth, cap, rx, ry);
    assert(parent[rx] < parent.len());
    assert(parent[ry] < parent.len());
    assert forall|i: int| 0 <= i < linked.len() implies (#[trigger] linked[i]) < linked.len() by {
        assert(parent[i] < parent.len());
    }
    assert forall|i: int| 0 <= i < deeper.len() implies (#[trigger] deeper[i]) <= capped by {
        assert(depth[i] <= cap);
        assert(depth[ry] <= cap);
    }
    assert forall|i: int| 0 <= i < linked.len() && (#[trigger] linked[i]) != i implies deeper[i] < deeper[linked[i] as int] by {
        assert(parent[i] < parent.len());
    }
}

proof fn lemma_link_root(parent: Seq<usize>, depth: Seq<nat>, cap: nat, rx: int, ry: int, i: int)
    requires
        forest(parent, depth, cap),
        0 <= rx < parent.len(),
        0 <= ry < parent.len(),
        parent[rx] == rx,
        parent[ry] == ry,
        rx != ry,
        0 <= i < parent.len(),
        forest(
            parent.update(ry, rx as usize),
            linked_depth(depth, rx, ry),
            linked_cap(depth, cap, rx, ry),
        ),
    ensures
        root_of(
            parent.update(ry, rx as usize),
            linked_depth(depth, rx, ry),
            linked_cap(depth, cap, rx, ry),
            i,
        ) == (if root_of(parent, depth, cap, i) == ry {
            rx
        } else {
            root_of(parent, depth, cap, i)
        }),
    decreases cap - depth[i],
{
    let linked = parent.update(ry, rx as usize);
    let deeper = linked_depth(depth, rx, ry);
    let capped = linked_cap(depth, cap, rx, ry);
    assert(parent[i] < parent.len());
    if i == ry {
        assert(linked[rx] == rx);
        assert(root_of(linked, deeper, capped, rx) == rx);
    } else if parent[i] != i {
        lemma_link_root(parent, depth, cap, rx, ry, parent[i] as int);
    }
}

/// Distinct numbers below `n` are at most `n` numbers.
pub proof fn lemma_pigeonhole(s: Seq<int>, n: int)
    requires
        0 <= n,
        s.no_duplicates(),
        forall|j: int| 0 <= j < s.len() ==> 0 <= #[trigger] s[j] < n,
    ensures
        s.len() <= n,
{
    s.unique_seq_to_set();
    lemma_int_range(0, n);
    assert(s.to_set().subset_of(set_int_range(0, n))) by {
        assert forall|v: int| s.to_set().contains(v) implies set_int_range(0, n).contains(v) by {
            let j = choose|j: int| 0 <= j < s.len() && s[j] == v;
            assert(0 <= s[j] < n);
        }
    }
    lemma_len_subset(s.to_set(), set_int_range(0, n));
}

/// After a merge of the sets of `x` and `y` the two are in one set, and
/// whatever was in one set before still is.
pub proof fn lemma_union_merges(before: &UnionFind, after: &UnionFind, x: int, y: int)
    requires
        0 <= x < before.len(),
        0 <= y < before.len(),
        forall|i: int|
            0 <= i < before.len() ==> #[trigger] after.root(i) == (if before.same_set(i, x)
                || before.same_set(i, y) {
                after.root(x)
            } else {
                before.root(i)
            }),
    ensures
        after.same_set(x, y),
        forall|i: int, j: int|
            0 <= i < before.len() && 0 <= j < before.len() && before.same_set(i, j)
                ==> #[trigger] after.same_set(i, j),
{
    assert(after.root(x) == after.root(x));
    assert(after.root(y) == after.root(x));
    assert forall|i: int, j: int|
        0 <= i < before.len() && 0 <= j < before.len() && before.same_set(
            i,
            j,
        ) implies #[trigger] after.same_set(i, j) by {
        assert(after.root(i) == after.root(i));
        assert(after.root(j) == after.root(j));
    }
}

/// Whatever was in one set stays in one set when representatives stay as
/// they were.
pub proof fn lemma_roots_keep_sets(before: &UnionFind, after: &UnionFind)
    requires
        forall|i: int| 0 <= i < before.len() ==> #[trigger] after.root(i) == before.root(i),
    ensures
        forall|i: int, j: int|
            0 <= i < before.len() && 0 <= j < before.len() ==> (before.same_set(i, j)
                <==> #[trigger] after.same_set(i, j)),
{
    assert forall|i: int, j: int| 0 <= i < before.len() && 0 <= j < before.len() implies (
    before.same_set(i, j) <==> #[trigger] after.same_set(i, j)) by {
        assert(after.root(i) == before.root(i));
        assert(after.root(j) == before.root(j));
    }
}

/// Disjoint sets over the elements `0..len`.
pub struct UnionFind {
    parent: Vec<usize>,
    rank: Vec<usize>,
    depth: Ghost<Seq<nat>>,
    cap: Ghost<nat>,
    ranked: Ghost<Seq<int>>,
}

impl UnionFind {
    /// The number of elements.
    pub closed spec fn len(&self) -> nat {
        self.parent@.len()
    }

    /// The parent links form a forest, and for every rank in use some
    /// element has that rank.
    pub closed spec fn wf(&self) -> bool {
        &&& forest(self.parent@, self.depth@, self.cap@)
        &&& self.rank@.len() == self.parent@.len()
        &&& forall|i: int| 0 <= i < self.rank@.len() ==> (#[trigger] self.rank@[i]) < self.ranked@.len()
        &&& forall|j: int|
            0 <= j < self.ranked@.len() ==> 0 <= (#[trigger] self.ranked@[j]) < self.rank@.len()
                && self.rank@[self.ranked@[j]] == j
    }

    /// The representative of the set that holds `x`.
    pub closed spec fn root(&self, x: int) -> int {
        root_of(self.parent@, self.depth@, self.cap@, x)
    }

    /// A bound on the number of links between `x` and its representative.
    pub closed spec fn climb(&self, x: int) -> int {
        self.cap@ - self.depth@[x]
    }

    /// `x` and `y` are in one set.
    pub open spec fn same_set(&self, x: int, y: int) -> bool {
        self.root(x) == self.root(y)
    }

    /// The representatives of all sets.
    pub closed spec fn heads(&self) -> Set<int> {
        Set::new(|i: int| 0 <= i < self.parent@.len() && self.parent@[i] == i)
    }

    /// The number of sets.
    pub open spec fn set_count(&self) -> nat {
        self.heads().len()
    }

    /// There are finitely many sets, and an element is a representative
    /// exactly when it represents itself.
    pub proof fn lemma_heads(&self)
        requires
            self.wf(),
        ensures
            self.heads().finite(),
            self.set_count() <= self.len(),
            forall|i: int| 0 <= i < self.len() ==> (self.heads().contains(i) <==> self.root(i) == i),
            forall|i: int| self.heads().contains(i) ==> 0 <= i < self.len(),
    {
        lemma_int_range(0, self.parent@.len() as int);
        assert(self.heads().subset_of(set_int_range(0, self.parent@.len() as int)));
        lemma_len_subset(self.heads(), set_int_range(0, self.parent@.len() as int));
        assert forall|i: int| 0 <= i < self.len() implies (self.heads().contains(i) <==> self.root(
            i,
        ) == i) by {
            lemma_root(self.parent@, self.depth@, self.cap@, i);
        }
    }

    /// When every element has the representative of the first, there is
    /// one set.
    pub proof fn lemma_single(&self)
        requires
            self.wf(),
            self.len() > 0,
            forall|i: int| 0 <= i < self.len() ==> #[trigger] self.root(i) == self.root(0),
        ensures
            self.set_count() == 1,
    {
        broadcast use vstd::set::group_set_axioms;

        self.lemma_heads();
        self.lemma_root_is_element(0);
        let r = self.root(0);
        assert(self.root(r) == r);
        assert(self.heads() =~= Set::empty().insert(r)) by {
            assert forall|i: int| self.heads().contains(i) <==> i == r by {
                if self.heads().contains(i) {
                    assert(self.root(i) == i);
                }
            }
        }
    }

    /// The representative of a set is an element, and it represents itself.
    pub proof fn lemma_root_is_element(&self, x: int)
        requires
            self.wf(),
            0 <= x < self.len(),
        ensures
            0 <= self.root(x) < self.len(),
            self.root(self.root(x)) == self.root(x),
    {
        lemma_root(self.parent@, self.depth@, self.cap@, x);
    }

    proof fn lemma_rank_bound(&self)
        requires
            self.wf(),
        ensures
            self.ranked@.len() <= self.parent@.len(),
    {
        let s = self.ranked@;
        assert forall|i: int, j: int| 0 <= i < s.len() && 0 <= j < s.len() && i != j implies s[i]
            != s[j] by {
            assert(self.rank@[s[i]] == i);
            assert(self.rank@[s[j]] == j);
        }
        lemma_pigeonhole(s, self.parent@.len() as int);
    }

    /// `size` sets of one element each.
    pub fn new(size: usize) -> (sets: UnionFind)
        ensures
            sets.wf(),
            sets.len() == size,
            sets.set_count() == size,
            forall|i: int| 0 <= i < size ==> sets.root(i) == i,
    {
        let mut parent: Vec<usize> = Vec::new();
        let mut rank: Vec<usize> = Vec::new();
        let mut i: usize = 0;
        while i < size
            invariant
                0 <= i <= size,
                parent@.len() == i,
                rank@.len() == i,
                forall|k: int| 0 <= k < i ==> parent@[k] == k,
                forall|k: int| 0 <= k < i ==> rank@[k] == 0,
            decreases size - i,
        {
            parent.push(i);
            rank.push(0);
            i += 1;
        }
        let ghost depth = Seq::new(size as nat, |k: int| 0nat);
        let ghost ranked = if size > 0 {
            seq![0int]
        } else {
            Seq::<int>::empty()
        };
        let sets = UnionFind {
            parent,
            rank,
            depth: Ghost(depth),
            cap: Ghost(0nat),
            ranked: Ghost(ranked),
        };
        proof {
            assert(forest(sets.parent@, sets.depth@, sets.cap@));
            assert forall|k: int| 0 <= k < size implies sets.root(k) == k by {
                assert(sets.parent@[k] == k);
            }
            lemma_int_range(0, size as int);
            assert(sets.heads() =~= set_int_range(0, size as int));
        }
        sets
    }

    /// The representative of the set that holds `x`. The links on the way
    /// are shortened; no set changes.
    pub fn find(&mut self, x: usize) -> (root: usize)
        requires
            old(self).wf(),
            x < old(self).len(),
        ensures
            final(self).wf(),
            final(self).len() == old(self).len(),
            final(self).heads() == old(self).heads(),
            root == old(self).root(x as int),
            forall|i: int| 0 <= i < old(self).len() ==> final(self).root(i) == old(self).root(i),
        decreases old(self).climb(x as int),
    {
        assert(self.parent@[x as int] < self.parent@.len());
        assert(self.depth@[self.parent@[x as int] as int] <= self.cap@);
        let up = self.parent[x];
        if up == x {
            return x;
        }
        let root = self.find(up);
        let ghost mid = *self;
        proof {
            assert(mid.root(x as int) == old(self).root(x as int));
            assert(mid.root(up as int) == old(self).root(up as int));
            lemma_root(old(self).parent@, old(self).depth@, old(self).cap@, x as int);
            lemma_compress_forest(mid.parent@, mid.depth@, mid.cap@, x as int, root);
        }
        self.parent[x] = root;
        proof {
            assert(self.parent@ == mid.parent@.update(x as int, root));
            assert(root != x);
            assert(self.heads() =~= mid.heads());
            assert forall|i: int| 0 <= i < old(self).len() implies self.root(i) == old(self).root(
                i,
            ) by {
                lemma_compress_root(mid.parent@, mid.depth@, mid.cap@, x as int, root, i);
            }
        }
        root
    }

    /// Merges the sets that hold `x` and `y`, and reports whether they were
    /// two sets. The representative of the merged set is the one of higher
    /// rank among the two old ones, and that of `x` on equal rank.
    pub fn union(&mut self, x: usize, y: usize) -> (merged: bool)
        requires
            old(self).wf(),
            x < old(self).len(),
            y < old(self).len(),
        ensures
            final(self).wf(),
            final(self).len() == old(self).len(),
            merged == !old(self).same_set(x as int, y as int),
            final(self).set_count() + (if merged { 1nat } else { 0nat }) == old(self).set_count(),
            final(self).root(x as int) == old(self).root(x as int) || final(self).root(x as int)
                == old(self).root(y as int),
            forall|i: int|
                0 <= i < old(self).len() ==> final(self).root(i) == (if old(self).same_set(
                    i,
                    x as int,
                ) || old(self).same_set(i, y as int) {
                    final(self).root(x as int)
                } else {
                    old(self).root(i)
                }),
    {
        let root_x = self.find(x);
        let root_y = self.find(y);
        if root_x == root_y {
            return false;
        }
        let ghost mid = *self;
        proof {
            lemma_root(mid.parent@, mid.depth@, mid.cap@, x as int);
            lemma_root(mid.parent@, mid.depth@, mid.cap@, y as int);
            mid.lemma_rank_bound();
            mid.lemma_heads();
        }
        let rank_x = self.rank[root_x];
        let rank_y = self.rank[root_y];
        if rank_x < rank_y {
            proof {
                lemma_link_forest(mid.parent@, mid.depth@, mid.cap@, root_y as int, root_x as int);
            }
            self.parent[root_x] = root_y;
            proof {
                broadcast use vstd::set::group_set_axioms;

                assert(self.heads() =~= mid.heads().remove(root_x as int));
                self.depth@ = linked_depth(mid.depth@, root_y as int, root_x as int);
                self.cap@ = linked_cap(mid.depth@, mid.cap@, root_y as int, root_x as int);
                assert(self.parent@ == mid.parent@.update(root_x as int, root_y));
                assert forall|i: int| 0 <= i < mid.len() implies self.root(i) == (if mid.root(i)
                    == root_x {
                    root_y as int
                } else {
                    mid.root(i)
                }) by {
                    lemma_link_root(
                        mid.parent@,
                        mid.depth@,
                        mid.cap@,
                        root_y as int,
                        root_x as int,
                        i,
                    );
                }
            }
        } else {
            proof {
                lemma_link_forest(mid.parent@, mid.depth@, mid.cap@, root_x as int, root_y as int);
            }
            self.parent[root_y] = root_x;
            let ghost linked_heads = self.heads();
            proof {
                broadcast use vstd::set::group_set_axioms;

                assert(self.heads() =~= mid.heads().remove(root_y as int));
                self.depth@ = linked_depth(mid.depth@, root_x as int, root_y as int);
                self.cap@ = linked_cap(mid.depth@, mid.cap@, root_x as int, root_y as int);
                assert(self.parent@ == mid.parent@.update(root_y as int, root_x));
                assert forall|i: int| 0 <= i < mid.len() implies self.root(i) == (if mid.root(i)
                    == root_y {
                    root_x as int
                } else {
                    mid.root(i)
                }) by {
                    lemma_link_root(
                        mid.parent@,
                        mid.depth@,
                        mid.cap@,
                        root_x as int,
                        root_y as int,
                        i,
                    );
                }
            }
            if rank_x == rank_y {
                let size = self.parent.len();
                assert(mid.rank@[root_x as int] < mid.ranked@.len());
                assert(rank_x < size);
                self.rank[root_x] = rank_x + 1;
                proof {
                    assert(self.heads() =~= linked_heads);
                    let k = rank_x as int;
                    let moved = if mid.ranked@[k] == root_x {
                        mid.ranked@.update(k, root_y as int)
                    } else {
                        mid.ranked@
                    };
                    self.ranked@ = if k + 1 == moved.len() {
                        moved.push(root_x as int)
                    } else {
                        moved
                    };
                    assert forall|j: int| 0 <= j < self.ranked@.len() implies 0 <= (
                    #[trigger] self.ranked@[j]) < self.rank@.len() && self.rank@[self.ranked@[j]]
                        == j by {
                        if j < mid.ranked@.len() {
                            assert(mid.rank@[mid.ranked@[j]] == j);
                        }
                    }
                }
            }
        }
        true
    }
}

} // verus!
