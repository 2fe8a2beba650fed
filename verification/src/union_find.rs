use vstd::prelude::*;

verus! {

/// Disjoint-set forest over the elements `0..n`, with path compression and
/// union by rank. Whenever one of the two sets being merged holds element 0,
/// element 0 becomes the representative of the merged set (the ground node).
pub struct UnionFind {
    pub parent: Vec<usize>,
    rank: Vec<usize>,
    /// Representative of each element.
    reps: Ghost<Seq<int>>,
    /// Height bound of each element in the forest; strictly grows towards the root.
    level: Ghost<Seq<nat>>,
    /// Upper bound of all levels.
    top: Ghost<nat>,
    /// The current roots.
    roots: Ghost<Set<int>>,
}

/// The consistency of a forest `parent` with a representative map `reps`,
/// a level map that grows strictly towards the roots, and a rank that stays
/// below the number of elements that have been merged away.
#[verifier::opaque]
pub closed spec fn forest_wf(
    parent: Seq<usize>,
    rank: Seq<usize>,
    reps: Seq<int>,
    level: Seq<nat>,
    top: nat,
    roots: Set<int>,
) -> bool {
    let n = parent.len();
    &&& n <= usize::MAX
    &&& rank.len() == n
    &&& reps.len() == n
    &&& level.len() == n
    &&& forall|x: int| 0 <= x < n ==> #[trigger] parent[x] < n
    &&& forall|x: int| 0 <= x < n ==> 0 <= #[trigger] reps[x] < n
    &&& forall|x: int| 0 <= x < n ==> parent[#[trigger] reps[x]] == reps[x]
    &&& forall|x: int| 0 <= x < n ==> #[trigger] reps[parent[x] as int] == reps[x]
    &&& forall|x: int| 0 <= x < n ==> (#[trigger] parent[x] == x <==> reps[x] == x)
    &&& forall|x: int|
        0 <= x < n && parent[x] != x ==> #[trigger] level[x] < level[parent[x] as int]
    &&& forall|x: int| 0 <= x < n && reps[x] != x ==> #[trigger] level[x] < level[reps[x]]
    &&& forall|x: int| 0 <= x < n ==> #[trigger] level[x] <= top
    &&& roots.finite()
    &&& forall|x: int| #[trigger] roots.contains(x) <==> (0 <= x < n && parent[x] == x)
    &&& forall|x: int| roots.contains(x) ==> #[trigger] rank[x] + roots.len() <= n
}

/// Facts about a well-formed forest used by the operations.
proof fn lemma_forest_facts(
    parent: Seq<usize>,
    rank: Seq<usize>,
    reps: Seq<int>,
    level: Seq<nat>,
    top: nat,
    roots: Set<int>,
    x: int,
)
    requires
        forest_wf(parent, rank, reps, level, top, roots),
        0 <= x < parent.len(),
    ensures
        rank.len() == parent.len(),
        reps.len() == parent.len(),
        level.len() == parent.len(),
        parent[x] < parent.len(),
        0 <= reps[x] < parent.len(),
        reps[parent[x] as int] == reps[x],
        parent[x] == x <==> reps[x] == x,
        parent[x] != x ==> level[x] < level[parent[x] as int],
        level[x] <= top,
        parent[reps[x]] == reps[x],
        roots.contains(reps[x]),
        rank[reps[x]] + roots.len() <= parent.len(),
        parent.len() <= usize::MAX,
        roots.finite(),
{
    reveal(forest_wf);
    let r = reps[x];
    assert(reps[r] == reps[parent[r] as int]);
    if parent[r] != r {
        assert(reps[r] != r);
    }
}

/// A finite set holding two distinct elements has at least two elements.
proof fn lemma_two_elements(s: Set<int>, a: int, b: int)
    requires
        s.finite(),
        s.contains(a),
        s.contains(b),
        a != b,
    ensures
        s.len() >= 2,
{
    let pair = set![a, b];
    assert(pair.subset_of(s));
    vstd::set_lib::lemma_len_subset(pair, s);
    assert(pair.remove(a) =~= set![b]);
}

/// Path compression: pointing `x` directly at its representative keeps the forest consistent.
proof fn lemma_compress(
    parent: Seq<usize>,
    rank: Seq<usize>,
    reps: Seq<int>,
    level: Seq<nat>,
    top: nat,
    roots: Set<int>,
    x: int,
)
    requires
        forest_wf(parent, rank, reps, level, top, roots),
        0 <= x < parent.len(),
        parent[x] != x,
    ensures
        forest_wf(parent.update(x, reps[x] as usize), rank, reps, level, top, roots),
{
    reveal(forest_wf);
    let n = parent.len() as int;
    assert(0 <= reps[x] < n);
    let p2 = parent.update(x, reps[x] as usize);
    assert(reps[x] != x);
    lemma_reps_root(parent, rank, reps, level, top, roots, x);
    assert forall|y: int| 0 <= y < n implies #[trigger] reps[p2[y] as int] == reps[y] by {
        if y != x {
            assert(p2[y] == parent[y]);
            assert(reps[parent[y] as int] == reps[y]);
        }
    }
    assert forall|y: int| 0 <= y < n implies (#[trigger] p2[y] == y <==> reps[y] == y) by {
        if y != x {
            assert(p2[y] == parent[y]);
            assert(parent[y] == y <==> reps[y] == y);
        }
    }
    assert forall|y: int| 0 <= y < n && p2[y] != y implies #[trigger] level[y] < level[p2[y] as int] by {
        if y != x {
            assert(p2[y] == parent[y]);
            assert(level[y] < level[parent[y] as int]);
        } else {
            assert(level[y] < level[reps[y]]);
        }
    }
    assert forall|y: int| 0 <= y < n implies p2[#[trigger] reps[y]] == reps[y] by {
        assert(parent[reps[y]] == reps[y]);
        if reps[y] == x {
            assert(parent[x] == x);
        }
    }
    assert forall|y: int| 0 <= y < n implies #[trigger] p2[y] < n by {
        if y != x {
            assert(parent[y] < n);
        }
    }
    assert forall|y: int| #[trigger] roots.contains(y) <==> (0 <= y < n && p2[y] == y) by {
        if 0 <= y < n && y != x {
            assert(p2[y] == parent[y]);
        }
    }
}

proof fn lemma_reps_root(
    parent: Seq<usize>,
    rank: Seq<usize>,
    reps: Seq<int>,
    level: Seq<nat>,
    top: nat,
    roots: Set<int>,
    x: int,
)
    requires
        forest_wf(parent, rank, reps, level, top, roots),
        0 <= x < parent.len(),
    ensures
        reps[reps[x]] == reps[x],
{
    reveal(forest_wf);
    let r = reps[x];
    assert(reps[r] == reps[parent[r] as int]);
    if reps[r] != r {
        assert(parent[r] != r);
    }
}

/// Linking: hanging the root `child` below the root `new_root`.
proof fn lemma_link(
    parent: Seq<usize>,
    rank: Seq<usize>,
    reps: Seq<int>,
    level: Seq<nat>,
    top: nat,
    roots: Set<int>,
    child: int,
    new_root: int,
    new_rank: Seq<usize>,
)
    requires
        forest_wf(parent, rank, reps, level, top, roots),
        0 <= child < parent.len(),
        0 <= new_root < parent.len(),
        child != new_root,
        parent[child] == child,
        parent[new_root] == new_root,
        new_rank == rank || (new_rank == rank.update(new_root, (rank[new_root] + 1) as usize)
            && rank[new_root] + 1 < usize::MAX),
    ensures
        ({
            let new_level: nat = if level[new_root] > level[child] {
                level[new_root]
            } else {
                level[child] + 1
            };
            forest_wf(
                parent.update(child, new_root as usize),
                new_rank,
                Seq::new(
                    parent.len(),
                    |z: int|
                        if reps[z] == child {
                            new_root
                        } else {
                            reps[z]
                        },
                ),
                level.update(new_root, new_level),
                if top > new_level {
                    top
                } else {
                    new_level
                },
                roots.remove(child),
            )
        }),
{
    reveal(forest_wf);
    let n = parent.len() as int;
    let new_level: nat = if level[new_root] > level[child] {
        level[new_root]
    } else {
        level[child] + 1
    };
    let p2 = parent.update(child, new_root as usize);
    let r2 = Seq::new(parent.len(), |z: int| if reps[z] == child { new_root } else { reps[z] });
    let l2 = level.update(new_root, new_level);
    let t2 = if top > new_level { top } else { new_level };
    let roots2 = roots.remove(child);
    assert(reps[new_root] == new_root);
    assert(reps[child] == child);
    assert(roots.contains(child));
    assert(roots.contains(new_root));
    let pair = set![child, new_root];
    assert(pair.subset_of(roots));
    vstd::set_lib::lemma_len_subset(pair, roots);
    assert(pair.remove(child) =~= set![new_root]);
    assert(pair.len() == 2);
    assert forall|z: int| 0 <= z < n implies p2[#[trigger] r2[z]] == r2[z] by {
        assert(parent[reps[z]] == reps[z]);
    }
    assert forall|z: int| 0 <= z < n implies #[trigger] r2[p2[z] as int] == r2[z] by {
        if z != child {
            assert(reps[parent[z] as int] == reps[z]);
        }
    }
    assert forall|z: int| 0 <= z < n implies (#[trigger] p2[z] == z <==> r2[z] == z) by {
        if z != child {
            assert(parent[z] == z <==> reps[z] == z);
        }
    }
    assert forall|z: int| 0 <= z < n && p2[z] != z implies #[trigger] l2[z] < l2[p2[z] as int] by {
        if z != child {
            assert(level[z] < level[parent[z] as int]);
        }
    }
    assert forall|z: int| 0 <= z < n && r2[z] != z implies #[trigger] l2[z] < l2[r2[z]] by {
        if reps[z] == child {
            if z != child {
                assert(level[z] < level[child]);
            }
        } else {
            assert(level[z] < level[reps[z]]);
        }
    }
    assert forall|z: int| 0 <= z < n implies #[trigger] l2[z] <= t2 by {
        assert(level[z] <= top);
    }
    assert forall|z: int| #[trigger] roots2.contains(z) <==> (0 <= z < n && p2[z] == z) by {
        assert(roots.contains(z) <==> (0 <= z < n && parent[z] == z));
    }
    assert forall|z: int| roots2.contains(z) implies #[trigger] new_rank[z] + roots2.len() <= n by {
        assert(roots.contains(z));
        assert(rank[z] + roots.len() <= n);
    }
}

impl View for UnionFind {
    type V = Seq<int>;

    /// The representative of each element.
    closed spec fn view(&self) -> Seq<int> {
        self.reps@
    }
}

/// What a call of `find(x)` on `a` leaves behind in `b`.
pub open spec fn find_post(a: UnionFind, b: UnionFind, x: int) -> bool {
    &&& b.wf()
    &&& b@ == a@
    &&& b.size() == a.size()
    &&& b.parents()[a@[x]] == a@[x]
    &&& b.parents()[x] == a@[x]
    &&& forall|z: int| 0 <= z < a.size() ==> (#[trigger] b.parents()[z] == z <==> a.parents()[z] == z)
    &&& b.ranks() == a.ranks()
}

/// What a call of `union(x, y)` on `a` leaves behind in `b`.
pub open spec fn union_post(a: UnionFind, b: UnionFind, x: int, y: int) -> bool {
    &&& b.wf()
    &&& b.size() == a.size()
    &&& b.same_set(x, y)
    &&& (a@[x] == 0 || a@[y] == 0) ==> b@[x] == 0
    &&& b@[x] == a@[x] || b@[x] == a@[y]
    &&& a.parents()[0] == 0 ==> b.parents()[0] == 0
    &&& forall|z: int|
        0 <= z < a.size() ==> #[trigger] b@[z] == if a@[z] == a@[x] || a@[z] == a@[y] {
            b@[x]
        } else {
            a@[z]
        }
}

/// `b` is what one call of `union(x, y)` or of `find(x)` on `a` leaves behind.
#[verifier::opaque]
pub open spec fn one_call(a: UnionFind, b: UnionFind, x: int, y: int) -> bool {
    &&& 0 <= x < a.size()
    &&& 0 <= y < a.size()
    &&& (union_post(a, b, x, y) || find_post(a, b, x))
}

/// One call keeps element 0 its own parent.
proof fn lemma_ground_step(a: UnionFind, b: UnionFind, x: int, y: int)
    requires
        a.wf(),
        a.size() >= 1,
        a.parents()[0] == 0,
        one_call(a, b, x, y),
    ensures
        b.wf(),
        b.size() == a.size(),
        b.parents()[0] == 0,
{
    reveal(one_call);
    if !union_post(a, b, x, y) {
        assert(b.parents()[0] == 0 <==> a.parents()[0] == 0);
    }
}

/// The ground node stays the representative of its set over any sequence of
/// calls: when `s[0]` has element 0 as its own parent (as after `new`) and
/// each state comes from the one before by a call of `union` or `find`, then
/// in every state element 0 is its own parent, and every element in the set
/// of 0 has 0 as its representative (what `find` returns for it).
pub proof fn lemma_ground_over_calls(s: Seq<UnionFind>, k: int)
    requires
        s.len() >= 1,
        s[0].wf(),
        s[0].size() >= 1,
        s[0].parents()[0] == 0,
        forall|j: int| #![trigger s[j]] 0 <= j < s.len() - 1 ==> exists|x: int, y: int| #[trigger] one_call(s[j], s[j + 1], x, y),
        0 <= k < s.len(),
    ensures
        s[k].wf(),
        s[k].size() == s[0].size(),
        s[k].parents()[0] == 0,
        forall|a: int| 0 <= a < s[k].size() && #[trigger] s[k].same_set(a, 0) ==> s[k]@[a] == 0,
    decreases k,
{
    if k > 0 {
        lemma_ground_over_calls(s, k - 1);
        assert(s[k - 1] == s[k - 1]);
        let (x, y) = choose|x: int, y: int| #[trigger] one_call(s[k - 1], s[k], x, y);
        lemma_ground_step(s[k - 1], s[k], x, y);
    }
    assert forall|a: int| 0 <= a < s[k].size() && #[trigger] s[k].same_set(a, 0) implies s[k]@[a] == 0 by {
        s[k].lemma_ground_representative(a);
    }
}

impl UnionFind {
    /// The forest: the contents of the `parent` field.
    pub closed spec fn parents(&self) -> Seq<usize> {
        self.parent@
    }

    /// The rank of each element (a bound on the height of the tree below a root).
    pub closed spec fn ranks(&self) -> Seq<usize> {
        self.rank@
    }

    /// Number of elements.
    pub closed spec fn size(&self) -> nat {
        self.parent@.len()
    }

    /// `x` and `y` are in the same set.
    pub open spec fn same_set(&self, x: int, y: int) -> bool {
        self@[x] == self@[y]
    }

    /// The forest is consistent with the representative map.
    pub closed spec fn wf(&self) -> bool {
        forest_wf(self.parent@, self.rank@, self.reps@, self.level@, self.top@, self.roots@)
    }

    /// Distance, in levels, from `x` to the top of the forest.
    pub closed spec fn height_left(&self, x: int) -> int {
        self.top@ - self.level@[x]
    }

    /// The forest stored in `parent` agrees with the representatives: the
    /// representative of `x` is its own parent, and `x` is its own parent
    /// exactly when it is its own representative.
    pub proof fn lemma_parent_links(&self, x: int)
        requires
            self.wf(),
            0 <= x < self.size(),
        ensures
            self.parents().len() == self.size(),
            0 <= self@[x] < self.size(),
            self.parents()[self@[x]] == self@[x],
            self.parents()[x] == x <==> self@[x] == x,
    {
        lemma_forest_facts(
            self.parent@,
            self.rank@,
            self.reps@,
            self.level@,
            self.top@,
            self.roots@,
            x,
        );
    }

    /// The ground node: while element 0 is its own parent, it is the
    /// representative of its set, so every element in its set has
    /// representative 0.
    pub proof fn lemma_ground_representative(&self, a: int)
        requires
            self.wf(),
            self.size() >= 1,
            self.parents()[0] == 0,
            0 <= a < self.size(),
            self.same_set(a, 0),
        ensures
            self@[0] == 0,
            self@[a] == 0,
    {
        self.lemma_parent_links(0);
    }

    /// Every element is represented by an element of the structure, and a
    /// representative represents itself.
    pub proof fn lemma_reps(&self, x: int)
        requires
            self.wf(),
            0 <= x < self.size(),
        ensures
            0 <= self@[x] < self.size(),
            self@[self@[x]] == self@[x],
    {
        lemma_forest_facts(
            self.parent@,
            self.rank@,
            self.reps@,
            self.level@,
            self.top@,
            self.roots@,
            x,
        );
        lemma_reps_root(
            self.parent@,
            self.rank@,
            self.reps@,
            self.level@,
            self.top@,
            self.roots@,
            x,
        );
    }

    /// Creates `n` singleton sets.
    pub fn new(n: usize) -> (uf: Self)
        ensures
            uf.wf(),
            uf.size() == n,
            forall|x: int| 0 <= x < n ==> #[trigger] uf@[x] == x,
            forall|x: int| 0 <= x < n ==> #[trigger] uf.parents()[x] == x,
            forall|x: int| 0 <= x < n ==> #[trigger] uf.ranks()[x] == 0,
    {
        let mut parent: Vec<usize> = Vec::with_capacity(n);
        let mut rank: Vec<usize> = Vec::with_capacity(n);
        let mut i: usize = 0;
        while i < n
            invariant
                i <= n,
                parent@.len() == i,
                rank@.len() == i,
                forall|x: int| 0 <= x < i ==> #[trigger] parent@[x] == x,
                forall|x: int| 0 <= x < i ==> #[trigger] rank@[x] == 0,
            decreases n - i,
        {
            parent.push(i);
            rank.push(0);
            i = i + 1;
        }
        let ghost reps = Seq::new(n as nat, |x: int| x);
        let ghost level = Seq::new(n as nat, |x: int| 0nat);
        let ghost roots = Set::new(|x: int| 0 <= x < n);
        proof {
            assert(roots =~= vstd::set_lib::set_int_range(0, n as int));
            vstd::set_lib::lemma_int_range(0, n as int);
            reveal(forest_wf);
        }
        UnionFind {
            parent,
            rank,
            reps: Ghost(reps),
            level: Ghost(level),
            top: Ghost(0),
            roots: Ghost(roots),
        }
    }

    /// Finds the representative of the set holding `x`, compressing the path
    /// from `x` to the root.
    pub fn find(&mut self, x: usize) -> (r: usize)
        requires
            old(self).wf(),
            x < old(self).size(),
        ensures
            final(self).wf(),
            final(self)@ == old(self)@,
            final(self).size() == old(self).size(),
            r == old(self)@[x as int],
            final(self).parents()[r as int] == r,
            final(self).parents()[x as int] == r,
            forall|z: int| 0 <= z < old(self).size() ==> (#[trigger] final(self).parents()[z] == z <==> old(self).parents()[z] == z),
            final(self).ranks() == old(self).ranks(),
            find_post(*old(self), *final(self), x as int),
        decreases old(self).height_left(x as int),
    {
        proof {
            lemma_forest_facts(
                self.parent@,
                self.rank@,
                self.reps@,
                self.level@,
                self.top@,
                self.roots@,
                x as int,
            );
        }
        let p = self.parent[x];
        if p != x {
            proof {
                lemma_forest_facts(
                    self.parent@,
                    self.rank@,
                    self.reps@,
                    self.level@,
                    self.top@,
                    self.roots@,
                    p as int,
                );
            }
            let root = self.find(p);
            proof {
                lemma_forest_facts(
                    self.parent@,
                    self.rank@,
                    self.reps@,
                    self.level@,
                    self.top@,
                    self.roots@,
                    x as int,
                );
                lemma_compress(
                    self.parent@,
                    self.rank@,
                    self.reps@,
                    self.level@,
                    self.top@,
                    self.roots@,
                    x as int,
                );
            }
            self.parent.set(x, root);
        }
        proof {
            self.lemma_parent_links(x as int);
            assert forall|z: int| 0 <= z < old(self).size() implies (#[trigger] self.parent@[z] == z <==> old(self).parent@[z] == z) by {
                self.lemma_parent_links(z);
                old(self).lemma_parent_links(z);
            }
        }
        self.parent[x]
    }

    /// Finds the representative of the set holding `x` without changing the forest.
    pub fn find_no_compress(&self, x: usize) -> (r: usize)
        requires
            self.wf(),
            x < self.size(),
        ensures
            r == self@[x as int],
            self.parents()[r as int] == r,
    {
        let mut x = x;
        let ghost x0 = x;
        proof {
            lemma_forest_facts(
                self.parent@,
                self.rank@,
                self.reps@,
                self.level@,
                self.top@,
                self.roots@,
                x as int,
            );
        }
        while self.parent[x] != x
            invariant
                self.wf(),
                x < self.size(),
                self@[x as int] == self@[x0 as int],
            decreases self.height_left(x as int),
        {
            proof {
                lemma_forest_facts(
                    self.parent@,
                    self.rank@,
                    self.reps@,
                    self.level@,
                    self.top@,
                    self.roots@,
                    x as int,
                );
                lemma_forest_facts(
                    self.parent@,
                    self.rank@,
                    self.reps@,
                    self.level@,
                    self.top@,
                    self.roots@,
                    self.parent@[x as int] as int,
                );
            }
            x = self.parent[x];
        }
        proof {
            lemma_forest_facts(
                self.parent@,
                self.rank@,
                self.reps@,
                self.level@,
                self.top@,
                self.roots@,
                x as int,
            );
        }
        x
    }

    /// Merges the sets holding `x` and `y`.
        pub fn union(&mut self, x: usize, y: usize)
        requires
            old(self).wf(),
            x < old(self).size(),
            y < old(self).size(),
        ensures
            final(self).wf(),
            final(self).size() == old(self).size(),
            final(self).same_set(x as int, y as int),
            (old(self)@[x as int] == 0 || old(self)@[y as int] == 0) ==> final(self)@[x as int] == 0,
            final(self)@[x as int] == old(self)@[x as int] || final(self)@[x as int] == old(
                self,
            )@[y as int],
            old(self).parents()[0] == 0 ==> final(self).parents()[0] == 0,
            forall|z: int|
                0 <= z < old(self).size() ==> #[trigger] final(self)@[z] == if old(self)@[z]
                    == old(self)@[x as int] || old(self)@[z] == old(self)@[y as int] {
                    final(self)@[x as int]
                } else {
                    old(self)@[z]
                },
            ({
                let rx = old(self)@[x as int];
                let ry = old(self)@[y as int];
                &&& (rx != ry && rx != 0 && ry != 0) ==> final(self)@[x as int] == (if old(self).ranks()[rx] < old(
                    self,
                ).ranks()[ry] {
                    ry
                } else {
                    rx
                })
                &&& final(self).ranks() == (if rx != ry && rx != 0 && ry != 0 && old(self).ranks()[rx] == old(
                    self,
                ).ranks()[ry] {
                    old(self).ranks().update(rx, (old(self).ranks()[rx] + 1) as usize)
                } else {
                    old(self).ranks()
                })
            }),
            union_post(*old(self), *final(self), x as int, y as int),
    {
        let root_x = self.find(x);
        let root_y = self.find(y);

        if root_x == root_y {
            return;
        }
        let ghost n = self.parent@.len() as int;
        let ghost old_reps = self.reps@;
        let ghost old_level = self.level@;
        let ghost old_roots = self.roots@;
        let ghost old_parent = self.parent@;
        let ghost old_rank = self.rank@;
        let ghost old_top = self.top@;
        proof {
            lemma_forest_facts(old_parent, old_rank, old_reps, old_level, old_top, old_roots, x as int);
            lemma_forest_facts(old_parent, old_rank, old_reps, old_level, old_top, old_roots, y as int);
        }

        // `child` is hung below `new_root`
        proof {
            lemma_two_elements(old_roots, root_x as int, root_y as int);
        }
        let child: usize;
        let new_root: usize;
        let mut grow = false;
        if root_x == 0 || root_y == 0 {
            // If either root is 0, make 0 the root.
            child = if root_x == 0 { root_y } else { root_x };
            new_root = 0;
        } else if self.rank[root_x] < self.rank[root_y] {
            // union by rank
            child = root_x;
            new_root = root_y;
        } else {
            child = root_y;
            new_root = root_x;
            grow = self.rank[root_x] == self.rank[root_y];
        }
        self.parent.set(child, new_root);
        if grow {
            let r = self.rank[new_root] + 1;
            self.rank.set(new_root, r);
        }
        let ghost new_level: nat = if old_level[new_root as int] > old_level[child as int] {
            old_level[new_root as int]
        } else {
            old_level[child as int] + 1
        };
        proof {
            lemma_link(
                old_parent,
                old_rank,
                old_reps,
                old_level,
                old_top,
                old_roots,
                child as int,
                new_root as int,
                self.rank@,
            );
        }
        self.reps = Ghost(
            Seq::new(
                n as nat,
                |z: int|
                    if old_reps[z] == child as int {
                        new_root as int
                    } else {
                        old_reps[z]
                    },
            ),
        );
        self.level = Ghost(old_level.update(new_root as int, new_level));
        self.top = Ghost(if old_top > new_level { old_top } else { new_level });
        self.roots = Ghost(old_roots.remove(child as int));
    }
}

} // verus!
