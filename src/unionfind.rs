//! The disjoint-set forest: allocation of ids, lookups with and without path
//! halving, union of two classes, and splitting of a class with retirement of
//! its leader.
use vstd::prelude::*;

use crate::forest::{
    ancestor, clusters_in_range, halved, in_range, is_forest, is_root, leader, leaders_stay_roots,
    lemma_ancestor_add, lemma_ancestor_in_range, lemma_ancestor_one, lemma_depth_within_size,
    lemma_forest_leader, lemma_halving_step, lemma_leader_is, lemma_push_root, lemma_relink_entry,
    lemma_relink_forest, lemma_relink_len, lemma_root_fixed, lemma_root_stays,
    lemma_shortcut_forest, lemma_shortcut_refl, lemma_shortcut_trans, lemma_union_forest, on_path,
    parent_is_ancestor, reaches_root_within, relink, relink_members, shortcut_of,
};
use crate::id::Id;

verus! {

/// The integers that a sequence of ids stands for.
pub open spec fn ids_view(v: Seq<Id>) -> Seq<nat> {
    v.map_values(|x: Id| x@)
}

/// The clusters of a split, as new leaders and member lists of integers.
pub open spec fn clusters_view(cs: Seq<(Id, Vec<Id>)>) -> Seq<(nat, Seq<nat>)> {
    cs.map_values(|c: (Id, Vec<Id>)| (c.0@, ids_view(c.1@)))
}

/// A parent table and a list of retired leaders that make a forest: every
/// parent is an id of the table, `p.len()` links lead from every id to a
/// leader, and the retired leaders are ids of the table, listed once each.
pub open spec fn valid_parts(p: Seq<nat>, d: Seq<nat>) -> bool {
    &&& in_range(p)
    &&& reaches_root_within(p, p.len())
    &&& d.no_duplicates()
    &&& forall|k: int| 0 <= k < d.len() ==> #[trigger] d[k] < p.len()
}

/// A lookup met a leader that a split retired: the caller kept an id across
/// a split that it did not account for.
#[derive(Clone, Copy, Debug, PartialEq, Eq, Structural)]
pub struct StaleReference {
    /// The retired leader that was met.
    pub deprecated: Id,
    /// The id that the lookup started from.
    pub query: Id,
}

/// A forest of parent links over the ids `0..size()`, with the set of
/// leaders that splits have retired.
#[derive(Clone)]
pub struct UnionFind {
    parents: Vec<Id>,
    deprecated_leaders: Vec<Id>,
    /// A number of parent links that leads from every id to its leader.
    depth: Ghost<nat>,
}

impl UnionFind {
    /// The parent of each id, by index.
    pub closed spec fn parent_table(&self) -> Seq<nat> {
        ids_view(self.parents@)
    }

    /// The retired leaders, in the order in which they were retired.
    pub closed spec fn deprecated(&self) -> Seq<nat> {
        ids_view(self.deprecated_leaders@)
    }

    /// The parent links form a forest, and each retired leader is an id of
    /// it, listed once.
    pub closed spec fn wf(&self) -> bool {
        &&& is_forest(self.parent_table(), self.depth@)
        &&& self.deprecated().no_duplicates()
        &&& forall|k: int| 0 <= k < self.deprecated().len() ==> #[trigger] self.deprecated()[k] < self.parent_table().len()
    }

    /// The number of ids.
    pub open spec fn size_spec(&self) -> nat {
        self.parent_table().len()
    }

    /// The leader of the class of `i`.
    pub open spec fn leader(&self, i: nat) -> nat {
        leader(self.parent_table(), i)
    }

    /// `i` is a leader that a split retired.
    pub open spec fn is_deprecated(&self, i: nat) -> bool {
        self.deprecated().contains(i)
    }

    /// `j` is the first retired leader that a lookup from `i` meets.
    pub open spec fn first_retired_on_path(&self, i: nat, j: nat) -> bool {
        exists|n: nat| {
            &&& #[trigger] ancestor(self.parent_table(), i, n) == j
            &&& self.is_deprecated(j)
            &&& forall|m: nat| m < n ==> !self.is_deprecated(#[trigger] ancestor(self.parent_table(), i, m))
        }
    }

    /// A lookup from `i` meets no retired leader, its own leader included.
    pub open spec fn resolvable(&self, i: nat) -> bool {
        &&& i < self.size_spec()
        &&& forall|j: nat| #[trigger] on_path(self.parent_table(), i, j) ==> !self.is_deprecated(j)
    }

    /// Adds a new id, alone in its own class, and returns it.
    pub fn make_set(&mut self) -> (r: Id)
        requires
            old(self).wf(),
        ensures
            final(self).wf(),
            r@ == old(self).size_spec(),
            final(self).parent_table() == old(self).parent_table().push(r@),
            final(self).deprecated() == old(self).deprecated(),
            final(self).leader(r@) == r@,
            final(self).resolvable(r@),
            forall|i: nat| i < old(self).size_spec() ==> #[trigger] final(self).leader(i) == old(self).leader(i),
            forall|i: nat| #[trigger] old(self).resolvable(i) ==> final(self).resolvable(i),
    {
        let id = Id::from(self.parents.len());
        let ghost p = self.parent_table();
        self.parents.push(id);
        proof {
            assert(self.parent_table() =~= p.push(id@));
            lemma_push_root(p, self.depth@);
            let q = self.parent_table();
            assert forall|j: nat| #[trigger] on_path(q, id@, j) implies !self.is_deprecated(j) by {
                let n = choose|n: nat| #[trigger] ancestor(q, id@, n) == j;
                lemma_root_fixed(q, id@, n);
                if self.is_deprecated(j) {
                    let k = choose|k: int| 0 <= k < self.deprecated().len() && self.deprecated()[k] == j;
                }
            }
            assert forall|i: nat| #[trigger] old(self).resolvable(i) implies self.resolvable(i) by {
                assert forall|j: nat| #[trigger] on_path(q, i, j) implies !self.is_deprecated(j) by {
                    let n = choose|n: nat| #[trigger] ancestor(q, i, n) == j;
                    assert(ancestor(p, i, n) == j);
                    assert(on_path(p, i, j));
                }
            }
        }
        id
    }

    /// The number of ids made so far.
    pub fn size(&self) -> (r: usize)
        ensures
            r == self.size_spec(),
    {
        self.parents.len()
    }

    /// The parent of `query`.
    fn parent(&self, query: Id) -> (r: Id)
        requires
            query@ < self.size_spec(),
        ensures
            r@ == self.parent_table()[query@ as int],
    {
        self.parents[query.0]
    }

    /// The leader of the class of `current`, found by following parent links.
    ///
    /// No retired leader may lie on the way, the leader included: such a
    /// lookup is a caller's error, which `try_find` reports.
    pub fn find(&self, current: Id) -> (r: Id)
        requires
            self.wf(),
            self.resolvable(current@),
        ensures
            r@ == self.leader(current@),
            is_root(self.parent_table(), r@),
    {
        let ghost p = self.parent_table();
        let ghost h = self.depth@;
        let ghost mut k: nat = 0;
        let mut node = current;
        while node != self.parent(node)
            invariant
                self.wf(),
                p == self.parent_table(),
                h == self.depth@,
                current@ < p.len(),
                node@ < p.len(),
                node@ == ancestor(p, current@, k),
                k <= h,
            decreases h - k,
        {
            proof {
                if k == h {
                    assert(is_root(p, ancestor(p, current@, h)));
                }
                lemma_ancestor_in_range(p, current@, k + 1);
                assert(ancestor(p, current@, k + 1) == p[node@ as int]);
            }
            node = self.parent(node);
            proof {
                k = k + 1;
            }
        }
        proof {
            lemma_leader_is(p, current@, k);
        }
        node
    }

    /// The leader of the class of `current`, as `find` gives it; on the way
    /// each visited id is pointed at its grandparent, which shortens later
    /// lookups and changes no leader.
    pub fn find_mut(&mut self, current: Id) -> (r: Id)
        requires
            old(self).wf(),
            old(self).resolvable(current@),
        ensures
            final(self).wf(),
            r@ == old(self).leader(current@),
            is_root(final(self).parent_table(), r@),
            final(self).parent_table() == halved(old(self).parent_table(), current@, old(self).size_spec()),
            shortcut_of(old(self).parent_table(), final(self).parent_table()),
            final(self).deprecated() == old(self).deprecated(),
            forall|i: nat| i < old(self).size_spec() ==> #[trigger] final(self).leader(i) == old(self).leader(i),
            forall|i: nat| #[trigger] old(self).resolvable(i) ==> final(self).resolvable(i),
    {
        let ghost p0 = self.parent_table();
        let ghost h = self.depth@;
        let ghost len = p0.len();
        let ghost mut k: nat = 0;
        let ghost mut steps: nat = 0;
        let mut node = current;
        proof {
            lemma_shortcut_refl(p0);
            lemma_depth_within_size(p0, h, current@);
        }
        while node != self.parent(node)
            invariant
                self.wf(),
                h == self.depth@,
                is_forest(p0, h),
                self.deprecated() == old(self).deprecated(),
                p0 == old(self).parent_table(),
                shortcut_of(p0, self.parent_table()),
                current@ < p0.len(),
                node@ < p0.len(),
                node@ == ancestor(p0, current@, k),
                is_root(p0, ancestor(p0, current@, len)),
                len == p0.len(),
                k <= len,
                steps <= k,
                halved(p0, current@, len) == halved(self.parent_table(), node@, (len - steps) as nat),
            decreases len - k,
        {
            let ghost p = self.parent_table();
            let parent = self.parent(node);
            let grandparent = self.parent(parent);
            self.parents.set(node.0, grandparent);
            proof {
                assert(self.parent_table() =~= p.update(node@ as int, p[p[node@ as int] as int]));
                lemma_halving_step(p, node@);
                lemma_shortcut_trans(p0, p, self.parent_table());
                lemma_shortcut_forest(p, self.parent_table(), h);
                if k == len {
                    let r = node@;
                    assert(parent_is_ancestor(p0, p, r));
                    let k1 = choose|k1: nat| k1 >= 1 && p[r as int] == #[trigger] ancestor(p0, r, k1);
                    lemma_root_fixed(p0, r, k1);
                }
                assert(parent_is_ancestor(p0, p, node@));
                let k1 = choose|k1: nat| k1 >= 1 && p[node@ as int] == #[trigger] ancestor(p0, node@, k1);
                lemma_ancestor_add(p0, current@, k, k1);
                lemma_ancestor_in_range(p0, current@, k + k1);
                assert(parent_is_ancestor(p0, p, parent@));
                let k2 = choose|k2: nat| k2 >= 1 && p[parent@ as int] == #[trigger] ancestor(p0, parent@, k2);
                lemma_ancestor_add(p0, current@, k + k1, k2);
                assert(halved(p, node@, (len - steps) as nat)
                    == halved(self.parent_table(), grandparent@, (len - (steps + 1)) as nat));
                if k + k1 + k2 <= len {
                    k = k + k1 + k2;
                } else {
                    lemma_root_stays(p0, current@, len, k + k1 + k2);
                    k = len;
                }
                steps = steps + 1;
            }
            node = grandparent;
        }
        proof {
            let q = self.parent_table();
            assert(halved(q, node@, (len - steps) as nat) == q);
            lemma_shortcut_forest(p0, q, h);
            lemma_leader_is(q, node@, 0);
            lemma_ancestor_add(p0, current@, k, h);
            lemma_forest_leader(p0, h, node@);
            lemma_leader_is(p0, current@, k + h);
            assert forall|i: nat| #[trigger] old(self).resolvable(i) implies self.resolvable(i) by {
                assert forall|j: nat| #[trigger] on_path(q, i, j) implies !self.is_deprecated(j) by {
                    assert(on_path(p0, i, j));
                }
            }
        }
        node
    }

    /// Makes `root1` the leader of the union of the classes of `root1` and
    /// `root2`, both of which must be leaders, and returns `root1`.
    pub fn union(&mut self, root1: Id, root2: Id) -> (r: Id)
        requires
            old(self).wf(),
            is_root(old(self).parent_table(), root1@),
            is_root(old(self).parent_table(), root2@),
        ensures
            final(self).wf(),
            r == root1,
            final(self).parent_table() == old(self).parent_table().update(root2@ as int, root1@),
            final(self).deprecated() == old(self).deprecated(),
            forall|i: nat| i < old(self).size_spec() ==> #[trigger] final(self).leader(i)
                == if old(self).leader(i) == root2@ { root1@ } else { old(self).leader(i) },
            forall|i: nat| #[trigger] old(self).resolvable(i) && !old(self).is_deprecated(root1@)
                ==> final(self).resolvable(i),
    {
        let ghost p = self.parent_table();
        self.parents.set(root2.0, root1);
        proof {
            let q = self.parent_table();
            assert(q =~= p.update(root2@ as int, root1@));
            lemma_union_forest(p, self.depth@, root1@, root2@);
            self.depth@ = self.depth@ + 1;
            assert forall|i: nat| #[trigger] old(self).resolvable(i) && !old(self).is_deprecated(root1@)
                implies self.resolvable(i) by {
                assert forall|j: nat| #[trigger] on_path(q, i, j) implies !self.is_deprecated(j) by {
                    assert(on_path(p, i, j) || j == root1@);
                }
            }
        }
        root1
    }

    /// Whether `id` is a retired leader.
    fn is_deprecated_exec(&self, id: Id) -> (r: bool)
        ensures
            r == self.is_deprecated(id@),
    {
        let mut k: usize = 0;
        while k < self.deprecated_leaders.len()
            invariant
                k <= self.deprecated_leaders.len(),
                forall|j: int| 0 <= j < k ==> self.deprecated()[j] != id@,
            decreases self.deprecated_leaders.len() - k,
        {
            if self.deprecated_leaders[k] == id {
                proof {
                    assert(self.deprecated()[k as int] == id@);
                }
                return true;
            }
            k = k + 1;
        }
        false
    }

    /// Retires `leader_id` and, for each `(new_leader, members)` in order,
    /// makes `new_leader` the parent of every id of `members`.
    ///
    /// `leader_id` keeps its own parent link, but lookups that meet it fail
    /// from now on. The members need not have been in the class of
    /// `leader_id`; each new leader must be a leader once all members are
    /// relinked, which keeps the parent links a forest (new leaders that are
    /// leaders already and that no cluster lists as members always are:
    /// see `lemma_untouched_leaders_stay_roots`).
    pub fn split(&mut self, leader_id: Id, clusters: Vec<(Id, Vec<Id>)>)
        requires
            old(self).wf(),
            leader_id@ < old(self).size_spec(),
            clusters_in_range(clusters_view(clusters@), old(self).size_spec()),
            leaders_stay_roots(old(self).parent_table(), clusters_view(clusters@)),
        ensures
            final(self).wf(),
            final(self).size_spec() == old(self).size_spec(),
            final(self).parent_table() == relink(old(self).parent_table(), clusters_view(clusters@)),
            final(self).deprecated() == if old(self).is_deprecated(leader_id@) {
                old(self).deprecated()
            } else {
                old(self).deprecated().push(leader_id@)
            },
    {
        let ghost d0 = self.deprecated();
        if !self.is_deprecated_exec(leader_id) {
            self.deprecated_leaders.push(leader_id);
            proof {
                assert(self.deprecated() =~= d0.push(leader_id@));
                assert forall|a: int, b: int| 0 <= a < b < self.deprecated().len()
                    implies self.deprecated()[a] != self.deprecated()[b] by {
                    if b == d0.len() {
                        assert(d0[a] == self.deprecated()[a]);
                    }
                }
            }
        }
        let ghost p0 = self.parent_table();
        let ghost cv = clusters_view(clusters@);
        let ghost d1 = self.deprecated();
        let ghost h = self.depth@;
        assert(forall|k: int| 0 <= k < d1.len() ==> #[trigger] d1[k] < p0.len()) by {
            if !old(self).is_deprecated(leader_id@) {
                assert forall|k: int| 0 <= k < d1.len() implies #[trigger] d1[k] < p0.len() by {
                    if k < d0.len() {
                        assert(d1[k] == d0[k]);
                    }
                }
            }
        }
        let mut c: usize = 0;
        while c < clusters.len()
            invariant
                c <= clusters.len(),
                cv == clusters_view(clusters@),
                clusters_in_range(cv, p0.len()),
                self.parents@.len() == p0.len(),
                self.parent_table() == relink(p0, cv.take(c as int)),
                self.deprecated() == d1,
                self.depth@ == h,
            decreases clusters.len() - c,
        {
            let new_leader = clusters[c].0;
            let members = &clusters[c].1;
            let ghost base = relink(p0, cv.take(c as int));
            let ghost ms = ids_view(members@);
            proof {
                assert(cv[c as int].0 < p0.len());
            }
            let mut k: usize = 0;
            while k < members.len()
                invariant
                    k <= members.len(),
                    ms == ids_view(members@),
                    ms == cv[c as int].1,
                    new_leader@ == cv[c as int].0,
                    clusters_in_range(cv, p0.len()),
                    0 <= c < cv.len(),
                    self.parents@.len() == p0.len(),
                    self.parent_table() == relink_members(base, new_leader@, ms.take(k as int)),
                    self.deprecated() == d1,
                    self.depth@ == h,
                decreases members.len() - k,
            {
                let member = members[k];
                proof {
                    assert(ms[k as int] < p0.len());
                }
                let ghost before = self.parent_table();
                self.parents.set(member.0, new_leader);
                proof {
                    assert(self.parent_table() =~= before.update(member@ as int, new_leader@));
                    assert(ms.take(k + 1).drop_last() =~= ms.take(k as int));
                }
                k = k + 1;
            }
            proof {
                assert(ms.take(k as int) =~= ms);
                assert(cv.take(c + 1).drop_last() =~= cv.take(c as int));
            }
            c = c + 1;
        }
        proof {
            assert(cv.take(c as int) =~= cv);
            lemma_relink_len(p0, cv);
            lemma_relink_forest(p0, cv, self.depth@);
            self.depth@ = self.depth@ + 1;
        }
    }

    /// The leader of the class of `current`, or the first retired leader on
    /// the way to it (the leader itself included).
    pub fn try_find(&self, current: Id) -> (r: Result<Id, StaleReference>)
        requires
            self.wf(),
            current@ < self.size_spec(),
        ensures
            match r {
                Ok(l) => {
                    &&& self.resolvable(current@)
                    &&& l@ == self.leader(current@)
                    &&& is_root(self.parent_table(), l@)
                },
                Err(e) => {
                    &&& !self.resolvable(current@)
                    &&& e.query == current
                    &&& self.is_deprecated(e.deprecated@)
                    &&& self.first_retired_on_path(current@, e.deprecated@)
                },
            },
    {
        let ghost p = self.parent_table();
        let ghost h = self.depth@;
        let ghost mut k: nat = 0;
        let mut node = current;
        loop
            invariant
                self.wf(),
                p == self.parent_table(),
                h == self.depth@,
                current@ < p.len(),
                node@ < p.len(),
                node@ == ancestor(p, current@, k),
                k <= h,
                forall|n: nat| n < k ==> !self.is_deprecated(#[trigger] ancestor(p, current@, n)),
            decreases h - k,
        {
            if self.is_deprecated_exec(node) {
                proof {
                    assert(on_path(p, current@, node@));
                    assert(self.first_retired_on_path(current@, node@));
                }
                return Err(StaleReference { deprecated: node, query: current });
            }
            let parent = self.parent(node);
            if parent == node {
                proof {
                    lemma_leader_is(p, current@, k);
                    assert forall|j: nat| #[trigger] on_path(p, current@, j) implies !self.is_deprecated(j) by {
                        let n = choose|n: nat| #[trigger] ancestor(p, current@, n) == j;
                        if n > k {
                            lemma_root_stays(p, current@, k, n);
                        }
                    }
                }
                return Ok(node);
            }
            proof {
                if k == h {
                    assert(is_root(p, ancestor(p, current@, h)));
                }
                lemma_ancestor_in_range(p, current@, k + 1);
                assert(ancestor(p, current@, k + 1) == p[node@ as int]);
                k = k + 1;
            }
            node = parent;
        }
    }

    /// Rebuilds a forest from its parent table and its retired leaders, as
    /// `parents` and `deprecated_leaders` give them; `None` where the two do
    /// not make a forest.
    pub fn from_parts(parents: Vec<Id>, deprecated_leaders: Vec<Id>) -> (r: Option<UnionFind>)
        ensures
            r is Some <==> valid_parts(ids_view(parents@), ids_view(deprecated_leaders@)),
            r matches Some(uf) ==> {
                &&& uf.wf()
                &&& uf.parent_table() == ids_view(parents@)
                &&& uf.deprecated() == ids_view(deprecated_leaders@)
            },
    {
        let ghost p = ids_view(parents@);
        let ghost d = ids_view(deprecated_leaders@);
        let n = parents.len();
        let mut i: usize = 0;
        while i < n
            invariant
                n == parents.len(),
                p == ids_view(parents@),
                i <= n,
                forall|j: int| 0 <= j < i ==> #[trigger] p[j] < n,
            decreases n - i,
        {
            if parents[i].0 >= n {
                proof {
                    assert(!(p[i as int] < p.len()));
                }
                return None;
            }
            i = i + 1;
        }
        i = 0;
        while i < n
            invariant
                n == parents.len(),
                p == ids_view(parents@),
                in_range(p),
                i <= n,
                forall|j: nat| j < i ==> is_root(p, #[trigger] ancestor(p, j, n as nat)),
            decreases n - i,
        {
            let mut node = Id(i);
            let mut k: usize = 0;
            while k < n
                invariant
                    n == parents.len(),
                    p == ids_view(parents@),
                    in_range(p),
                    i < n,
                    k <= n,
                    node@ == ancestor(p, i as nat, k as nat),
                    node@ < n,
                decreases n - k,
            {
                proof {
                    lemma_ancestor_in_range(p, i as nat, (k + 1) as nat);
                }
                node = parents[node.0];
                k = k + 1;
            }
            if parents[node.0] != node {
                return None;
            }
            i = i + 1;
        }
        let mut a: usize = 0;
        while a < deprecated_leaders.len()
            invariant
                n == parents.len(),
                p == ids_view(parents@),
                d == ids_view(deprecated_leaders@),
                a <= d.len(),
                forall|k: int| 0 <= k < a ==> #[trigger] d[k] < n,
                forall|x: int, y: int| 0 <= x < y < a ==> d[x] != d[y],
            decreases deprecated_leaders.len() - a,
        {
            if deprecated_leaders[a].0 >= n {
                proof {
                    assert(!(d[a as int] < p.len()));
                }
                return None;
            }
            let mut b: usize = 0;
            while b < a
                invariant
                    d == ids_view(deprecated_leaders@),
                    a < d.len(),
                    b <= a,
                    forall|x: int| 0 <= x < b ==> d[x] != d[a as int],
                decreases a - b,
            {
                if deprecated_leaders[b] == deprecated_leaders[a] {
                    proof {
                        assert(d[b as int] == d[a as int]);
                    }
                    return None;
                }
                b = b + 1;
            }
            a = a + 1;
        }
        Some(UnionFind { parents, deprecated_leaders, depth: Ghost(n as nat) })
    }

    /// The parent of each id, by index.
    pub fn parents(&self) -> (r: &Vec<Id>)
        ensures
            ids_view(r@) == self.parent_table(),
    {
        &self.parents
    }

    /// The retired leaders, in the order in which they were retired.
    pub fn deprecated_leaders(&self) -> (r: &Vec<Id>)
        ensures
            ids_view(r@) == self.deprecated(),
    {
        &self.deprecated_leaders
    }
}

/// A forest in which every id is its own parent, which is what `make_set`
/// alone builds from an empty forest, has every id as its own leader.
pub proof fn law_fresh_ids_are_singletons(uf: UnionFind)
    requires
        uf.wf(),
        forall|i: int| 0 <= i < uf.size_spec() ==> #[trigger] uf.parent_table()[i] == i,
    ensures
        forall|i: nat| i < uf.size_spec() ==> #[trigger] uf.leader(i) == i,
{
    assert forall|i: nat| i < uf.size_spec() implies #[trigger] uf.leader(i) == i by {
        lemma_leader_is(uf.parent_table(), i, 0);
    }
}

/// Attaching leader `b` under leader `a`, as `union(a, b)` does, leaves `a`
/// the leader of both `a` and `b`.
pub proof fn law_union_leads_to_first(before: UnionFind, after: UnionFind, a: nat, b: nat)
    requires
        before.wf(),
        is_root(before.parent_table(), a),
        is_root(before.parent_table(), b),
        after.parent_table() == before.parent_table().update(b as int, a),
    ensures
        after.leader(a) == a,
        after.leader(b) == a,
{
    let p = before.parent_table();
    lemma_union_forest(p, before.depth@, a, b);
    lemma_leader_is(p, a, 0);
    lemma_leader_is(p, b, 0);
}

/// Shortening paths, as each `find_mut` does, keeps every leader and every
/// id that can be looked up: `find_mut` returns what `find` returns on the
/// same forest, and goes on returning it however often it is called.
pub proof fn law_compression_keeps_leaders(before: UnionFind, after: UnionFind)
    requires
        before.wf(),
        shortcut_of(before.parent_table(), after.parent_table()),
        after.deprecated() == before.deprecated(),
    ensures
        after.size_spec() == before.size_spec(),
        forall|i: nat| i < before.size_spec() ==> #[trigger] after.leader(i) == before.leader(i),
        forall|i: nat| #[trigger] before.resolvable(i) ==> after.resolvable(i),
{
    let p = before.parent_table();
    let q = after.parent_table();
    lemma_shortcut_forest(p, q, before.depth@);
    assert forall|i: nat| #[trigger] before.resolvable(i) implies after.resolvable(i) by {
        assert forall|j: nat| #[trigger] on_path(q, i, j) implies !after.is_deprecated(j) by {
            assert(on_path(p, i, j));
        }
    }
}

/// After a split, each member is led by the new leader of the last cluster
/// that lists it, and can be looked up unless it or that leader is retired.
pub proof fn law_split_members_follow_new_leaders(
    before: UnionFind,
    after: UnionFind,
    clusters: Seq<(nat, Seq<nat>)>,
)
    requires
        before.wf(),
        clusters_in_range(clusters, before.size_spec()),
        leaders_stay_roots(before.parent_table(), clusters),
        after.parent_table() == relink(before.parent_table(), clusters),
    ensures
        forall|c: int, m: nat|
            0 <= c < clusters.len() && #[trigger] clusters[c].1.contains(m)
                && (forall|d: int| c < d < clusters.len() ==> !(#[trigger] clusters[d].1.contains(m)))
            ==> after.leader(m) == clusters[c].0
                && (!after.is_deprecated(m) && !after.is_deprecated(clusters[c].0) ==> after.resolvable(m)),
{
    let p = before.parent_table();
    let q = after.parent_table();
    lemma_relink_forest(p, clusters, before.depth@);
    lemma_relink_len(p, clusters);
    assert forall|c: int, m: nat|
        0 <= c < clusters.len() && #[trigger] clusters[c].1.contains(m)
            && (forall|d: int| c < d < clusters.len() ==> !(#[trigger] clusters[d].1.contains(m)))
        implies after.leader(m) == clusters[c].0
            && (!after.is_deprecated(m) && !after.is_deprecated(clusters[c].0) ==> after.resolvable(m)) by {
        let l = clusters[c].0;
        let k = choose|k: int| 0 <= k < clusters[c].1.len() && clusters[c].1[k] == m;
        assert(l < p.len());
        assert(m < p.len());
        lemma_relink_entry(p, clusters, m);
        lemma_ancestor_one(q, m);
        assert forall|j: nat| #[trigger] on_path(q, m, j) implies j == m || j == l by {
            let n = choose|n: nat| #[trigger] ancestor(q, m, n) == j;
            if n >= 1 {
                lemma_root_stays(q, m, 1, n);
            }
        }
    }
}

/// A retired leader blocks its own lookup and every lookup whose path meets
/// it; since no operation takes an id out of the retired set, this holds for
/// the rest of the forest's life.
pub proof fn law_retired_leader_blocks_lookups(uf: UnionFind, l: nat)
    requires
        uf.is_deprecated(l),
    ensures
        !uf.resolvable(l),
        forall|i: nat| #[trigger] on_path(uf.parent_table(), i, l) ==> !uf.resolvable(i),
{
    assert(ancestor(uf.parent_table(), l, 0) == l);
    assert(on_path(uf.parent_table(), l, l));
}

/// The retired leaders are listed once each: as many entries as distinct
/// leaders ever split.
pub proof fn law_retired_leaders_listed_once(uf: UnionFind)
    requires
        uf.wf(),
    ensures
        uf.deprecated().len() == uf.deprecated().to_set().len(),
{
    uf.deprecated().unique_seq_to_set();
}

/// The parent table and the retired leaders of every forest pass the check
/// of `from_parts`, which rebuilds the same forest from them: the same
/// leaders and the same retired ids.
pub proof fn law_parts_round_trip(uf: UnionFind)
    requires
        uf.wf(),
    ensures
        valid_parts(uf.parent_table(), uf.deprecated()),
{
    let p = uf.parent_table();
    assert forall|i: nat| i < p.len() implies is_root(p, #[trigger] ancestor(p, i, p.len())) by {
        lemma_depth_within_size(p, uf.depth@, i);
    }
}

impl Default for UnionFind {
    /// An empty forest.
    fn default() -> (r: Self)
        ensures
            r.wf(),
            r.size_spec() == 0,
            r.deprecated().len() == 0,
    {
        UnionFind { parents: Vec::new(), deprecated_leaders: Vec::new(), depth: Ghost(0) }
    }
}

} // verus!
