//! The mathematical model of a parent table: a sequence mapping each id to
//! its parent, and what it means for such a table to be a forest.
use vstd::prelude::*;
use vstd::relations::injective_on;
use vstd::set_lib::{lemma_int_range, lemma_len_subset, lemma_map_size, set_int_range};

verus! {

/// Every parent is itself an id of the table.
pub open spec fn in_range(p: Seq<nat>) -> bool {
    forall|i: int| 0 <= i < p.len() ==> #[trigger] p[i] < p.len()
}

/// `i` is a leader: an id whose parent is itself.
pub open spec fn is_root(p: Seq<nat>, i: nat) -> bool {
    i < p.len() && p[i as int] == i
}

/// The id reached from `i` by following `n` parent links.
pub open spec fn ancestor(p: Seq<nat>, i: nat, n: nat) -> nat
    decreases n,
{
    if n == 0 {
        i
    } else {
        let a = ancestor(p, i, (n - 1) as nat);
        if a < p.len() {
            p[a as int]
        } else {
            a
        }
    }
}

/// From every id, `h` parent links lead to a leader: the table is a forest
/// whose trees are at most `h` deep.
pub open spec fn reaches_root_within(p: Seq<nat>, h: nat) -> bool {
    forall|i: nat| i < p.len() ==> is_root(p, #[trigger] ancestor(p, i, h))
}

/// `p` is a forest of trees at most `h` deep.
pub open spec fn is_forest(p: Seq<nat>, h: nat) -> bool {
    in_range(p) && reaches_root_within(p, h)
}

/// How many parent links lead from `i` to its leader (some such count).
pub open spec fn steps_to_root(p: Seq<nat>, i: nat) -> nat {
    choose|n: nat| is_root(p, #[trigger] ancestor(p, i, n))
}

/// The leader of the class of `i`.
pub open spec fn leader(p: Seq<nat>, i: nat) -> nat {
    ancestor(p, i, steps_to_root(p, i))
}

/// `j` lies on the path from `i` to its leader.
pub open spec fn on_path(p: Seq<nat>, i: nat, j: nat) -> bool {
    exists|n: nat| #[trigger] ancestor(p, i, n) == j
}

/// The table after path halving from `i`, for at most `n` steps: while `i`
/// is not a leader, its parent becomes its grandparent, and the walk goes on
/// from that grandparent.
pub open spec fn halved(p: Seq<nat>, i: nat, n: nat) -> Seq<nat>
    decreases n,
{
    if n == 0 || i >= p.len() || is_root(p, i) {
        p
    } else {
        let g = p[p[i as int] as int];
        halved(p.update(i as int, g), g, (n - 1) as nat)
    }
}

/// Every parent of `q` is an ancestor of the same id in `p`, one or more
/// links up: `q` is `p` with some paths shortened.
pub open spec fn shortcut_of(p: Seq<nat>, q: Seq<nat>) -> bool {
    &&& q.len() == p.len()
    &&& forall|x: nat| x < p.len() ==> #[trigger] parent_is_ancestor(p, q, x)
}

/// The parent of `x` in `q` is an ancestor of `x` in `p`, one or more links up.
pub open spec fn parent_is_ancestor(p: Seq<nat>, q: Seq<nat>, x: nat) -> bool {
    exists|k: nat| k >= 1 && q[x as int] == #[trigger] ancestor(p, x, k)
}

/// Paths never leave the table.
pub proof fn lemma_ancestor_in_range(p: Seq<nat>, i: nat, n: nat)
    requires
        in_range(p),
        i < p.len(),
    ensures
        ancestor(p, i, n) < p.len(),
    decreases n,
{
    if n > 0 {
        lemma_ancestor_in_range(p, i, (n - 1) as nat);
    }
}

/// Following `a` links and then `b` links is following `a + b` links.
pub proof fn lemma_ancestor_add(p: Seq<nat>, i: nat, a: nat, b: nat)
    ensures
        ancestor(p, ancestor(p, i, a), b) == ancestor(p, i, a + b),
    decreases b,
{
    if b > 0 {
        lemma_ancestor_add(p, i, a, (b - 1) as nat);
        assert((a + b - 1) as nat == a + (b - 1) as nat);
    }
}

/// A leader is its own ancestor at every distance.
pub proof fn lemma_root_fixed(p: Seq<nat>, r: nat, n: nat)
    requires
        is_root(p, r),
    ensures
        ancestor(p, r, n) == r,
    decreases n,
{
    if n > 0 {
        lemma_root_fixed(p, r, (n - 1) as nat);
    }
}

/// Once a path reaches a leader it stays there.
pub proof fn lemma_root_stays(p: Seq<nat>, i: nat, n: nat, m: nat)
    requires
        is_root(p, ancestor(p, i, n)),
        n <= m,
    ensures
        ancestor(p, i, m) == ancestor(p, i, n),
{
    lemma_ancestor_add(p, i, n, (m - n) as nat);
    lemma_root_fixed(p, ancestor(p, i, n), (m - n) as nat);
}

/// Any leader on the path from `i` is the leader of `i`.
pub proof fn lemma_leader_is(p: Seq<nat>, i: nat, n: nat)
    requires
        is_root(p, ancestor(p, i, n)),
    ensures
        leader(p, i) == ancestor(p, i, n),
        is_root(p, leader(p, i)),
{
    let m = steps_to_root(p, i);
    assert(is_root(p, ancestor(p, i, m)));
    if n <= m {
        lemma_root_stays(p, i, n, m);
    } else {
        lemma_root_stays(p, i, m, n);
    }
}

/// One link up is the parent.
pub proof fn lemma_ancestor_one(p: Seq<nat>, i: nat)
    requires
        i < p.len(),
    ensures
        ancestor(p, i, 1) == p[i as int],
{
    assert(ancestor(p, i, 0) == i);
}

/// In a forest every id has a leader, reached within the forest's depth.
pub proof fn lemma_forest_leader(p: Seq<nat>, h: nat, i: nat)
    requires
        is_forest(p, h),
        i < p.len(),
    ensures
        leader(p, i) == ancestor(p, i, h),
        is_root(p, leader(p, i)),
        leader(p, i) < p.len(),
{
    lemma_leader_is(p, i, h);
}

/// Every parent of `p` is one of its ancestors, one link up.
pub proof fn lemma_shortcut_refl(p: Seq<nat>)
    ensures
        shortcut_of(p, p),
{
    assert forall|x: nat| x < p.len() implies parent_is_ancestor(p, p, x) by {
        lemma_ancestor_one(p, x);
        assert(p[x as int] == ancestor(p, x, 1));
    }
}

/// Pointing one id at its grandparent shortens its path.
pub proof fn lemma_halving_step(p: Seq<nat>, c: nat)
    requires
        in_range(p),
        c < p.len(),
    ensures
        shortcut_of(p, p.update(c as int, p[p[c as int] as int])),
{
    let q = p.update(c as int, p[p[c as int] as int]);
    assert forall|x: nat| x < p.len() implies parent_is_ancestor(p, q, x) by {
        lemma_ancestor_one(p, x);
        assert(x != c ==> q[x as int] == ancestor(p, x, 1));
        if x == c {
            lemma_ancestor_add(p, c, 1, 1);
            lemma_ancestor_one(p, p[c as int]);
            assert(q[x as int] == ancestor(p, x, 2));
        }
    }
}

/// Each path of a shortened table visits, in order, ancestors from the
/// first table, at least as far up.
pub proof fn lemma_shortcut_path(p: Seq<nat>, q: Seq<nat>, j: nat, n: nat) -> (m: nat)
    requires
        in_range(p),
        shortcut_of(p, q),
        j < p.len(),
    ensures
        m >= n,
        ancestor(q, j, n) == ancestor(p, j, m),
    decreases n,
{
    if n == 0 {
        0
    } else {
        let m0 = lemma_shortcut_path(p, q, j, (n - 1) as nat);
        let x = ancestor(p, j, m0);
        lemma_ancestor_in_range(p, j, m0);
        assert(parent_is_ancestor(p, q, x));
        let k = choose|k: nat| k >= 1 && q[x as int] == #[trigger] ancestor(p, x, k);
        lemma_ancestor_add(p, j, m0, k);
        m0 + k
    }
}

/// Shortening an already shortened table still shortens the first one.
pub proof fn lemma_shortcut_trans(p0: Seq<nat>, p: Seq<nat>, q: Seq<nat>)
    requires
        in_range(p0),
        shortcut_of(p0, p),
        shortcut_of(p, q),
    ensures
        shortcut_of(p0, q),
{
    assert forall|x: nat| x < p0.len() implies parent_is_ancestor(p0, q, x) by {
        assert(parent_is_ancestor(p, q, x));
        let k = choose|k: nat| k >= 1 && q[x as int] == #[trigger] ancestor(p, x, k);
        let m = lemma_shortcut_path(p0, p, x, k);
        assert(q[x as int] == ancestor(p0, x, m));
    }
}

/// Shortening paths keeps a forest a forest of the same depth, keeps every
/// leader, and puts no id on a path that was not on it before.
pub proof fn lemma_shortcut_forest(p: Seq<nat>, q: Seq<nat>, h: nat)
    requires
        is_forest(p, h),
        shortcut_of(p, q),
    ensures
        is_forest(q, h),
        forall|i: nat| i < p.len() ==> #[trigger] leader(q, i) == leader(p, i),
        forall|i: nat, j: nat| i < p.len() && #[trigger] on_path(q, i, j) ==> on_path(p, i, j),
{
    assert forall|i: int| 0 <= i < q.len() implies #[trigger] q[i] < q.len() by {
        let x = i as nat;
        assert(parent_is_ancestor(p, q, x));
        let k = choose|k: nat| k >= 1 && q[x as int] == #[trigger] ancestor(p, x, k);
        lemma_ancestor_in_range(p, x, k);
    }
    assert forall|i: nat| i < p.len() implies #[trigger] leader(q, i) == leader(p, i)
        && is_root(q, ancestor(q, i, h)) by {
        let m = lemma_shortcut_path(p, q, i, h);
        lemma_root_stays(p, i, h, m);
        let r = ancestor(p, i, h);
        assert(parent_is_ancestor(p, q, r));
        let k = choose|k: nat| k >= 1 && q[r as int] == #[trigger] ancestor(p, r, k);
        lemma_root_fixed(p, r, k);
        lemma_leader_is(q, i, h);
        lemma_leader_is(p, i, h);
    }
    assert forall|i: nat| i < p.len() implies is_root(q, #[trigger] ancestor(q, i, h)) by {
        assert(leader(q, i) == leader(p, i));
    }
    assert forall|i: nat, j: nat| i < p.len() && #[trigger] on_path(q, i, j) implies on_path(p, i, j) by {
        let n = choose|n: nat| #[trigger] ancestor(q, i, n) == j;
        let m = lemma_shortcut_path(p, q, i, n);
        assert(ancestor(p, i, m) == j);
    }
}

/// Paths that meet no changed parent are the same in both tables.
pub proof fn lemma_same_path(p: Seq<nat>, q: Seq<nat>, i: nat, m: nat)
    requires
        in_range(p),
        q.len() == p.len(),
        i < p.len(),
        forall|n: nat| n < m ==> q[#[trigger] ancestor(p, i, n) as int] == p[ancestor(p, i, n) as int],
    ensures
        ancestor(q, i, m) == ancestor(p, i, m),
    decreases m,
{
    if m > 0 {
        lemma_same_path(p, q, i, (m - 1) as nat);
        lemma_ancestor_in_range(p, i, (m - 1) as nat);
    }
}

/// A new id that is its own parent leaves every other path as it was.
pub proof fn lemma_push_root(p: Seq<nat>, h: nat)
    requires
        is_forest(p, h),
    ensures
        is_forest(p.push(p.len()), h),
        is_root(p.push(p.len()), p.len()),
        leader(p.push(p.len()), p.len()) == p.len(),
        forall|i: nat, m: nat| i < p.len() ==> #[trigger] ancestor(p.push(p.len()), i, m) == ancestor(p, i, m),
        forall|i: nat| i < p.len() ==> #[trigger] leader(p.push(p.len()), i) == leader(p, i),
{
    let q = p.push(p.len());
    assert forall|i: nat, m: nat| i < p.len() implies #[trigger] ancestor(q, i, m) == ancestor(p, i, m) by {
        lemma_push_path(p, i, m);
    }
    lemma_root_fixed(q, p.len(), h);
    lemma_leader_is(q, p.len(), 0);
    assert forall|i: nat| i < q.len() implies is_root(q, #[trigger] ancestor(q, i, h)) by {
        if i < p.len() {
            assert(ancestor(q, i, h) == ancestor(p, i, h));
        }
    }
    assert forall|i: nat| i < p.len() implies #[trigger] leader(q, i) == leader(p, i) by {
        lemma_leader_is(q, i, h);
        lemma_leader_is(p, i, h);
    }
}

proof fn lemma_push_path(p: Seq<nat>, i: nat, m: nat)
    requires
        in_range(p),
        i < p.len(),
    ensures
        ancestor(p.push(p.len()), i, m) == ancestor(p, i, m),
    decreases m,
{
    if m > 0 {
        lemma_push_path(p, i, (m - 1) as nat);
        lemma_ancestor_in_range(p, i, (m - 1) as nat);
    }
}

/// `q` keeps each parent of `p`, or replaces it by one of the ids `t`,
/// each of which is a leader in `q`.
pub open spec fn retargeted(p: Seq<nat>, q: Seq<nat>, t: Set<nat>) -> bool {
    &&& q.len() == p.len()
    &&& forall|x: nat| #[trigger] t.contains(x) ==> is_root(q, x)
    &&& forall|j: nat| j < p.len() ==> #[trigger] q[j as int] == p[j as int] || t.contains(q[j as int])
}

proof fn lemma_retarget_path(p: Seq<nat>, q: Seq<nat>, t: Set<nat>, i: nat, m: nat)
    requires
        in_range(p),
        retargeted(p, q, t),
        i < p.len(),
    ensures
        ancestor(q, i, m) == ancestor(p, i, m) || t.contains(ancestor(q, i, m)),
    decreases m,
{
    if m > 0 {
        lemma_retarget_path(p, q, t, i, (m - 1) as nat);
        lemma_ancestor_in_range(p, i, (m - 1) as nat);
        let x = ancestor(q, i, (m - 1) as nat);
        if x == ancestor(p, i, (m - 1) as nat) {
            assert(q[x as int] == p[x as int] || t.contains(q[x as int]));
        }
    }
}

/// Pointing ids at leaders keeps a forest a forest, one level deeper at most;
/// a path of `q` visits ids of the same path in `p`, or one of `t`.
pub proof fn lemma_retarget_forest(p: Seq<nat>, q: Seq<nat>, t: Set<nat>, h: nat)
    requires
        is_forest(p, h),
        retargeted(p, q, t),
    ensures
        is_forest(q, h + 1),
        forall|i: nat| i < p.len() ==> #[trigger] leader(q, i) == leader(p, i) || t.contains(leader(q, i)),
        forall|i: nat, j: nat| i < p.len() && #[trigger] on_path(q, i, j) ==> on_path(p, i, j) || t.contains(j),
{
    assert forall|i: int| 0 <= i < q.len() implies #[trigger] q[i] < q.len() by {
        assert(q[i as nat as int] == p[i] || t.contains(q[i as nat as int]));
    }
    assert forall|i: nat| i < p.len() implies (#[trigger] leader(q, i) == leader(p, i) || t.contains(leader(q, i)))
        && is_root(q, ancestor(q, i, h + 1)) by {
        lemma_retarget_path(p, q, t, i, h);
        lemma_ancestor_in_range(p, i, h);
        let x = ancestor(q, i, h);
        assert(ancestor(q, i, h + 1) == q[x as int]);
        if x == ancestor(p, i, h) {
            assert(q[x as int] == p[x as int] || t.contains(q[x as int]));
        }
        lemma_leader_is(q, i, h + 1);
        lemma_leader_is(p, i, h);
    }
    assert forall|i: nat| i < q.len() implies is_root(q, #[trigger] ancestor(q, i, h + 1)) by {
        assert(leader(q, i) == leader(p, i) || t.contains(leader(q, i)));
    }
    assert forall|i: nat, j: nat| i < p.len() && #[trigger] on_path(q, i, j) implies on_path(p, i, j) || t.contains(j) by {
        let n = choose|n: nat| #[trigger] ancestor(q, i, n) == j;
        lemma_retarget_path(p, q, t, i, n);
        assert(ancestor(q, i, n) == ancestor(p, i, n) || t.contains(j));
    }
}

/// Attaching leader `b` under leader `a` moves the class of `b` into the
/// class of `a` and leaves every other class as it was.
pub proof fn lemma_union_forest(p: Seq<nat>, h: nat, a: nat, b: nat)
    requires
        is_forest(p, h),
        is_root(p, a),
        is_root(p, b),
    ensures
        is_forest(p.update(b as int, a), h + 1),
        forall|i: nat| i < p.len() ==> #[trigger] leader(p.update(b as int, a), i)
            == if leader(p, i) == b { a } else { leader(p, i) },
        forall|i: nat, j: nat| i < p.len() && #[trigger] on_path(p.update(b as int, a), i, j)
            ==> on_path(p, i, j) || j == a,
{
    let q = p.update(b as int, a);
    let t = set![a];
    assert(retargeted(p, q, t));
    lemma_retarget_forest(p, q, t, h);
    assert forall|i: nat| i < p.len() implies #[trigger] leader(q, i)
        == if leader(p, i) == b { a } else { leader(p, i) } by {
        lemma_forest_leader(p, h, i);
        lemma_forest_leader(q, h + 1, i);
        if leader(p, i) == b {
            lemma_retarget_path(p, q, t, i, h);
            let x = ancestor(q, i, h);
            assert(ancestor(q, i, h + 1) == q[x as int]);
        } else {
            assert forall|n: nat| n < h + 1 implies q[#[trigger] ancestor(p, i, n) as int]
                == p[ancestor(p, i, n) as int] by {
                lemma_ancestor_in_range(p, i, n);
                if ancestor(p, i, n) == b {
                    lemma_leader_is(p, i, n);
                }
            }
            lemma_same_path(p, q, i, h + 1);
            lemma_root_stays(p, i, h, h + 1);
        }
    }
}

/// The table with every id of `ms` given `l` as parent.
pub open spec fn relink_members(p: Seq<nat>, l: nat, ms: Seq<nat>) -> Seq<nat>
    decreases ms.len(),
{
    if ms.len() == 0 {
        p
    } else {
        relink_members(p, l, ms.drop_last()).update(ms.last() as int, l)
    }
}

/// The table with each cluster's members given the cluster's new leader as
/// parent, the clusters taken in order.
pub open spec fn relink(p: Seq<nat>, cs: Seq<(nat, Seq<nat>)>) -> Seq<nat>
    decreases cs.len(),
{
    if cs.len() == 0 {
        p
    } else {
        relink_members(relink(p, cs.drop_last()), cs.last().0, cs.last().1)
    }
}

/// Every id that the clusters name is an id of the table.
pub open spec fn clusters_in_range(cs: Seq<(nat, Seq<nat>)>, n: nat) -> bool {
    forall|c: int| 0 <= c < cs.len() ==> #[trigger] cs[c].0 < n
        && forall|k: int| 0 <= k < cs[c].1.len() ==> #[trigger] cs[c].1[k] < n
}

/// The set of the clusters' new leaders.
pub open spec fn new_leaders(cs: Seq<(nat, Seq<nat>)>) -> Set<nat> {
    Set::new(|l: nat| exists|c: int| 0 <= c < cs.len() && #[trigger] cs[c].0 == l)
}

/// Every new leader is a leader once the members are relinked.
pub open spec fn leaders_stay_roots(p: Seq<nat>, cs: Seq<(nat, Seq<nat>)>) -> bool {
    forall|c: int| 0 <= c < cs.len() ==> is_root(relink(p, cs), #[trigger] cs[c].0)
}

/// An id listed among `ms` gets `l` as parent; any other keeps its own.
pub proof fn lemma_relink_members_entry(p: Seq<nat>, l: nat, ms: Seq<nat>, x: nat)
    requires
        x < p.len(),
        forall|k: int| 0 <= k < ms.len() ==> #[trigger] ms[k] < p.len(),
    ensures
        relink_members(p, l, ms).len() == p.len(),
        relink_members(p, l, ms)[x as int] == if ms.contains(x) { l } else { p[x as int] },
    decreases ms.len(),
{
    if ms.len() > 0 {
        lemma_relink_members_entry(p, l, ms.drop_last(), x);
        if ms.drop_last().contains(x) {
            let k = choose|k: int| 0 <= k < ms.drop_last().len() && ms.drop_last()[k] == x;
            assert(ms[k] == x);
        }
        if ms.contains(x) && x != ms.last() {
            let k = choose|k: int| 0 <= k < ms.len() && ms[k] == x;
            assert(ms.drop_last()[k] == x);
        }
    }
}

/// Each entry of a relinked table is the old parent, or the new leader of a
/// cluster that lists the id; it is the new leader of the last cluster that
/// lists it, where one does.
pub proof fn lemma_relink_entry(p: Seq<nat>, cs: Seq<(nat, Seq<nat>)>, x: nat)
    requires
        x < p.len(),
        clusters_in_range(cs, p.len()),
    ensures
        relink(p, cs).len() == p.len(),
        relink(p, cs)[x as int] == p[x as int] || exists|c: int|
            0 <= c < cs.len() && #[trigger] cs[c].0 == relink(p, cs)[x as int],
        (forall|c: int| 0 <= c < cs.len() ==> !(#[trigger] cs[c].1.contains(x)))
            ==> relink(p, cs)[x as int] == p[x as int],
        forall|c: int|
            0 <= c < cs.len() && cs[c].1.contains(x) && (forall|d: int| c < d < cs.len() ==> !(#[trigger] cs[d].1.contains(x)))
            ==> relink(p, cs)[x as int] == #[trigger] cs[c].0,
    decreases cs.len(),
{
    if cs.len() > 0 {
        let init = cs.drop_last();
        assert(cs.last().0 < p.len());
        assert forall|c: int| 0 <= c < init.len() implies #[trigger] init[c].0 < p.len()
            && forall|k: int| 0 <= k < init[c].1.len() ==> #[trigger] init[c].1[k] < p.len() by {
            assert(init[c] == cs[c]);
            assert(cs[c].0 < p.len());
        }
        lemma_relink_entry(p, init, x);
        lemma_relink_members_entry(relink(p, init), cs.last().0, cs.last().1, x);
        let r = relink(p, cs)[x as int];
        if forall|c: int| 0 <= c < cs.len() ==> !(#[trigger] cs[c].1.contains(x)) {
            assert(!cs[cs.len() - 1].1.contains(x));
            assert forall|c: int| 0 <= c < init.len() implies !(#[trigger] init[c].1.contains(x)) by {
                assert(init[c] == cs[c]);
                assert(!cs[c].1.contains(x));
            }
        }
        if r != p[x as int] {
            if cs.last().1.contains(x) {
                assert(cs[cs.len() - 1].0 == r);
            } else {
                let c = choose|c: int| 0 <= c < init.len() && #[trigger] init[c].0 == relink(p, init)[x as int];
                assert(cs[c].0 == r);
            }
        }
        assert forall|c: int|
            0 <= c < cs.len() && cs[c].1.contains(x) && (forall|d: int| c < d < cs.len() ==> !(#[trigger] cs[d].1.contains(x)))
            implies relink(p, cs)[x as int] == #[trigger] cs[c].0 by {
            if c < cs.len() - 1 {
                assert(!cs[cs.len() - 1].1.contains(x));
                assert(init[c] == cs[c]);
                assert forall|d: int| c < d < init.len() implies !(#[trigger] init[d].1.contains(x)) by {
                    assert(init[d] == cs[d]);
                }
            }
        }
    }
}

/// Relinking keeps the number of ids.
pub proof fn lemma_relink_len(p: Seq<nat>, cs: Seq<(nat, Seq<nat>)>)
    requires
        clusters_in_range(cs, p.len()),
    ensures
        relink(p, cs).len() == p.len(),
{
    if p.len() > 0 {
        lemma_relink_entry(p, cs, 0);
    } else {
        lemma_relink_empty(p, cs);
    }
}

proof fn lemma_relink_empty(p: Seq<nat>, cs: Seq<(nat, Seq<nat>)>)
    requires
        p.len() == 0,
        clusters_in_range(cs, 0),
    ensures
        relink(p, cs) == p,
    decreases cs.len(),
{
    if cs.len() > 0 {
        let init = cs.drop_last();
        assert forall|c: int| 0 <= c < init.len() implies #[trigger] init[c].0 < 0
            && forall|k: int| 0 <= k < init[c].1.len() ==> #[trigger] init[c].1[k] < 0 by {
            assert(init[c] == cs[c]);
            assert(cs[c].0 < 0);
        }
        lemma_relink_empty(p, init);
        assert(cs.last().0 < 0);
    }
}

/// New leaders that are leaders already, and that no cluster lists as a
/// member, stay leaders.
pub proof fn lemma_untouched_leaders_stay_roots(p: Seq<nat>, cs: Seq<(nat, Seq<nat>)>)
    requires
        clusters_in_range(cs, p.len()),
        forall|c: int| 0 <= c < cs.len() ==> is_root(p, #[trigger] cs[c].0),
        forall|c: int, d: int| 0 <= c < cs.len() && 0 <= d < cs.len() ==> !(#[trigger] cs[d].1.contains(#[trigger] cs[c].0)),
    ensures
        leaders_stay_roots(p, cs),
{
    assert forall|c: int| 0 <= c < cs.len() implies is_root(relink(p, cs), #[trigger] cs[c].0) by {
        let l = cs[c].0;
        assert(is_root(p, l));
        assert forall|d: int| 0 <= d < cs.len() implies !(#[trigger] cs[d].1.contains(l)) by {
            assert(!cs[d].1.contains(cs[c].0));
        }
        lemma_relink_entry(p, cs, l);
    }
}

/// A relinking whose new leaders stay leaders keeps the table a forest, one
/// level deeper at most, and each relinked member is led by its new leader.
pub proof fn lemma_relink_forest(p: Seq<nat>, cs: Seq<(nat, Seq<nat>)>, h: nat)
    requires
        is_forest(p, h),
        clusters_in_range(cs, p.len()),
        leaders_stay_roots(p, cs),
    ensures
        is_forest(relink(p, cs), h + 1),
        forall|c: int, m: nat|
            0 <= c < cs.len() && #[trigger] cs[c].1.contains(m)
                && (forall|d: int| c < d < cs.len() ==> !(#[trigger] cs[d].1.contains(m)))
            ==> leader(relink(p, cs), m) == cs[c].0,
{
    let q = relink(p, cs);
    let t = new_leaders(cs);
    lemma_relink_len(p, cs);
    assert forall|j: nat| j < p.len() implies #[trigger] q[j as int] == p[j as int] || t.contains(q[j as int]) by {
        lemma_relink_entry(p, cs, j);
    }
    assert forall|x: nat| #[trigger] t.contains(x) implies is_root(q, x) by {
        let c = choose|c: int| 0 <= c < cs.len() && #[trigger] cs[c].0 == x;
    }
    assert(retargeted(p, q, t));
    lemma_retarget_forest(p, q, t, h);
    assert forall|c: int, m: nat|
        0 <= c < cs.len() && #[trigger] cs[c].1.contains(m)
            && (forall|d: int| c < d < cs.len() ==> !(#[trigger] cs[d].1.contains(m)))
        implies leader(q, m) == cs[c].0 by {
        let k = choose|k: int| 0 <= k < cs[c].1.len() && cs[c].1[k] == m;
        assert(cs[c].0 < p.len());
        assert(m < p.len());
        lemma_relink_entry(p, cs, m);
        lemma_ancestor_one(q, m);
        lemma_leader_is(q, m, 1);
    }
}

/// A path that comes back to an id it visited never reaches a leader it
/// had not reached by then.
proof fn lemma_cycle_no_root(p: Seq<nat>, i: nat, a: nat, b: nat, m: nat)
    requires
        a < b,
        ancestor(p, i, a) == ancestor(p, i, b),
        forall|n: nat| n <= b ==> !is_root(p, #[trigger] ancestor(p, i, n)),
    ensures
        !is_root(p, ancestor(p, i, m)),
    decreases m,
{
    if m > b {
        let d = (b - a) as nat;
        lemma_cycle_no_root(p, i, a, b, (m - d) as nat);
        lemma_ancestor_add(p, i, a, (m - d - a) as nat);
        lemma_ancestor_add(p, i, b, (m - d - a) as nat);
        assert(b + (m - d - a) == m);
    }
}

/// In a forest of `p.len()` ids, `p.len()` links lead from any id to its
/// leader: no tree is deeper than the forest is large.
pub proof fn lemma_depth_within_size(p: Seq<nat>, h: nat, i: nat)
    requires
        is_forest(p, h),
        i < p.len(),
    ensures
        is_root(p, ancestor(p, i, p.len())),
{
    let len = p.len();
    if !is_root(p, ancestor(p, i, len)) {
        assert forall|n: nat| n <= len implies !is_root(p, #[trigger] ancestor(p, i, n)) by {
            if is_root(p, ancestor(p, i, n)) {
                lemma_root_stays(p, i, n, len);
            }
        }
        let f = |n: int| ancestor(p, i, n as nat) as int;
        let x = set_int_range(0, len + 1 as int);
        let y = x.map(f);
        lemma_int_range(0, len + 1 as int);
        lemma_int_range(0, len as int);
        assert(y.subset_of(set_int_range(0, len as int))) by {
            assert forall|v: int| y.contains(v) implies set_int_range(0, len as int).contains(v) by {
                let n = choose|n: int| x.contains(n) && f(n) == v;
                lemma_ancestor_in_range(p, i, n as nat);
            }
        }
        if injective_on(f, x) {
            lemma_map_size(x, y, f);
            lemma_len_subset(y, set_int_range(0, len as int));
        } else {
            let (a, b) = choose|a: int, b: int| x.contains(a) && x.contains(b) && f(a) == f(b) && a != b;
            if a < b {
                lemma_cycle_no_root(p, i, a as nat, b as nat, h);
            } else {
                lemma_cycle_no_root(p, i, b as nat, a as nat, h);
            }
        }
    }
}

} // verus!
