//! The depth-first walk: paths from a root, the order in which the walk
//! meets them, and the search for the first node that carries a payload.

use vstd::prelude::*;
use crate::scene::{Payload, Scene, SceneView};

verus! {

/// The parent of `p[i]` along `p`: none for the first node.
pub open spec fn parent_in(p: Seq<usize>, i: int) -> Option<int> {
    if i == 0 {
        None
    } else {
        Some(p[i - 1] as int)
    }
}

/// `q` continues `t` by at least one node.
pub open spec fn beneath(t: Seq<usize>, q: Seq<usize>) -> bool {
    t.len() < q.len() && t.is_prefix_of(q)
}

impl SceneView {
    /// `p[i]` is a node of the scene, held under the node before it, or
    /// among the roots where it is the first.
    pub open spec fn step(self, p: Seq<usize>, i: int) -> bool {
        &&& p[i] < self.nodes.len()
        &&& self.under(parent_in(p, i)).contains(p[i])
    }

    /// `p` leads from a root down to its last node, child by child.
    pub open spec fn is_path(self, p: Seq<usize>) -> bool {
        &&& p.len() > 0
        &&& forall|i: int| 0 <= i < p.len() ==> #[trigger] self.step(p, i)
    }

    /// `p` and `q` agree on their first `i` nodes and part there, `p` to
    /// the sibling at position `a` and `q` to a later one at position `b`.
    pub open spec fn branches_before(
        self,
        p: Seq<usize>,
        q: Seq<usize>,
        i: int,
        a: int,
        b: int,
    ) -> bool {
        &&& 0 <= i < p.len()
        &&& i < q.len()
        &&& p.take(i) == q.take(i)
        &&& 0 <= a < b < self.under(parent_in(p, i)).len()
        &&& self.under(parent_in(p, i))[a] == p[i]
        &&& self.under(parent_in(p, i))[b] == q[i]
    }

    /// A depth-first walk that visits a node before its children, and the
    /// children in order, reaches the end of `p` no later than the end of
    /// `q`.
    pub open spec fn precedes(self, p: Seq<usize>, q: Seq<usize>) -> bool {
        ||| p.is_prefix_of(q)
        ||| exists|i: int, a: int, b: int| #[trigger] self.branches_before(p, q, i, a, b)
    }

    /// `p` is a path to a node that carries a payload of the given kind.
    pub open spec fn hit(self, p: Seq<usize>, kind: Payload) -> bool {
        &&& self.is_path(p)
        &&& self.nodes[p.last() as int].bears(kind)
    }

    /// `p` is the path to the first node of the walk that carries a payload
    /// of the given kind.
    pub open spec fn is_first_hit(self, p: Seq<usize>, kind: Payload) -> bool {
        &&& self.hit(p, kind)
        &&& forall|q: Seq<usize>| #[trigger] self.hit(q, kind) ==> self.precedes(p, q)
    }

    /// No node of the walk carries a payload of the given kind.
    pub open spec fn no_hit(self, kind: Payload) -> bool {
        forall|q: Seq<usize>| !#[trigger] self.hit(q, kind)
    }

    /// The nodes directly under the end of `t`: the roots under the empty
    /// trail.
    pub open spec fn below(self, t: Seq<usize>) -> Seq<usize> {
        self.under(parent_in(t, t.len() as int))
    }

    /// `t` is empty or a path.
    pub open spec fn is_trail(self, t: Seq<usize>) -> bool {
        t.len() > 0 ==> self.is_path(t)
    }

    /// No path to a payload of the given kind starts with `t`.
    pub open spec fn barren(self, t: Seq<usize>, kind: Payload) -> bool {
        forall|q: Seq<usize>| #[trigger] self.hit(q, kind) ==> !t.is_prefix_of(q)
    }

    /// No path to a payload of the given kind continues `t`.
    pub open spec fn barren_beneath(self, t: Seq<usize>, kind: Payload) -> bool {
        forall|q: Seq<usize>| #[trigger] self.hit(q, kind) ==> !beneath(t, q)
    }

    /// Among the paths to a payload of the given kind that continue `t`,
    /// `p` comes first.
    pub open spec fn first_beneath(self, t: Seq<usize>, p: Seq<usize>, kind: Payload) -> bool {
        &&& beneath(t, p)
        &&& self.hit(p, kind)
        &&& forall|q: Seq<usize>| #[trigger] self.hit(q, kind) && beneath(t, q) ==> self.precedes(p, q)
    }
}

/// A sequence of distinct numbers below `n` has at most `n` entries.
pub proof fn lemma_distinct_bounded(s: Seq<usize>, n: nat)
    requires
        s.no_duplicates(),
        forall|i: int| 0 <= i < s.len() ==> s[i] < n,
    ensures
        s.len() <= n,
    decreases n,
{
    if s.len() == 0 {
    } else if n == 0 {
        assert(s[0] < 0);
    } else if exists|i: int| 0 <= i < s.len() && s[i] == n - 1 {
        let i = choose|i: int| 0 <= i < s.len() && s[i] == n - 1;
        let t = s.remove(i);
        assert forall|k: int| 0 <= k < t.len() implies t[k] < n - 1 by {
            if k < i {
                assert(t[k] == s[k]);
            } else {
                assert(t[k] == s[k + 1]);
            }
        }
        assert forall|k: int, l: int| 0 <= k < t.len() && 0 <= l < t.len() && k != l implies t[k]
            != t[l] by {
            let k0 = if k < i { k } else { k + 1 };
            let l0 = if l < i { l } else { l + 1 };
            assert(t[k] == s[k0] && t[l] == s[l0]);
        }
        lemma_distinct_bounded(t, (n - 1) as nat);
    } else {
        lemma_distinct_bounded(s, (n - 1) as nat);
    }
}

/// In a forest, two paths that reach the same node reach it at the same
/// depth, by the same nodes.
proof fn lemma_same_way(g: SceneView, p: Seq<usize>, q: Seq<usize>, i: int, j: int)
    requires
        g.wf(),
        g.is_path(p),
        g.is_path(q),
        0 <= i < p.len(),
        0 <= j < q.len(),
        p[i] == q[j],
    ensures
        i == j,
        p.take(i + 1) == q.take(j + 1),
    decreases i,
{
    assert(g.step(p, i));
    assert(g.step(q, j));
    let a = choose|a: int|
        0 <= a < g.under(parent_in(p, i)).len() && g.under(parent_in(p, i))[a] == p[i];
    let b = choose|b: int|
        0 <= b < g.under(parent_in(q, j)).len() && g.under(parent_in(q, j))[b] == q[j];
    if i > 0 {
        assert(g.step(p, i - 1));
    }
    if j > 0 {
        assert(g.step(q, j - 1));
    }
    assert(g.is_slot(parent_in(p, i), a));
    assert(g.is_slot(parent_in(q, j), b));
    assert(g.held(parent_in(p, i), a) == g.held(parent_in(q, j), b));
    assert(parent_in(p, i) == parent_in(q, j));
    if i > 0 {
        lemma_same_way(g, p, q, i - 1, j - 1);
        assert(p.take(i + 1) =~= p.take(i).push(p[i]));
        assert(q.take(j + 1) =~= q.take(j).push(q[j]));
    } else {
        assert(p.take(1) =~= q.take(1));
    }
}

/// In a forest, one path leads to each node that the walk reaches.
pub proof fn lemma_one_path(g: SceneView, p: Seq<usize>, q: Seq<usize>)
    requires
        g.wf(),
        g.is_path(p),
        g.is_path(q),
        p.last() == q.last(),
    ensures
        p == q,
{
    lemma_same_way(g, p, q, p.len() - 1, q.len() - 1);
    assert(p =~= p.take(p.len() as int));
    assert(q =~= q.take(q.len() as int));
}

/// In a forest, no path is longer than the scene has nodes.
pub proof fn lemma_path_bounded(g: SceneView, p: Seq<usize>)
    requires
        g.wf(),
        g.is_path(p),
    ensures
        p.no_duplicates(),
        p.len() <= g.nodes.len(),
{
    assert forall|i: int, j: int| 0 <= i < p.len() && 0 <= j < p.len() && i != j implies p[i]
        != p[j] by {
        if p[i] == p[j] {
            lemma_same_way(g, p, p, i, j);
        }
    }
    assert forall|i: int| 0 <= i < p.len() implies p[i] < g.nodes.len() by {
        assert(g.step(p, i));
    }
    lemma_distinct_bounded(p, g.nodes.len());
}

/// Two paths that agree on their first `i` nodes are met by the walk in one
/// order or the other.
proof fn lemma_compare_from(g: SceneView, p: Seq<usize>, q: Seq<usize>, i: int)
    requires
        g.is_path(p),
        g.is_path(q),
        0 <= i <= p.len(),
        i <= q.len(),
        p.take(i) == q.take(i),
    ensures
        g.precedes(p, q) || g.precedes(q, p),
    decreases p.len() - i,
{
    if i == p.len() {
        assert(p =~= p.take(i));
    } else if i == q.len() {
        assert(q =~= q.take(i));
    } else if p[i] == q[i] {
        assert(p.take(i + 1) =~= p.take(i).push(p[i]));
        assert(q.take(i + 1) =~= q.take(i).push(q[i]));
        lemma_compare_from(g, p, q, i + 1);
    } else {
        assert(g.step(p, i));
        assert(g.step(q, i));
        if i > 0 {
            assert(p.take(i)[i - 1] == p[i - 1]);
            assert(q.take(i)[i - 1] == q[i - 1]);
        }
        let list = g.under(parent_in(p, i));
        assert(list == g.under(parent_in(q, i)));
        let a = choose|a: int| 0 <= a < list.len() && list[a] == p[i];
        let b = choose|b: int| 0 <= b < list.len() && list[b] == q[i];
        if a < b {
            assert(g.branches_before(p, q, i, a, b));
        } else {
            assert(g.branches_before(q, p, i, b, a));
        }
    }
}

/// The walk meets any two paths in one order or the other.
pub proof fn lemma_precedes_total(g: SceneView, p: Seq<usize>, q: Seq<usize>)
    requires
        g.is_path(p),
        g.is_path(q),
    ensures
        g.precedes(p, q) || g.precedes(q, p),
{
    assert(p.take(0) =~= q.take(0));
    lemma_compare_from(g, p, q, 0);
}

/// In a forest, a path that parts from `q` towards an earlier sibling is
/// no start of `q`.
proof fn lemma_branch_parts(g: SceneView, p: Seq<usize>, q: Seq<usize>, i: int, a: int, b: int)
    requires
        g.wf(),
        g.is_path(p),
        g.branches_before(p, q, i, a, b),
    ensures
        p[i] != q[i],
{
    if i > 0 {
        assert(g.step(p, i - 1));
    }
    assert(g.is_slot(parent_in(p, i), a));
    assert(g.is_slot(parent_in(p, i), b));
    assert(g.held(parent_in(p, i), a) == p[i]);
    assert(g.held(parent_in(p, i), b) == q[i]);
}

/// In a forest, two paths that the walk meets each no later than the other
/// are one path.
pub proof fn lemma_precedes_antisymmetric(g: SceneView, p: Seq<usize>, q: Seq<usize>)
    requires
        g.wf(),
        g.is_path(p),
        g.is_path(q),
        g.precedes(p, q),
        g.precedes(q, p),
    ensures
        p == q,
{
    if p.is_prefix_of(q) && q.is_prefix_of(p) {
        assert(p =~= q);
    } else if p.is_prefix_of(q) {
        let (i, a, b) = choose|i: int, a: int, b: int| #[trigger] g.branches_before(q, p, i, a, b);
        lemma_branch_parts(g, q, p, i, a, b);
        assert(p[i] == q.subrange(0, p.len() as int)[i]);
    } else if q.is_prefix_of(p) {
        let (i, a, b) = choose|i: int, a: int, b: int| #[trigger] g.branches_before(p, q, i, a, b);
        lemma_branch_parts(g, p, q, i, a, b);
        assert(q[i] == p.subrange(0, q.len() as int)[i]);
    } else {
        let (i, a, b) = choose|i: int, a: int, b: int| #[trigger] g.branches_before(p, q, i, a, b);
        let (j, c, d) = choose|j: int, c: int, d: int| #[trigger] g.branches_before(q, p, j, c, d);
        lemma_branch_parts(g, p, q, i, a, b);
        lemma_branch_parts(g, q, p, j, c, d);
        if i < j {
            assert(q.take(j)[i] == q[i]);
            assert(p.take(j)[i] == p[i]);
        } else if j < i {
            assert(p.take(i)[j] == p[j]);
            assert(q.take(i)[j] == q[j]);
        } else {
            if i > 0 {
                assert(p.take(i)[i - 1] == p[i - 1]);
                assert(q.take(i)[i - 1] == q[i - 1]);
                assert(g.step(p, i - 1));
            }
            assert(parent_in(p, i) == parent_in(q, i));
            assert(g.is_slot(parent_in(p, i), a));
            assert(g.is_slot(parent_in(p, i), b));
            assert(g.is_slot(parent_in(p, i), c));
            assert(g.is_slot(parent_in(p, i), d));
            assert(g.held(parent_in(p, i), a) == g.held(parent_in(p, i), d));
            assert(g.held(parent_in(p, i), b) == g.held(parent_in(p, i), c));
        }
    }
}

/// In a forest, a path that the walk meets no later than a second, which it
/// meets no later than a third, is met no later than the third.
pub proof fn lemma_precedes_transitive(g: SceneView, p: Seq<usize>, q: Seq<usize>, r: Seq<usize>)
    requires
        g.wf(),
        g.is_path(q),
        g.precedes(p, q),
        g.precedes(q, r),
    ensures
        g.precedes(p, r),
{
    if p.is_prefix_of(q) {
        if q.is_prefix_of(r) {
            assert(p =~= r.subrange(0, p.len() as int));
        } else {
            let (i, a, b) = choose|i: int, a: int, b: int| #[trigger]
                g.branches_before(q, r, i, a, b);
            if i < p.len() {
                assert(p.take(i) =~= q.take(i));
                assert(p[i] == q.subrange(0, p.len() as int)[i]);
                if i > 0 {
                    assert(p[i - 1] == q.subrange(0, p.len() as int)[i - 1]);
                }
                assert(g.branches_before(p, r, i, a, b));
            } else {
                assert forall|k: int| 0 <= k < p.len() implies p[k] == r[k] by {
                    assert(p[k] == q.subrange(0, p.len() as int)[k]);
                    assert(q.take(i)[k] == q[k]);
                    assert(r.take(i)[k] == r[k]);
                }
                assert(p =~= r.subrange(0, p.len() as int));
            }
        }
    } else {
        let (i, a, b) = choose|i: int, a: int, b: int| #[trigger] g.branches_before(p, q, i, a, b);
        if i > 0 {
            assert(p.take(i)[i - 1] == p[i - 1]);
            assert(q.take(i)[i - 1] == q[i - 1]);
        }
        if q.is_prefix_of(r) {
            assert(r[i] == r.subrange(0, q.len() as int)[i]);
            assert(p.take(i) =~= r.take(i)) by {
                assert forall|k: int| 0 <= k < i implies p[k] == r[k] by {
                    assert(p.take(i)[k] == p[k]);
                    assert(q.take(i)[k] == q[k]);
                    assert(r[k] == r.subrange(0, q.len() as int)[k]);
                }
            }
            assert(g.branches_before(p, r, i, a, b));
        } else {
            let (j, c, d) = choose|j: int, c: int, d: int| #[trigger]
                g.branches_before(q, r, j, c, d);
            if j > 0 {
                assert(q.take(j)[j - 1] == q[j - 1]);
                assert(r.take(j)[j - 1] == r[j - 1]);
            }
            if i < j {
                assert(q.take(j)[i] == q[i]);
                assert(r.take(j)[i] == r[i]);
                assert(p.take(i) =~= r.take(i)) by {
                    assert forall|k: int| 0 <= k < i implies p[k] == r[k] by {
                        assert(p.take(i)[k] == p[k]);
                        assert(q.take(i)[k] == q[k]);
                        assert(q.take(j)[k] == q[k]);
                        assert(r.take(j)[k] == r[k]);
                    }
                }
                assert(g.branches_before(p, r, i, a, b));
            } else if j < i {
                assert(p.take(i)[j] == p[j]);
                assert(q.take(i)[j] == q[j]);
                if j > 0 {
                    assert(p.take(i)[j - 1] == p[j - 1]);
                    assert(q.take(i)[j - 1] == q[j - 1]);
                }
                assert(p.take(j) =~= r.take(j)) by {
                    assert forall|k: int| 0 <= k < j implies p[k] == r[k] by {
                        assert(p.take(i)[k] == p[k]);
                        assert(q.take(i)[k] == q[k]);
                        assert(q.take(j)[k] == q[k]);
                        assert(r.take(j)[k] == r[k]);
                    }
                }
                assert(g.branches_before(p, r, j, c, d));
            } else {
                if i > 0 {
                    assert(g.step(q, i - 1));
                }
                let parent = parent_in(q, i);
                assert(parent == parent_in(p, i));
                assert(g.is_slot(parent, b));
                assert(g.is_slot(parent, c));
                assert(g.held(parent, b) == g.held(parent, c));
                assert(p.take(i) =~= r.take(i));
                assert(g.branches_before(p, r, i, a, d));
            }
        }
    }
}

/// In a forest, the walk has one first node that carries a payload of a
/// kind: two paths that are each the first to such a node are one path.
pub proof fn lemma_first_hit_unique(g: SceneView, kind: Payload, p: Seq<usize>, q: Seq<usize>)
    requires
        g.wf(),
        g.is_first_hit(p, kind),
        g.is_first_hit(q, kind),
    ensures
        p == q,
{
    lemma_precedes_antisymmetric(g, p, q);
}

/// In a forest where one node alone carries a payload of a kind, the first
/// hit of the walk is the path from a root to that node, whichever way the
/// path was found.
pub proof fn lemma_only_bearer(
    g: SceneView,
    kind: Payload,
    first: Seq<usize>,
    way: Seq<usize>,
)
    requires
        g.wf(),
        g.is_first_hit(first, kind),
        g.hit(way, kind),
        forall|m: int, n: int|
            0 <= m < g.nodes.len() && 0 <= n < g.nodes.len() && g.nodes[m].bears(kind)
                && g.nodes[n].bears(kind) ==> m == n,
    ensures
        first == way,
{
    assert(g.step(first, first.len() - 1));
    assert(g.step(way, way.len() - 1));
    lemma_one_path(g, first, way);
}

/// A trail continued by a node held under its end is a path.
proof fn lemma_continue(g: SceneView, t: Seq<usize>, k: int)
    requires
        g.wf(),
        g.is_trail(t),
        0 <= k < g.below(t).len(),
    ensures
        g.is_path(t.push(g.below(t)[k])),
        g.below(t)[k] < g.nodes.len(),
{
    let c = g.below(t)[k];
    let p = t.push(c);
    let last = t.len() as int;
    if last > 0 {
        assert(g.step(t, last - 1));
    }
    assert(g.is_slot(parent_in(t, last), k));
    assert(g.held(parent_in(t, last), k) == c);
    assert forall|i: int| 0 <= i < p.len() implies #[trigger] g.step(p, i) by {
        if i < last {
            assert(g.step(t, i));
            assert(parent_in(p, i) == parent_in(t, i));
        } else {
            assert(parent_in(p, i) == parent_in(t, last));
        }
    }
}

/// A path that continues `t` goes on with a node held under the end of `t`.
proof fn lemma_next_below(g: SceneView, t: Seq<usize>, q: Seq<usize>) -> (j: int)
    requires
        g.is_path(q),
        beneath(t, q),
    ensures
        0 <= j < g.below(t).len(),
        g.below(t)[j] == q[t.len() as int],
        t.push(g.below(t)[j]).is_prefix_of(q),
{
    let last = t.len() as int;
    assert(g.step(q, last));
    if last > 0 {
        assert(q.subrange(0, last)[last - 1] == q[last - 1]);
    }
    assert(parent_in(q, last) == parent_in(t, last));
    let j = choose|j: int| 0 <= j < g.below(t).len() && g.below(t)[j] == q[last];
    assert(t.push(q[last]) =~= q.subrange(0, last + 1));
    j
}

/// The hit `p`, which passes through position `k` under the end of `t`,
/// comes before every hit that continues `t`, where nothing under an
/// earlier position is a hit and `p` comes before every hit that starts as
/// `p` does.
proof fn lemma_first_beneath(g: SceneView, kind: Payload, t: Seq<usize>, k: int, p: Seq<usize>)
    requires
        0 <= k < g.below(t).len(),
        forall|j: int| 0 <= j < k ==> #[trigger] g.barren(t.push(g.below(t)[j]), kind),
        t.push(g.below(t)[k]).is_prefix_of(p),
        g.hit(p, kind),
        forall|q: Seq<usize>| #[trigger]
            g.hit(q, kind) && t.push(g.below(t)[k]).is_prefix_of(q) ==> g.precedes(p, q),
    ensures
        g.first_beneath(t, p, kind),
{
    let last = t.len() as int;
    let head = t.push(g.below(t)[k]);
    assert(t =~= head.subrange(0, last));
    assert(t =~= p.subrange(0, last));
    assert(p[last] == head[last]);
    assert forall|q: Seq<usize>| #[trigger] g.hit(q, kind) && beneath(t, q) implies g.precedes(
        p,
        q,
    ) by {
        let j = lemma_next_below(g, t, q);
        if j < k {
            assert(g.barren(t.push(g.below(t)[j]), kind));
        } else if j > k {
            assert(p.take(last) =~= q.take(last));
            assert(parent_in(p, last) == parent_in(t, last));
            assert(g.branches_before(p, q, last, k, j));
        }
    }
}

/// Nothing that continues `t` is a hit where nothing under the end of `t`
/// starts one.
proof fn lemma_barren_beneath(g: SceneView, kind: Payload, t: Seq<usize>)
    requires
        forall|j: int| 0 <= j < g.below(t).len() ==> #[trigger] g.barren(t.push(g.below(t)[j]), kind),
    ensures
        g.barren_beneath(t, kind),
{
    assert forall|q: Seq<usize>| #[trigger] g.hit(q, kind) implies !beneath(t, q) by {
        if beneath(t, q) {
            let j = lemma_next_below(g, t, q);
            assert(g.barren(t.push(g.below(t)[j]), kind));
        }
    }
}

/// No hit starts with the path `p` where its end carries no payload of the
/// kind and nothing that continues it is a hit.
proof fn lemma_barren(g: SceneView, kind: Payload, p: Seq<usize>)
    requires
        p.len() > 0,
        !g.nodes[p.last() as int].bears(kind),
        g.barren_beneath(p, kind),
    ensures
        g.barren(p, kind),
{
    assert forall|q: Seq<usize>| #[trigger] g.hit(q, kind) implies !p.is_prefix_of(q) by {
        if p.is_prefix_of(q) {
            if q.len() == p.len() {
                assert(q =~= p);
            } else {
                assert(beneath(p, q));
            }
        }
    }
}

impl Scene {
    /// Walks the nodes under the end of `trail`, each before its children,
    /// until one carries a payload of the given kind, and leaves the path to
    /// it in `trail`.
    fn search_beneath(&self, kind: Payload, trail: &mut Vec<usize>) -> (found: bool)
        requires
            self@.is_trail(old(trail)@),
        ensures
            found ==> self@.first_beneath(old(trail)@, final(trail)@, kind),
            !found ==> final(trail)@ == old(trail)@ && self@.barren_beneath(old(trail)@, kind),
        decreases self@.nodes.len() - old(trail)@.len(),
    {
        proof {
            use_type_invariant(self);
        }
        let ghost g = self@;
        let ghost t = trail@;
        let nodes = self.nodes();
        let depth = trail.len();
        let list = if depth == 0 {
            self.roots()
        } else {
            proof {
                assert(g.step(t, depth - 1));
            }
            &nodes[trail[depth - 1]].children
        };
        assert(list@ == g.below(t));
        let mut k: usize = 0;
        while k < list.len()
            invariant
                g == self@,
                g.wf(),
                g.is_trail(t),
                t == old(trail)@,
                trail@ == t,
                list@ == g.below(t),
                nodes@.len() == g.nodes.len(),
                forall|i: int| 0 <= i < nodes@.len() ==> (#[trigger] nodes@[i])@ == g.nodes[i],
                k <= list@.len(),
                forall|j: int| 0 <= j < k ==> #[trigger] g.barren(t.push(g.below(t)[j]), kind),
            decreases list@.len() - k,
        {
            let child = list[k];
            proof {
                lemma_continue(g, t, k as int);
                lemma_path_bounded(g, t.push(child));
            }
            trail.push(child);
            assert(nodes@[child as int]@ == g.nodes[child as int]);
            if nodes[child].bears(kind) {
                proof {
                    assert(trail@ =~= trail@.subrange(0, trail@.len() as int));
                    lemma_first_beneath(g, kind, t, k as int, trail@);
                }
                return true;
            }
            if self.search_beneath(kind, trail) {
                proof {
                    let head = t.push(child);
                    assert(head =~= trail@.subrange(0, head.len() as int));
                    assert forall|q: Seq<usize>| #[trigger]
                        g.hit(q, kind) && head.is_prefix_of(q) implies g.precedes(trail@, q) by {
                        if q.len() == head.len() {
                            assert(q =~= head);
                        } else {
                            assert(beneath(head, q));
                        }
                    }
                    lemma_first_beneath(g, kind, t, k as int, trail@);
                }
                return true;
            }
            proof {
                lemma_barren(g, kind, t.push(child));
            }
            trail.pop();
            assert(trail@ =~= t);
            k += 1;
        }
        proof {
            lemma_barren_beneath(g, kind, t);
        }
        false
    }

    /// The path from a root to the first node that a depth-first walk of the
    /// scene finds to carry a payload of the given kind, where there is one.
    pub fn find_first(&self, kind: Payload) -> (found: Option<Vec<usize>>)
        ensures
            match found {
                Some(path) => self@.is_first_hit(path@, kind),
                None => self@.no_hit(kind),
            },
    {
        let mut trail: Vec<usize> = Vec::new();
        let ghost empty = trail@;
        if self.search_beneath(kind, &mut trail) {
            proof {
                assert forall|q: Seq<usize>| #[trigger] self@.hit(q, kind) implies self@.precedes(
                    trail@,
                    q,
                ) by {
                    assert(beneath(empty, q));
                }
            }
            Some(trail)
        } else {
            proof {
                assert forall|q: Seq<usize>| !#[trigger] self@.hit(q, kind) by {
                    if self@.hit(q, kind) {
                        assert(beneath(empty, q));
                    }
                }
            }
            None
        }
    }
}

} // verus!
