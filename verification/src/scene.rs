//! The scene graph: nodes, what they carry, and the hierarchy that holds them.

use vstd::prelude::*;

verus! {

/// A single-precision real number, carried by its IEEE 754 bit pattern.
#[derive(Clone, Copy, Debug, PartialEq, Eq, Structural)]
pub struct Scalar {
    pub bits: u32,
}

/// How a camera projects the scene.
#[derive(Clone, Copy, Debug, PartialEq, Eq, Structural)]
pub enum Projection {
    /// A perspective projection with its vertical field of view, in radians,
    /// and its far clipping distance, where the scene sets one.
    Perspective { yfov: Scalar, zfar: Option<Scalar> },
    /// An orthographic projection.
    Orthographic,
}

/// A camera that a node refers to: its index among the cameras of the scene
/// file, and its projection.
#[derive(Clone, Copy, Debug, PartialEq, Eq, Structural)]
pub struct Camera {
    pub index: usize,
    pub projection: Projection,
}

/// What a walk over the scene looks for.
#[derive(Clone, Copy, Debug, PartialEq, Eq, Structural)]
pub enum Payload {
    Camera,
    Mesh,
}

/// One node of a scene: the nodes directly below it, in order, and what it
/// carries. A mesh is referred to by its index among the meshes of the scene
/// file.
#[derive(Clone, Debug, PartialEq, Eq)]
pub struct Node {
    pub children: Vec<usize>,
    pub camera: Option<Camera>,
    pub mesh: Option<usize>,
}

/// The mathematical content of a [`Node`].
pub struct NodeView {
    pub children: Seq<usize>,
    pub camera: Option<Camera>,
    pub mesh: Option<usize>,
}

impl View for Node {
    type V = NodeView;

    open spec fn view(&self) -> NodeView {
        NodeView { children: self.children@, camera: self.camera, mesh: self.mesh }
    }
}

impl NodeView {
    /// Whether the node carries a payload of the given kind.
    pub open spec fn bears(self, kind: Payload) -> bool {
        match kind {
            Payload::Camera => self.camera is Some,
            Payload::Mesh => self.mesh is Some,
        }
    }
}

impl Node {
    /// Whether the node carries a payload of the given kind.
    pub fn bears(&self, kind: Payload) -> (b: bool)
        ensures
            b == self@.bears(kind),
    {
        match kind {
            Payload::Camera => self.camera.is_some(),
            Payload::Mesh => self.mesh.is_some(),
        }
    }
}

/// Why a hierarchy was turned down.
#[derive(Clone, Copy, Debug, PartialEq, Eq, Structural)]
pub enum SceneError {
    /// A root or a child is no node of the scene.
    NodeOutOfRange,
    /// A node is held twice: it is listed twice, has two parents, or is a
    /// root and a child at once. Every cycle below a root shows as this.
    NodeHeldTwice,
}

/// The mathematical content of a [`Scene`]: its nodes by index, and its
/// roots in order.
pub struct SceneView {
    pub nodes: Seq<NodeView>,
    pub roots: Seq<usize>,
}

impl SceneView {
    /// The nodes directly under `parent`, in order: the roots where there is
    /// no parent.
    pub open spec fn under(self, parent: Option<int>) -> Seq<usize> {
        match parent {
            None => self.roots,
            Some(n) => self.nodes[n].children,
        }
    }

    /// Whether position `i` of the list under `parent` is a place of the
    /// hierarchy.
    pub open spec fn is_slot(self, parent: Option<int>, i: int) -> bool {
        &&& parent matches Some(n) ==> 0 <= n < self.nodes.len()
        &&& 0 <= i < self.under(parent).len()
    }

    /// The node held at position `i` under `parent`.
    pub open spec fn held(self, parent: Option<int>, i: int) -> usize {
        self.under(parent)[i]
    }

    /// Every root and every child is a node of the scene.
    pub open spec fn in_range(self) -> bool {
        forall|parent: Option<int>, i: int|
            self.is_slot(parent, i) ==> #[trigger] self.held(parent, i) < self.nodes.len()
    }

    /// No node is held at two places: the roots are distinct and nobody's
    /// child, and every other node is the child of at most one node, once.
    pub open spec fn is_forest(self) -> bool {
        forall|p: Option<int>, i: int, q: Option<int>, j: int|
            self.is_slot(p, i) && self.is_slot(q, j) && #[trigger] self.held(p, i)
                == #[trigger] self.held(q, j) ==> p == q && i == j
    }

    /// The hierarchy is a forest over the nodes of the scene.
    pub open spec fn wf(self) -> bool {
        &&& self.in_range()
        &&& self.is_forest()
    }
}

impl SceneView {
    /// The scene that a list of nodes and a list of roots describe.
    pub open spec fn of(nodes: Seq<Node>, roots: Seq<usize>) -> SceneView {
        SceneView { nodes: Seq::new(nodes.len(), |i: int| nodes[i]@), roots }
    }
}

/// A scene: a forest of nodes.
#[derive(Debug)]
pub struct Scene {
    nodes: Vec<Node>,
    roots: Vec<usize>,
}

impl View for Scene {
    type V = SceneView;

    closed spec fn view(&self) -> SceneView {
        SceneView::of(self.nodes@, self.roots@)
    }
}

/// Where a list stands in the order in which the hierarchy is checked: the
/// roots first, then the children of each node by its index.
spec fn rank(parent: Option<int>) -> int {
    match parent {
        None => -1,
        Some(n) => n,
    }
}

/// The slot `(parent, i)` comes before position `upto` of the list of rank
/// `at`.
spec fn done(g: SceneView, parent: Option<int>, i: int, at: int, upto: int) -> bool {
    &&& g.is_slot(parent, i)
    &&& rank(parent) < at || (rank(parent) == at && i < upto)
}

/// `seen` marks exactly the nodes that the slots before `(at, upto)` hold,
/// each held by one of them alone, which `holder` names.
spec fn marked(
    g: SceneView,
    seen: Seq<bool>,
    holder: Seq<(Option<int>, int)>,
    at: int,
    upto: int,
) -> bool {
    &&& seen.len() == g.nodes.len()
    &&& holder.len() == g.nodes.len()
    &&& forall|p: Option<int>, i: int| #[trigger]
        done(g, p, i, at, upto) ==> seen[g.held(p, i) as int] && holder[g.held(p, i) as int] == (
            p,
            i,
        )
    &&& forall|x: int|
        0 <= x < seen.len() && #[trigger] seen[x] ==> done(g, holder[x].0, holder[x].1, at, upto)
            && g.held(holder[x].0, holder[x].1) == x
}

/// Whether every entry of `list` is below `bound`.
fn all_below(list: &Vec<usize>, bound: usize) -> (ok: bool)
    ensures
        ok == (forall|i: int| 0 <= i < list@.len() ==> list@[i] < bound),
{
    let mut i: usize = 0;
    while i < list.len()
        invariant
            i <= list@.len(),
            forall|k: int| 0 <= k < i ==> list@[k] < bound,
        decreases list@.len() - i,
    {
        if list[i] >= bound {
            return false;
        }
        i += 1;
    }
    true
}

/// Marks the nodes that `list` holds, and says whether each was unmarked
/// before.
fn mark(
    list: &Vec<usize>,
    seen: &mut Vec<bool>,
    Ghost(g): Ghost<SceneView>,
    Ghost(parent): Ghost<Option<int>>,
    Ghost(holder): Ghost<Seq<(Option<int>, int)>>,
) -> (r: (bool, Ghost<Seq<(Option<int>, int)>>))
    requires
        g.in_range(),
        parent matches Some(n) ==> 0 <= n < g.nodes.len(),
        list@ == g.under(parent),
        marked(g, old(seen)@, holder, rank(parent), 0),
    ensures
        r.0 ==> marked(g, final(seen)@, r.1@, rank(parent) + 1, 0),
        !r.0 ==> !g.is_forest(),
{
    let ghost mut holder = holder;
    let mut i: usize = 0;
    while i < list.len()
        invariant
            g.in_range(),
            parent matches Some(n) ==> 0 <= n < g.nodes.len(),
            list@ == g.under(parent),
            i <= list@.len(),
            marked(g, seen@, holder, rank(parent), i as int),
        decreases list@.len() - i,
    {
        let x = list[i];
        assert(g.is_slot(parent, i as int));
        assert(g.held(parent, i as int) == x);
        if seen[x] {
            proof {
                let (q, j) = holder[x as int];
                assert(done(g, q, j, rank(parent), i as int));
                assert(g.held(q, j) == x);
                assert(!(q == parent && j == i));
            }
            return (false, Ghost(holder));
        }
        let ghost before = seen@;
        let ghost held_by = holder;
        seen.set(x, true);
        proof {
            holder = holder.update(x as int, (parent, i as int));
            assert forall|p: Option<int>, k: int| #[trigger]
                done(g, p, k, rank(parent), i + 1) implies seen@[g.held(p, k) as int]
                && holder[g.held(p, k) as int] == (p, k) by {
                if p == parent && k == i {
                } else {
                    assert(done(g, p, k, rank(parent), i as int));
                }
            }
            assert forall|y: int| 0 <= y < seen@.len() && #[trigger] seen@[y] implies done(
                g,
                holder[y].0,
                holder[y].1,
                rank(parent),
                i + 1,
            ) && g.held(holder[y].0, holder[y].1) == y by {
                if y != x {
                    assert(before[y]);
                    assert(done(g, held_by[y].0, held_by[y].1, rank(parent), i as int));
                }
            }
        }
        i += 1;
    }
    proof {
        assert forall|p: Option<int>, k: int| #[trigger]
            done(g, p, k, rank(parent) + 1, 0) implies seen@[g.held(p, k) as int]
            && holder[g.held(p, k) as int] == (p, k) by {
            assert(done(g, p, k, rank(parent), i as int));
        }
    }
    (true, Ghost(holder))
}

impl Scene {
    /// Every scene is a forest over its own nodes.
    #[verifier::type_invariant]
    pub open spec fn inv(&self) -> bool {
        self@.wf()
    }

    /// Builds a scene from its nodes and its roots, where they form a forest.
    pub fn new(nodes: Vec<Node>, roots: Vec<usize>) -> (r: Result<Scene, SceneError>)
        ensures
            match r {
                Ok(scene) => scene@ == SceneView::of(nodes@, roots@) && scene@.wf(),
                Err(SceneError::NodeOutOfRange) => !SceneView::of(nodes@, roots@).in_range(),
                Err(SceneError::NodeHeldTwice) => SceneView::of(nodes@, roots@).in_range()
                    && !SceneView::of(nodes@, roots@).is_forest(),
            },
    {
        let ghost g = SceneView::of(nodes@, roots@);
        let count = nodes.len();
        if !all_below(&roots, count) {
            proof {
                let i = choose|i: int| 0 <= i < roots@.len() && !(roots@[i] < count);
                assert(g.is_slot(None, i));
                assert(g.held(None, i) >= g.nodes.len());
            }
            return Err(SceneError::NodeOutOfRange);
        }
        let mut n: usize = 0;
        while n < count
            invariant
                count == nodes@.len(),
                g == SceneView::of(nodes@, roots@),
                n <= count,
                forall|i: int| 0 <= i < roots@.len() ==> roots@[i] < count,
                forall|m: int, i: int|
                    0 <= m < n && 0 <= i < nodes@[m].children@.len()
                        ==> #[trigger] nodes@[m].children@[i] < count,
            decreases count - n,
        {
            if !all_below(&nodes[n].children, count) {
                proof {
                    let list = nodes@[n as int].children@;
                    let i = choose|i: int| 0 <= i < list.len() && !(list[i] < count);
                    assert(g.is_slot(Some(n as int), i));
                    assert(g.held(Some(n as int), i) >= g.nodes.len());
                }
                return Err(SceneError::NodeOutOfRange);
            }
            n += 1;
        }
        assert(g.in_range()) by {
            assert forall|parent: Option<int>, i: int| g.is_slot(parent, i) implies #[trigger] g.held(
                parent,
                i,
            ) < g.nodes.len() by {
                match parent {
                    None => {},
                    Some(m) => {
                        assert(nodes@[m].children@[i] < count);
                    },
                }
            }
        }
        let mut seen: Vec<bool> = Vec::new();
        let mut k: usize = 0;
        while k < count
            invariant
                k <= count,
                seen@.len() == k,
                forall|x: int| 0 <= x < k ==> !seen@[x],
            decreases count - k,
        {
            seen.push(false);
            k += 1;
        }
        let ghost holder: Seq<(Option<int>, int)> = Seq::new(count as nat, |x: int| (None, 0int));
        assert(marked(g, seen@, holder, -1, 0));
        let (fresh, Ghost(roots_holder)) = mark(&roots, &mut seen, Ghost(g), Ghost(None), Ghost(holder));
        if !fresh {
            return Err(SceneError::NodeHeldTwice);
        }
        let ghost mut holder = roots_holder;
        let mut n: usize = 0;
        while n < count
            invariant
                count == nodes@.len(),
                g == SceneView::of(nodes@, roots@),
                g.in_range(),
                n <= count,
                marked(g, seen@, holder, n as int, 0),
            decreases count - n,
        {
            let (fresh, Ghost(next)) = mark(
                &nodes[n].children,
                &mut seen,
                Ghost(g),
                Ghost(Some(n as int)),
                Ghost(holder),
            );
            if !fresh {
                return Err(SceneError::NodeHeldTwice);
            }
            proof {
                holder = next;
            }
            n += 1;
        }
        assert(g.is_forest()) by {
            assert forall|p: Option<int>, i: int, q: Option<int>, j: int|
                g.is_slot(p, i) && g.is_slot(q, j) && #[trigger] g.held(p, i) == #[trigger] g.held(
                    q,
                    j,
                ) implies p == q && i == j by {
                assert(done(g, p, i, count as int, 0));
                assert(done(g, q, j, count as int, 0));
            }
        }
        Ok(Scene { nodes, roots })
    }

    /// The nodes of the scene, by index.
    pub fn nodes(&self) -> (nodes: &Vec<Node>)
        ensures
            nodes@.len() == self@.nodes.len(),
            forall|i: int| 0 <= i < nodes@.len() ==> (#[trigger] nodes@[i])@ == self@.nodes[i],
    {
        &self.nodes
    }

    /// The roots of the scene, in order.
    pub fn roots(&self) -> (roots: &Vec<usize>)
        ensures
            roots@ == self@.roots,
    {
        &self.roots
    }
}

} // verus!
