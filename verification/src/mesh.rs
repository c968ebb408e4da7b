//! The mesh of a scene: the first mesh that the walk meets, placed for a
//! renderer.

use vstd::prelude::*;
use crate::scene::{Node, NodeView, Payload, Scene, SceneView};
use crate::walk::{lemma_first_hit_unique, lemma_only_bearer};

verus! {

/// Why a scene gives no mesh.
#[derive(Clone, Copy, Debug, PartialEq, Eq, Structural)]
pub enum MeshError {
    /// No node of the walk carries a mesh.
    NoMesh,
}

/// The placement of the mesh of a scene. The geometry stays with the scene
/// file.
#[derive(Clone, Debug, PartialEq, Eq)]
pub struct MeshDescriptor {
    /// The world transform of the mesh, as the nodes from a root down to
    /// the node that carries it: it is the product of their local
    /// transforms, each parent's before its child's.
    pub world_transform: Vec<usize>,
    /// The index of the mesh among the meshes of the scene file.
    pub mesh: usize,
}

/// The mathematical content of a [`MeshDescriptor`].
pub struct MeshDescriptorView {
    pub world_transform: Seq<usize>,
    pub mesh: usize,
}

impl View for MeshDescriptor {
    type V = MeshDescriptorView;

    open spec fn view(&self) -> MeshDescriptorView {
        MeshDescriptorView { world_transform: self.world_transform@, mesh: self.mesh }
    }
}

/// What a mesh found at the end of `path` gives.
pub open spec fn mesh_at(node: NodeView, path: Seq<usize>) -> Result<MeshDescriptorView, MeshError> {
    match node.mesh {
        None => Err(MeshError::NoMesh),
        Some(mesh) => Ok(MeshDescriptorView { world_transform: path, mesh }),
    }
}

/// The outcome of an extraction, with the descriptor taken by its view.
pub open spec fn mesh_outcome(r: Result<MeshDescriptor, MeshError>) -> Result<
    MeshDescriptorView,
    MeshError,
> {
    match r {
        Ok(d) => Ok(d@),
        Err(e) => Err(e),
    }
}

/// What the extraction of the mesh owes on a scene: the mesh at the first
/// hit of the walk, and a failure where the walk has none.
pub open spec fn is_mesh_of(g: SceneView, r: Result<MeshDescriptorView, MeshError>) -> bool {
    ||| g.no_hit(Payload::Mesh) && r == Err::<MeshDescriptorView, MeshError>(MeshError::NoMesh)
    ||| exists|path: Seq<usize>| #[trigger]
        g.is_first_hit(path, Payload::Mesh) && r == mesh_at(g.nodes[path.last() as int], path)
}

/// A forest owes one outcome: two outcomes that the extraction of the mesh
/// may give on it are the same.
pub proof fn lemma_mesh_unique(
    g: SceneView,
    first: Result<MeshDescriptorView, MeshError>,
    second: Result<MeshDescriptorView, MeshError>,
)
    requires
        g.wf(),
        is_mesh_of(g, first),
        is_mesh_of(g, second),
    ensures
        first == second,
{
    if g.no_hit(Payload::Mesh) {
        assert(forall|p: Seq<usize>| g.is_first_hit(p, Payload::Mesh) ==> g.hit(p, Payload::Mesh));
    } else {
        let p = choose|path: Seq<usize>| #[trigger]
            g.is_first_hit(path, Payload::Mesh) && first == mesh_at(g.nodes[path.last() as int], path);
        let q = choose|path: Seq<usize>| #[trigger]
            g.is_first_hit(path, Payload::Mesh) && second == mesh_at(
                g.nodes[path.last() as int],
                path,
            );
        lemma_first_hit_unique(g, Payload::Mesh, p, q);
    }
}

/// A scene in which no node carries a mesh gives the failure
/// [`MeshError::NoMesh`], and no mesh.
pub proof fn lemma_no_mesh(g: SceneView, r: Result<MeshDescriptorView, MeshError>)
    requires
        forall|n: int| 0 <= n < g.nodes.len() ==> g.nodes[n].mesh is None,
        is_mesh_of(g, r),
    ensures
        r == Err::<MeshDescriptorView, MeshError>(MeshError::NoMesh),
{
    if !g.no_hit(Payload::Mesh) {
        let path = choose|path: Seq<usize>| #[trigger]
            g.is_first_hit(path, Payload::Mesh) && r == mesh_at(g.nodes[path.last() as int], path);
        assert(g.step(path, path.len() - 1));
    }
}

/// In a forest where one node alone carries a mesh, the extraction places
/// that mesh, and the world transform it gives is the path from a root to
/// that node.
pub proof fn lemma_single_mesh(
    g: SceneView,
    r: Result<MeshDescriptorView, MeshError>,
    way: Seq<usize>,
)
    requires
        g.wf(),
        is_mesh_of(g, r),
        g.hit(way, Payload::Mesh),
        forall|m: int, n: int|
            0 <= m < g.nodes.len() && 0 <= n < g.nodes.len() && g.nodes[m].bears(Payload::Mesh)
                && g.nodes[n].bears(Payload::Mesh) ==> m == n,
    ensures
        r == mesh_at(g.nodes[way.last() as int], way),
        r matches Ok(d) ==> d.world_transform == way,
{
    let path = choose|path: Seq<usize>| #[trigger]
        g.is_first_hit(path, Payload::Mesh) && r == mesh_at(g.nodes[path.last() as int], path);
    lemma_only_bearer(g, Payload::Mesh, path, way);
}

impl MeshDescriptor {
    /// Describes the mesh that `node` carries, reached by `path`.
    pub fn at(node: &Node, path: Vec<usize>) -> (r: Result<MeshDescriptor, MeshError>)
        ensures
            mesh_outcome(r) == mesh_at(node@, path@),
    {
        match node.mesh {
            None => Err(MeshError::NoMesh),
            Some(mesh) => Ok(MeshDescriptor { world_transform: path, mesh }),
        }
    }
}

/// Finds the first mesh of a depth-first walk of the scene and places it.
pub fn extract_mesh(scene: &Scene) -> (r: Result<MeshDescriptor, MeshError>)
    ensures
        is_mesh_of(scene@, mesh_outcome(r)),
{
    match scene.find_first(Payload::Mesh) {
        None => Err(MeshError::NoMesh),
        Some(path) => {
            let ghost way = path@;
            assert(scene@.step(way, way.len() - 1));
            let nodes = scene.nodes();
            let node = &nodes[path[path.len() - 1]];
            let r = MeshDescriptor::at(node, path);
            assert(scene@.is_first_hit(way, Payload::Mesh));
            r
        },
    }
}

} // verus!
