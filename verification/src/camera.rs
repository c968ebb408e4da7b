//! The camera of a scene: the first camera that the walk meets, described
//! for a renderer.

use vstd::prelude::*;
use crate::scene::{Node, NodeView, Payload, Projection, Scalar, Scene, SceneView};
use crate::walk::{lemma_first_hit_unique, lemma_only_bearer};

verus! {

/// Why a scene gives no camera.
#[derive(Clone, Copy, Debug, PartialEq, Eq, Structural)]
pub enum CameraError {
    /// No node of the walk carries a camera.
    NoCamera,
    /// The first camera of the walk is not a perspective camera.
    NotPerspective,
    /// The first camera of the walk sets no far clipping distance.
    NoFarPlane,
}

/// The camera of a scene.
#[derive(Clone, Debug, PartialEq, Eq)]
pub struct CameraDescriptor {
    /// The world transform of the camera, as the nodes from a root down to
    /// the node that carries it: it is the product of their local
    /// transforms, each parent's before its child's.
    pub world_transform: Vec<usize>,
    /// The index of the camera among the cameras of the scene file.
    pub camera: usize,
    /// The vertical field of view, in radians.
    pub vertical_fov: Scalar,
    /// The far clipping distance.
    pub far_plane: Scalar,
}

/// The mathematical content of a [`CameraDescriptor`].
pub struct CameraDescriptorView {
    pub world_transform: Seq<usize>,
    pub camera: usize,
    pub vertical_fov: Scalar,
    pub far_plane: Scalar,
}

impl View for CameraDescriptor {
    type V = CameraDescriptorView;

    open spec fn view(&self) -> CameraDescriptorView {
        CameraDescriptorView {
            world_transform: self.world_transform@,
            camera: self.camera,
            vertical_fov: self.vertical_fov,
            far_plane: self.far_plane,
        }
    }
}

/// What a camera found at the end of `path` gives: a descriptor where the
/// node carries a perspective camera with a far clipping distance.
pub open spec fn camera_at(node: NodeView, path: Seq<usize>) -> Result<
    CameraDescriptorView,
    CameraError,
> {
    match node.camera {
        None => Err(CameraError::NoCamera),
        Some(camera) => match camera.projection {
            Projection::Orthographic => Err(CameraError::NotPerspective),
            Projection::Perspective { yfov, zfar: None } => Err(CameraError::NoFarPlane),
            Projection::Perspective { yfov, zfar: Some(zfar) } => Ok(
                CameraDescriptorView {
                    world_transform: path,
                    camera: camera.index,
                    vertical_fov: yfov,
                    far_plane: zfar,
                },
            ),
        },
    }
}

/// The outcome of an extraction, with the descriptor taken by its view.
pub open spec fn camera_outcome(r: Result<CameraDescriptor, CameraError>) -> Result<
    CameraDescriptorView,
    CameraError,
> {
    match r {
        Ok(d) => Ok(d@),
        Err(e) => Err(e),
    }
}

/// What the extraction of the camera owes on a scene: the camera at the
/// first hit of the walk, and a failure where the walk has none.
pub open spec fn is_camera_of(g: SceneView, r: Result<CameraDescriptorView, CameraError>) -> bool {
    ||| g.no_hit(Payload::Camera) && r == Err::<CameraDescriptorView, CameraError>(
        CameraError::NoCamera,
    )
    ||| exists|path: Seq<usize>| #[trigger]
        g.is_first_hit(path, Payload::Camera) && r == camera_at(g.nodes[path.last() as int], path)
}

/// A forest owes one outcome: two outcomes that the extraction of the camera
/// may give on it are the same.
pub proof fn lemma_camera_unique(
    g: SceneView,
    first: Result<CameraDescriptorView, CameraError>,
    second: Result<CameraDescriptorView, CameraError>,
)
    requires
        g.wf(),
        is_camera_of(g, first),
        is_camera_of(g, second),
    ensures
        first == second,
{
    if g.no_hit(Payload::Camera) {
        assert(forall|p: Seq<usize>| g.is_first_hit(p, Payload::Camera) ==> g.hit(p, Payload::Camera));
    } else {
        let p = choose|path: Seq<usize>| #[trigger]
            g.is_first_hit(path, Payload::Camera) && first == camera_at(
                g.nodes[path.last() as int],
                path,
            );
        let q = choose|path: Seq<usize>| #[trigger]
            g.is_first_hit(path, Payload::Camera) && second == camera_at(
                g.nodes[path.last() as int],
                path,
            );
        lemma_first_hit_unique(g, Payload::Camera, p, q);
    }
}

/// A scene in which no node carries a camera gives the failure
/// [`CameraError::NoCamera`], and no camera.
pub proof fn lemma_no_camera(g: SceneView, r: Result<CameraDescriptorView, CameraError>)
    requires
        forall|n: int| 0 <= n < g.nodes.len() ==> g.nodes[n].camera is None,
        is_camera_of(g, r),
    ensures
        r == Err::<CameraDescriptorView, CameraError>(CameraError::NoCamera),
{
    if !g.no_hit(Payload::Camera) {
        let path = choose|path: Seq<usize>| #[trigger]
            g.is_first_hit(path, Payload::Camera) && r == camera_at(
                g.nodes[path.last() as int],
                path,
            );
        assert(g.step(path, path.len() - 1));
    }
}

/// In a forest where one node alone carries a camera, the extraction
/// describes that camera, and the world transform it gives is the path from
/// a root to that node.
pub proof fn lemma_single_camera(
    g: SceneView,
    r: Result<CameraDescriptorView, CameraError>,
    way: Seq<usize>,
)
    requires
        g.wf(),
        is_camera_of(g, r),
        g.hit(way, Payload::Camera),
        forall|m: int, n: int|
            0 <= m < g.nodes.len() && 0 <= n < g.nodes.len() && g.nodes[m].bears(Payload::Camera)
                && g.nodes[n].bears(Payload::Camera) ==> m == n,
    ensures
        r == camera_at(g.nodes[way.last() as int], way),
        r matches Ok(d) ==> d.world_transform == way,
{
    let path = choose|path: Seq<usize>| #[trigger]
        g.is_first_hit(path, Payload::Camera) && r == camera_at(g.nodes[path.last() as int], path);
    lemma_only_bearer(g, Payload::Camera, path, way);
}

impl CameraDescriptor {
    /// Describes the camera that `node` carries, reached by `path`.
    pub fn at(node: &Node, path: Vec<usize>) -> (r: Result<CameraDescriptor, CameraError>)
        ensures
            camera_outcome(r) == camera_at(node@, path@),
    {
        match node.camera {
            None => Err(CameraError::NoCamera),
            Some(camera) => match camera.projection {
                Projection::Orthographic => Err(CameraError::NotPerspective),
                Projection::Perspective { yfov, zfar: None } => Err(CameraError::NoFarPlane),
                Projection::Perspective { yfov, zfar: Some(zfar) } => Ok(
                    CameraDescriptor {
                        world_transform: path,
                        camera: camera.index,
                        vertical_fov: yfov,
                        far_plane: zfar,
                    },
                ),
            },
        }
    }
}

/// Finds the first camera of a depth-first walk of the scene and describes
/// it. A scene without a camera, and a first camera that lacks what a
/// perspective view needs, each give their own failure: no value is made up.
pub fn extract_camera(scene: &Scene) -> (r: Result<CameraDescriptor, CameraError>)
    ensures
        is_camera_of(scene@, camera_outcome(r)),
{
    match scene.find_first(Payload::Camera) {
        None => Err(CameraError::NoCamera),
        Some(path) => {
            let ghost way = path@;
            assert(scene@.step(way, way.len() - 1));
            let nodes = scene.nodes();
            let node = &nodes[path[path.len() - 1]];
            let r = CameraDescriptor::at(node, path);
            assert(scene@.is_first_hit(way, Payload::Camera));
            r
        },
    }
}

} // verus!
