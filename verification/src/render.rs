//! The render of one scene file: what is drawn, through which camera, into
//! what, and where the image goes.

use vstd::prelude::*;
use vstd::string::*;
use crate::batch::{output_path, output_path_of};
use crate::camera::{
    camera_outcome, extract_camera, is_camera_of, lemma_camera_unique, CameraDescriptor,
    CameraDescriptorView, CameraError,
};
use crate::mesh::{
    extract_mesh, is_mesh_of, lemma_mesh_unique, mesh_outcome, MeshDescriptor,
    MeshDescriptorView, MeshError,
};
use crate::scene::{Scalar, Scene};

verus! {

/// The bit pattern of the real number zero.
pub const ZERO_BITS: u32 = 0;

/// The bit pattern of the real number one.
pub const ONE_BITS: u32 = 0x3F80_0000;

/// The bit pattern of the single-precision real number nearest to 0.01, the
/// near clipping distance of every render.
pub const NEAR_PLANE_BITS: u32 = 0x3C23_D70A;

/// The size of the image, in pixels.
#[derive(Clone, Copy, Debug, PartialEq, Eq, Structural)]
pub struct Viewport {
    pub width: u32,
    pub height: u32,
}

/// A point or a direction in world space.
#[derive(Clone, Copy, Debug, PartialEq, Eq, Structural)]
pub struct Vector {
    pub x: Scalar,
    pub y: Scalar,
    pub z: Scalar,
}

/// Which faces of the mesh are left out.
#[derive(Clone, Copy, Debug, PartialEq, Eq, Structural)]
pub enum Cull {
    Neither,
    Back,
    Front,
}

/// How the colours of the mesh are laid over what was drawn before.
#[derive(Clone, Copy, Debug, PartialEq, Eq, Structural)]
pub enum Blend {
    Disabled,
    StandardTransparency,
}

/// How the mesh is drawn. Its one colour source is the texture of the
/// render.
#[derive(Clone, Copy, Debug, PartialEq, Eq, Structural)]
pub struct Material {
    pub transparent: bool,
    pub cull: Cull,
    pub blend: Blend,
}

/// What a batch is run with.
#[derive(Clone, Debug, PartialEq, Eq)]
pub struct Settings {
    /// The size of every image.
    pub viewport: Viewport,
    /// The near clipping distance of every camera.
    pub near_plane: Scalar,
    /// The file of the texture that every mesh is drawn with.
    pub texture: String,
    /// The directory whose subdirectories hold the scene files.
    pub input_dir: String,
    /// The directory that the images are written to.
    pub results_dir: String,
}

/// The mathematical content of [`Settings`].
pub struct SettingsView {
    pub viewport: Viewport,
    pub near_plane: Scalar,
    pub texture: Seq<char>,
    pub input_dir: Seq<char>,
    pub results_dir: Seq<char>,
}

impl View for Settings {
    type V = SettingsView;

    open spec fn view(&self) -> SettingsView {
        SettingsView {
            viewport: self.viewport,
            near_plane: self.near_plane,
            texture: self.texture@,
            input_dir: self.input_dir@,
            results_dir: self.results_dir@,
        }
    }
}

impl Settings {
    /// The settings of the stock batch: images of 889 by 800 pixels, a near
    /// clipping distance of 0.01, the texture `test2.png`, scene files under
    /// `output`, images under `results`.
    pub fn stock() -> (settings: Settings)
        ensures
            settings@ == (SettingsView {
                viewport: Viewport { width: 889, height: 800 },
                near_plane: Scalar { bits: NEAR_PLANE_BITS },
                texture: "test2.png"@,
                input_dir: "output"@,
                results_dir: "results"@,
            }),
    {
        Settings {
            viewport: Viewport { width: 889, height: 800 },
            near_plane: Scalar { bits: NEAR_PLANE_BITS },
            texture: String::from_str("test2.png"),
            input_dir: String::from_str("output"),
            results_dir: String::from_str("results"),
        }
    }
}

/// Why a scene file is not rendered.
#[derive(Clone, Copy, Debug, PartialEq, Eq, Structural)]
pub enum RenderError {
    /// The scene file names no default scene.
    NoDefaultScene,
    /// The scene gives no camera.
    Camera(CameraError),
    /// The scene gives no mesh.
    Mesh(MeshError),
}

/// One render, ready to be carried out.
#[derive(Clone, Debug, PartialEq, Eq)]
pub struct RenderPlan {
    /// The camera. Its eye is the origin taken through its world transform.
    pub camera: CameraDescriptor,
    /// The point that the camera looks at.
    pub target: Vector,
    /// The direction that the camera holds upwards.
    pub up: Vector,
    /// The near clipping distance.
    pub near_plane: Scalar,
    /// The placement of the mesh.
    pub mesh: MeshDescriptor,
    /// How the mesh is drawn.
    pub material: Material,
    /// The file of the texture that the mesh is drawn with. Its colours are
    /// taken to linear space before use.
    pub texture: String,
    /// The size of the colour and depth buffers, and of the image.
    pub viewport: Viewport,
    /// Whether the buffers are cleared before the mesh is drawn.
    pub clear_first: bool,
    /// The file that the image is written to.
    pub output: String,
}

/// The mathematical content of a [`RenderPlan`].
pub struct RenderPlanView {
    pub camera: CameraDescriptorView,
    pub target: Vector,
    pub up: Vector,
    pub near_plane: Scalar,
    pub mesh: MeshDescriptorView,
    pub material: Material,
    pub texture: Seq<char>,
    pub viewport: Viewport,
    pub clear_first: bool,
    pub output: Seq<char>,
}

impl View for RenderPlan {
    type V = RenderPlanView;

    open spec fn view(&self) -> RenderPlanView {
        RenderPlanView {
            camera: self.camera@,
            target: self.target,
            up: self.up,
            near_plane: self.near_plane,
            mesh: self.mesh@,
            material: self.material,
            texture: self.texture@,
            viewport: self.viewport,
            clear_first: self.clear_first,
            output: self.output@,
        }
    }
}

/// The origin of world space, which every camera looks at.
pub open spec fn origin() -> Vector {
    Vector {
        x: Scalar { bits: ZERO_BITS },
        y: Scalar { bits: ZERO_BITS },
        z: Scalar { bits: ZERO_BITS },
    }
}

/// The second axis of world space, which every camera holds upwards.
pub open spec fn upwards() -> Vector {
    Vector {
        x: Scalar { bits: ZERO_BITS },
        y: Scalar { bits: ONE_BITS },
        z: Scalar { bits: ZERO_BITS },
    }
}

/// How every mesh is drawn: opaque, with no face left out, and with the
/// standard blending set, which an opaque mesh does not use.
pub open spec fn opaque_two_sided() -> Material {
    Material { transparent: false, cull: Cull::Neither, blend: Blend::StandardTransparency }
}

/// The render of the scene file `name`, from what the extraction of its
/// camera and of its mesh gave. A failed camera is reported before a failed
/// mesh.
pub open spec fn plan_of(
    camera: Result<CameraDescriptorView, CameraError>,
    mesh: Result<MeshDescriptorView, MeshError>,
    name: Seq<char>,
    settings: SettingsView,
) -> Result<RenderPlanView, RenderError> {
    match camera {
        Err(e) => Err(RenderError::Camera(e)),
        Ok(camera) => match mesh {
            Err(e) => Err(RenderError::Mesh(e)),
            Ok(mesh) => Ok(
                RenderPlanView {
                    camera,
                    target: origin(),
                    up: upwards(),
                    near_plane: settings.near_plane,
                    mesh,
                    material: opaque_two_sided(),
                    texture: settings.texture,
                    viewport: settings.viewport,
                    clear_first: false,
                    output: output_path_of(settings.results_dir, name),
                },
            ),
        },
    }
}

/// The outcome of planning, with the plan taken by its view.
pub open spec fn plan_outcome(r: Result<RenderPlan, RenderError>) -> Result<
    RenderPlanView,
    RenderError,
> {
    match r {
        Ok(plan) => Ok(plan@),
        Err(e) => Err(e),
    }
}

/// What planning owes on the scene file `name`: a failure where the file
/// has no default scene, else the plan from the camera and the mesh of that
/// scene.
pub open spec fn is_plan_of(
    scene: Option<&Scene>,
    name: Seq<char>,
    settings: SettingsView,
    r: Result<RenderPlanView, RenderError>,
) -> bool {
    match scene {
        None => r == Err::<RenderPlanView, RenderError>(RenderError::NoDefaultScene),
        Some(scene) => exists|
            camera: Result<CameraDescriptorView, CameraError>,
            mesh: Result<MeshDescriptorView, MeshError>,
        |
            #![trigger is_camera_of(scene@, camera), is_mesh_of(scene@, mesh)]
            is_camera_of(scene@, camera) && is_mesh_of(scene@, mesh) && r == plan_of(
                camera,
                mesh,
                name,
                settings,
            ),
    }
}

/// Planning is settled by its input: two outcomes that planning may give on
/// one scene file, with one set of settings, are the same.
pub proof fn lemma_plan_unique(
    scene: Option<&Scene>,
    name: Seq<char>,
    settings: SettingsView,
    first: Result<RenderPlanView, RenderError>,
    second: Result<RenderPlanView, RenderError>,
)
    requires
        scene matches Some(s) ==> s@.wf(),
        is_plan_of(scene, name, settings, first),
        is_plan_of(scene, name, settings, second),
    ensures
        first == second,
{
    if let Some(s) = scene {
        let (c1, m1) = choose|
            camera: Result<CameraDescriptorView, CameraError>,
            mesh: Result<MeshDescriptorView, MeshError>,
        |
            #![trigger is_camera_of(s@, camera), is_mesh_of(s@, mesh)]
            is_camera_of(s@, camera) && is_mesh_of(s@, mesh) && first == plan_of(
                camera,
                mesh,
                name,
                settings,
            );
        let (c2, m2) = choose|
            camera: Result<CameraDescriptorView, CameraError>,
            mesh: Result<MeshDescriptorView, MeshError>,
        |
            #![trigger is_camera_of(s@, camera), is_mesh_of(s@, mesh)]
            is_camera_of(s@, camera) && is_mesh_of(s@, mesh) && second == plan_of(
                camera,
                mesh,
                name,
                settings,
            );
        lemma_camera_unique(s@, c1, c2);
        lemma_mesh_unique(s@, m1, m2);
    }
}

impl RenderPlan {
    /// Puts the render of the scene file `name` together from what the
    /// extraction of its camera and of its mesh gave.
    pub fn assemble(
        camera: Result<CameraDescriptor, CameraError>,
        mesh: Result<MeshDescriptor, MeshError>,
        name: &str,
        settings: &Settings,
    ) -> (r: Result<RenderPlan, RenderError>)
        ensures
            plan_outcome(r) == plan_of(
                camera_outcome(camera),
                mesh_outcome(mesh),
                name@,
                settings@,
            ),
    {
        let camera = match camera {
            Err(e) => {
                return Err(RenderError::Camera(e));
            },
            Ok(camera) => camera,
        };
        let mesh = match mesh {
            Err(e) => {
                return Err(RenderError::Mesh(e));
            },
            Ok(mesh) => mesh,
        };
        let zero = Scalar { bits: ZERO_BITS };
        let one = Scalar { bits: ONE_BITS };
        Ok(
            RenderPlan {
                camera,
                target: Vector { x: zero, y: zero, z: zero },
                up: Vector { x: zero, y: one, z: zero },
                near_plane: settings.near_plane,
                mesh,
                material: Material {
                    transparent: false,
                    cull: Cull::Neither,
                    blend: Blend::StandardTransparency,
                },
                texture: settings.texture.clone(),
                viewport: settings.viewport,
                clear_first: false,
                output: output_path(settings.results_dir.as_str(), name),
            },
        )
    }
}

/// Plans the render of the scene file `name`, whose default scene is
/// `scene`: its first camera looks at the origin, its first mesh is drawn
/// opaque and two-sided with the texture of the batch, into buffers that are
/// not cleared first, and the image goes to the results directory under the
/// file's name with the extension `png`.
pub fn plan_render(scene: Option<&Scene>, name: &str, settings: &Settings) -> (r: Result<
    RenderPlan,
    RenderError,
>)
    ensures
        is_plan_of(scene, name@, settings@, plan_outcome(r)),
{
    match scene {
        None => Err(RenderError::NoDefaultScene),
        Some(scene) => {
            let camera = extract_camera(scene);
            let mesh = extract_mesh(scene);
            let ghost found_camera = camera_outcome(camera);
            let ghost found_mesh = mesh_outcome(mesh);
            let r = RenderPlan::assemble(camera, mesh, name, settings);
            assert(is_camera_of(scene@, found_camera) && is_mesh_of(scene@, found_mesh));
            r
        },
    }
}

} // verus!
