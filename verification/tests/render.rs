use gimme_the_3d::camera::{extract_camera, CameraDescriptor, CameraError};
use gimme_the_3d::mesh::{extract_mesh, MeshDescriptor, MeshError};
use gimme_the_3d::render::{
    plan_render, Blend, Cull, Material, RenderError, RenderPlan, Settings, Vector, Viewport,
    NEAR_PLANE_BITS, ONE_BITS, ZERO_BITS,
};
use gimme_the_3d::scene::{Camera, Node, Projection, Scalar, Scene};

fn scalar(x: f32) -> Scalar {
    Scalar { bits: x.to_bits() }
}

fn bare(children: Vec<usize>) -> Node {
    Node { children, camera: None, mesh: None }
}

fn with_mesh(children: Vec<usize>) -> Node {
    Node { children, camera: None, mesh: Some(0) }
}

fn with_camera(children: Vec<usize>, projection: Projection) -> Node {
    Node { children, camera: Some(Camera { index: 0, projection }), mesh: None }
}

fn perspective(yfov: f32, zfar: f32) -> Projection {
    Projection::Perspective { yfov: scalar(yfov), zfar: Some(scalar(zfar)) }
}

fn complete_scene() -> Scene {
    // 0 -> [1, 2]; 1 carries the camera, 2 the mesh
    let nodes = vec![
        bare(vec![1, 2]),
        with_camera(vec![], perspective(45.0f32.to_radians(), 100.0)),
        with_mesh(vec![]),
    ];
    Scene::new(nodes, vec![0]).unwrap()
}

#[test]
fn bit_patterns_are_those_of_the_reals() {
    assert_eq!(f32::from_bits(ZERO_BITS), 0.0);
    assert_eq!(f32::from_bits(ONE_BITS), 1.0);
    assert_eq!(f32::from_bits(NEAR_PLANE_BITS), 0.01);
}

#[test]
fn stock_settings_are_the_fixed_configuration() {
    let s = Settings::stock();
    assert_eq!(s.viewport, Viewport { width: 889, height: 800 });
    assert_eq!(f32::from_bits(s.near_plane.bits), 0.01);
    assert_eq!(s.texture, "test2.png");
    assert_eq!(s.input_dir, "output");
    assert_eq!(s.results_dir, "results");
}

#[test]
fn file_without_default_scene_is_not_rendered() {
    let r = plan_render(None, "scene.gltf", &Settings::stock());
    assert_eq!(r, Err(RenderError::NoDefaultScene));
}

#[test]
fn scene_without_camera_is_not_rendered() {
    let scene = Scene::new(vec![with_mesh(vec![])], vec![0]).unwrap();
    let r = plan_render(Some(&scene), "scene.gltf", &Settings::stock());
    assert_eq!(r, Err(RenderError::Camera(CameraError::NoCamera)));
}

#[test]
fn scene_with_unusable_camera_is_not_rendered() {
    let nodes = vec![with_camera(vec![1], Projection::Orthographic), with_mesh(vec![])];
    let scene = Scene::new(nodes, vec![0]).unwrap();
    let r = plan_render(Some(&scene), "scene.gltf", &Settings::stock());
    assert_eq!(r, Err(RenderError::Camera(CameraError::NotPerspective)));

    let open = Projection::Perspective { yfov: scalar(1.0), zfar: None };
    let nodes = vec![with_camera(vec![1], open), with_mesh(vec![])];
    let scene = Scene::new(nodes, vec![0]).unwrap();
    let r = plan_render(Some(&scene), "scene.gltf", &Settings::stock());
    assert_eq!(r, Err(RenderError::Camera(CameraError::NoFarPlane)));
}

#[test]
fn scene_without_mesh_is_not_rendered() {
    let scene = Scene::new(vec![with_camera(vec![], perspective(1.0, 10.0))], vec![0]).unwrap();
    let r = plan_render(Some(&scene), "scene.gltf", &Settings::stock());
    assert_eq!(r, Err(RenderError::Mesh(MeshError::NoMesh)));
}

#[test]
fn missing_camera_is_reported_before_missing_mesh() {
    let scene = Scene::new(vec![bare(vec![])], vec![0]).unwrap();
    let r = plan_render(Some(&scene), "scene.gltf", &Settings::stock());
    assert_eq!(r, Err(RenderError::Camera(CameraError::NoCamera)));
}

#[test]
fn plan_of_a_complete_scene() {
    let scene = complete_scene();
    let plan = plan_render(Some(&scene), "scene.gltf", &Settings::stock()).unwrap();
    let zero = scalar(0.0);
    let expected = RenderPlan {
        camera: CameraDescriptor {
            world_transform: vec![0, 1],
            camera: 0,
            vertical_fov: scalar(45.0f32.to_radians()),
            far_plane: scalar(100.0),
        },
        target: Vector { x: zero, y: zero, z: zero },
        up: Vector { x: zero, y: scalar(1.0), z: zero },
        near_plane: scalar(0.01),
        mesh: MeshDescriptor { world_transform: vec![0, 2], mesh: 0 },
        material: Material {
            transparent: false,
            cull: Cull::Neither,
            blend: Blend::StandardTransparency,
        },
        texture: "test2.png".to_string(),
        viewport: Viewport { width: 889, height: 800 },
        clear_first: false,
        output: "results/scene.png".to_string(),
    };
    assert_eq!(plan, expected);
}

#[test]
fn image_of_a_scene_in_a_subdirectory_lands_in_results() {
    // the scene file output/A/scene.gltf is planned by its name
    let scene = complete_scene();
    let plan = plan_render(Some(&scene), "scene.gltf", &Settings::stock()).unwrap();
    assert_eq!(plan.output, "results/scene.png");
    assert_eq!((plan.viewport.width, plan.viewport.height), (889, 800));
    assert_eq!(f32::from_bits(plan.camera.vertical_fov.bits), 45.0f32.to_radians());
}

#[test]
fn plan_follows_the_settings() {
    let settings = Settings {
        viewport: Viewport { width: 64, height: 48 },
        near_plane: scalar(0.5),
        texture: "wood.png".to_string(),
        input_dir: "in".to_string(),
        results_dir: "out".to_string(),
    };
    let scene = complete_scene();
    let plan = plan_render(Some(&scene), "chair.gltf", &settings).unwrap();
    assert_eq!(plan.viewport, Viewport { width: 64, height: 48 });
    assert_eq!(plan.near_plane, scalar(0.5));
    assert_eq!(plan.texture, "wood.png");
    assert_eq!(plan.output, "out/chair.png");
}

#[test]
fn planning_twice_gives_the_same_plan() {
    let scene = complete_scene();
    let first = plan_render(Some(&scene), "scene.gltf", &Settings::stock());
    let second = plan_render(Some(&scene), "scene.gltf", &Settings::stock());
    assert_eq!(first, second);
}

#[test]
fn assemble_puts_the_parts_together() {
    let scene = complete_scene();
    let camera = extract_camera(&scene);
    let mesh = extract_mesh(&scene);
    let plan = RenderPlan::assemble(camera.clone(), mesh.clone(), "a.gltf", &Settings::stock());
    let plan = plan.unwrap();
    assert_eq!(Ok(plan.camera), camera);
    assert_eq!(Ok(plan.mesh), mesh);
    assert_eq!(plan.output, "results/a.png");
}

#[test]
fn assemble_reports_the_camera_first() {
    let settings = Settings::stock();
    let r = RenderPlan::assemble(
        Err(CameraError::NoFarPlane),
        Err(MeshError::NoMesh),
        "a.gltf",
        &settings,
    );
    assert_eq!(r, Err(RenderError::Camera(CameraError::NoFarPlane)));
    let camera = CameraDescriptor {
        world_transform: vec![0],
        camera: 0,
        vertical_fov: scalar(1.0),
        far_plane: scalar(2.0),
    };
    let r = RenderPlan::assemble(Ok(camera), Err(MeshError::NoMesh), "a.gltf", &settings);
    assert_eq!(r, Err(RenderError::Mesh(MeshError::NoMesh)));
}
