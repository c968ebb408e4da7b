use gimme_the_3d::camera::{extract_camera, CameraDescriptor, CameraError};
use gimme_the_3d::mesh::{extract_mesh, MeshDescriptor, MeshError};
use gimme_the_3d::scene::{Camera, Node, Projection, Scalar, Scene};

fn scalar(x: f32) -> Scalar {
    Scalar { bits: x.to_bits() }
}

fn bare(children: Vec<usize>) -> Node {
    Node { children, camera: None, mesh: None }
}

fn with_mesh(children: Vec<usize>, mesh: usize) -> Node {
    Node { children, camera: None, mesh: Some(mesh) }
}

fn with_camera(children: Vec<usize>, index: usize, projection: Projection) -> Node {
    Node { children, camera: Some(Camera { index, projection }), mesh: None }
}

fn perspective(yfov: f32, zfar: Option<f32>) -> Projection {
    Projection::Perspective { yfov: scalar(yfov), zfar: zfar.map(scalar) }
}

#[test]
fn camera_is_described_with_its_path_and_lens() {
    // 0 -> 1 -> 2, and 2 carries the camera
    let nodes = vec![
        bare(vec![1]),
        bare(vec![2]),
        with_camera(vec![], 4, perspective(0.5, Some(100.0))),
    ];
    let scene = Scene::new(nodes, vec![0]).unwrap();
    let expected = CameraDescriptor {
        world_transform: vec![0, 1, 2],
        camera: 4,
        vertical_fov: scalar(0.5),
        far_plane: scalar(100.0),
    };
    assert_eq!(extract_camera(&scene), Ok(expected));
}

#[test]
fn field_of_view_is_passed_through_in_radians() {
    let yfov = 45.0f32.to_radians();
    let nodes = vec![with_camera(vec![], 0, perspective(yfov, Some(50.0)))];
    let scene = Scene::new(nodes, vec![0]).unwrap();
    let d = extract_camera(&scene).unwrap();
    assert_eq!(f32::from_bits(d.vertical_fov.bits), std::f32::consts::FRAC_PI_4);
    assert_eq!(f32::from_bits(d.far_plane.bits), 50.0);
}

#[test]
fn scene_without_camera_gives_no_camera() {
    let nodes = vec![bare(vec![1]), with_mesh(vec![], 0)];
    let scene = Scene::new(nodes, vec![0]).unwrap();
    assert_eq!(extract_camera(&scene), Err(CameraError::NoCamera));
}

#[test]
fn empty_scene_gives_no_camera_and_no_mesh() {
    let scene = Scene::new(vec![], vec![]).unwrap();
    assert_eq!(extract_camera(&scene), Err(CameraError::NoCamera));
    assert_eq!(extract_mesh(&scene), Err(MeshError::NoMesh));
}

#[test]
fn camera_outside_the_roots_gives_no_camera() {
    let nodes = vec![bare(vec![]), with_camera(vec![], 0, perspective(1.0, Some(10.0)))];
    let scene = Scene::new(nodes, vec![0]).unwrap();
    assert_eq!(extract_camera(&scene), Err(CameraError::NoCamera));
}

#[test]
fn orthographic_camera_is_not_taken() {
    let nodes = vec![with_camera(vec![], 0, Projection::Orthographic)];
    let scene = Scene::new(nodes, vec![0]).unwrap();
    assert_eq!(extract_camera(&scene), Err(CameraError::NotPerspective));
}

#[test]
fn camera_without_far_plane_is_not_taken() {
    let nodes = vec![with_camera(vec![], 0, perspective(1.0, None))];
    let scene = Scene::new(nodes, vec![0]).unwrap();
    assert_eq!(extract_camera(&scene), Err(CameraError::NoFarPlane));
}

#[test]
fn only_the_first_camera_counts() {
    // the first camera of the walk is orthographic; a later perspective
    // camera does not stand in for it
    let nodes = vec![
        bare(vec![1, 2]),
        with_camera(vec![], 0, Projection::Orthographic),
        with_camera(vec![], 1, perspective(1.0, Some(10.0))),
    ];
    let scene = Scene::new(nodes, vec![0]).unwrap();
    assert_eq!(extract_camera(&scene), Err(CameraError::NotPerspective));
}

#[test]
fn later_cameras_are_passed_over() {
    let nodes = vec![
        bare(vec![1, 2]),
        with_camera(vec![], 1, perspective(0.25, Some(10.0))),
        with_camera(vec![], 0, perspective(0.75, Some(20.0))),
    ];
    let scene = Scene::new(nodes, vec![0]).unwrap();
    let d = extract_camera(&scene).unwrap();
    assert_eq!(d.world_transform, vec![0, 1]);
    assert_eq!(d.camera, 1);
    assert_eq!(d.vertical_fov, scalar(0.25));
    assert_eq!(d.far_plane, scalar(10.0));
}

#[test]
fn camera_at_builds_from_the_node_alone() {
    let node = with_camera(vec![], 3, perspective(1.0, Some(2.0)));
    let d = CameraDescriptor::at(&node, vec![9, 8]).unwrap();
    assert_eq!(d.world_transform, vec![9, 8]);
    assert_eq!(d.camera, 3);
    assert_eq!(CameraDescriptor::at(&bare(vec![]), vec![0]), Err(CameraError::NoCamera));
}

#[test]
fn mesh_is_placed_by_its_path() {
    let nodes = vec![bare(vec![1]), with_mesh(vec![], 6)];
    let scene = Scene::new(nodes, vec![0]).unwrap();
    let expected = MeshDescriptor { world_transform: vec![0, 1], mesh: 6 };
    assert_eq!(extract_mesh(&scene), Ok(expected));
}

#[test]
fn scene_without_mesh_gives_no_mesh() {
    let nodes = vec![with_camera(vec![], 0, perspective(1.0, Some(10.0)))];
    let scene = Scene::new(nodes, vec![0]).unwrap();
    assert_eq!(extract_mesh(&scene), Err(MeshError::NoMesh));
}

#[test]
fn later_meshes_are_passed_over() {
    let nodes = vec![with_mesh(vec![1], 2), with_mesh(vec![], 5)];
    let scene = Scene::new(nodes, vec![0]).unwrap();
    let d = extract_mesh(&scene).unwrap();
    assert_eq!(d.world_transform, vec![0]);
    assert_eq!(d.mesh, 2);
}

#[test]
fn mesh_at_builds_from_the_node_alone() {
    let d = MeshDescriptor::at(&with_mesh(vec![], 1), vec![4]).unwrap();
    assert_eq!(d, MeshDescriptor { world_transform: vec![4], mesh: 1 });
    assert_eq!(MeshDescriptor::at(&bare(vec![]), vec![4]), Err(MeshError::NoMesh));
}

#[test]
fn one_camera_and_one_mesh_are_each_found_by_their_own_path() {
    // 0 -> [1, 3], 1 -> [2]; 2 carries the camera, 3 the mesh
    let nodes = vec![
        bare(vec![1, 3]),
        bare(vec![2]),
        with_camera(vec![], 0, perspective(0.8, Some(30.0))),
        with_mesh(vec![], 0),
    ];
    let scene = Scene::new(nodes, vec![0]).unwrap();
    assert_eq!(extract_camera(&scene).unwrap().world_transform, vec![0, 1, 2]);
    assert_eq!(extract_mesh(&scene).unwrap().world_transform, vec![0, 3]);
}
