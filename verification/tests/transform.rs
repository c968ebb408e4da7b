use gimme_the_3d::camera::extract_camera;
use gimme_the_3d::mesh::extract_mesh;
use gimme_the_3d::scene::{Camera, Node, Projection, Scalar, Scene};
use gimme_the_3d::transform::world_transform;
use nalgebra::{Matrix4, Point3, Vector3};

fn scalar(x: f32) -> Scalar {
    Scalar { bits: x.to_bits() }
}

fn bare(children: Vec<usize>) -> Node {
    Node { children, camera: None, mesh: None }
}

fn with_mesh(children: Vec<usize>) -> Node {
    Node { children, camera: None, mesh: Some(0) }
}

fn with_camera(children: Vec<usize>) -> Node {
    let projection = Projection::Perspective { yfov: scalar(0.8), zfar: Some(scalar(100.0)) };
    Node { children, camera: Some(Camera { index: 0, projection }), mesh: None }
}

fn product(a: Matrix4<f32>, b: Matrix4<f32>) -> Matrix4<f32> {
    a * b
}

#[test]
fn world_transform_of_an_empty_chain_is_none() {
    let locals = vec![Matrix4::<f32>::identity()];
    assert_eq!(world_transform(&vec![], &locals, product), None);
}

#[test]
fn world_transform_needs_a_local_transform_for_each_node() {
    let locals = vec![Matrix4::<f32>::identity()];
    assert_eq!(world_transform(&vec![1], &locals, product), None);
    assert_eq!(world_transform(&vec![0, 1], &locals, product), None);
    assert_eq!(world_transform(&vec![0, 0, 7], &locals, product), None);
}

#[test]
fn world_transform_of_a_root_is_its_local_transform() {
    let local = Matrix4::new_translation(&Vector3::new(1.0f32, 2.0, 3.0));
    let locals = vec![Matrix4::identity(), local];
    assert_eq!(world_transform(&vec![1], &locals, product), Some(local));
}

#[test]
fn world_transform_multiplies_parent_before_child() {
    // a product that does not commute shows the order: digits in a row
    let locals: Vec<u64> = vec![1, 2, 3];
    let joined = world_transform(&vec![2, 0, 1], &locals, |parent, local| parent * 10 + local);
    assert_eq!(joined, Some(312));
}

#[test]
fn world_transform_exists_for_every_extracted_path() {
    let nodes = vec![bare(vec![1]), bare(vec![2, 3]), with_mesh(vec![]), with_camera(vec![])];
    let scene = Scene::new(nodes, vec![0]).unwrap();
    let locals: Vec<u64> = vec![4, 5, 6, 7];
    let camera = extract_camera(&scene).unwrap();
    let mesh = extract_mesh(&scene).unwrap();
    let digits = |parent: u64, local: u64| parent * 10 + local;
    assert_eq!(world_transform(&camera.world_transform, &locals, digits), Some(457));
    assert_eq!(world_transform(&mesh.world_transform, &locals, digits), Some(456));
}

#[test]
fn world_transform_of_nested_nodes_is_the_product_along_the_path() {
    // 0 (rotate about y) -> 1 (translate) -> 2 (scale, carries the camera)
    //                    -> 3 (translate, carries the mesh)
    let rotate = Matrix4::from_euler_angles(0.0f32, std::f32::consts::FRAC_PI_2, 0.0);
    let shift = Matrix4::new_translation(&Vector3::new(1.0f32, 0.0, 0.0));
    let scale = Matrix4::new_scaling(2.0f32);
    let lift = Matrix4::new_translation(&Vector3::new(0.0f32, 4.0, 0.0));
    let locals = vec![rotate, shift, scale, lift];
    let nodes = vec![bare(vec![1, 3]), bare(vec![2]), with_camera(vec![]), with_mesh(vec![])];
    let scene = Scene::new(nodes, vec![0]).unwrap();

    let camera = extract_camera(&scene).unwrap();
    let world = world_transform(&camera.world_transform, &locals, product).unwrap();
    assert_eq!(world, rotate * shift * scale);
    assert_ne!(world, scale * shift * rotate);

    let mesh = extract_mesh(&scene).unwrap();
    let world = world_transform(&mesh.world_transform, &locals, product).unwrap();
    assert_eq!(world, rotate * lift);
}

#[test]
fn eye_of_a_camera_under_identity_ancestors_is_its_own_position() {
    // 0 -> 1 -> 2; the ancestors do not move, the camera stands at (0, 0, 5)
    let place = Matrix4::new_translation(&Vector3::new(0.0f32, 0.0, 5.0));
    let locals = vec![Matrix4::identity(), Matrix4::identity(), place];
    let nodes = vec![bare(vec![1]), bare(vec![2]), with_camera(vec![])];
    let scene = Scene::new(nodes, vec![0]).unwrap();
    let camera = extract_camera(&scene).unwrap();
    let world = world_transform(&camera.world_transform, &locals, product).unwrap();
    let eye = world.transform_point(&Point3::origin());
    assert_eq!(eye, Point3::new(0.0, 0.0, 5.0));
}

#[test]
fn eye_of_a_camera_follows_its_ancestors() {
    // the parent shifts by (1, 2, 3), the camera by (0, 0, 10)
    let parent = Matrix4::new_translation(&Vector3::new(1.0f32, 2.0, 3.0));
    let place = Matrix4::new_translation(&Vector3::new(0.0f32, 0.0, 10.0));
    let locals = vec![parent, place];
    let nodes = vec![bare(vec![1]), with_camera(vec![])];
    let scene = Scene::new(nodes, vec![0]).unwrap();
    let camera = extract_camera(&scene).unwrap();
    let world = world_transform(&camera.world_transform, &locals, product).unwrap();
    let eye = world.transform_point(&Point3::origin());
    assert_eq!(eye, Point3::new(1.0, 2.0, 13.0));
}
