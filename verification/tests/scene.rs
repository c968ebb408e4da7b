use gimme_the_3d::scene::{Camera, Node, Payload, Projection, Scalar, Scene, SceneError};

fn bare(children: Vec<usize>) -> Node {
    Node { children, camera: None, mesh: None }
}

#[test]
fn empty_scene_is_accepted() {
    let scene = Scene::new(vec![], vec![]).unwrap();
    assert!(scene.nodes().is_empty());
    assert!(scene.roots().is_empty());
}

#[test]
fn scene_keeps_nodes_and_roots() {
    let nodes = vec![bare(vec![1]), bare(vec![]), bare(vec![])];
    let scene = Scene::new(nodes.clone(), vec![2, 0]).unwrap();
    assert_eq!(scene.nodes(), &nodes);
    assert_eq!(scene.roots(), &vec![2, 0]);
}

#[test]
fn nodes_outside_the_roots_are_allowed() {
    // node 1 is in no scene root's tree
    let scene = Scene::new(vec![bare(vec![]), bare(vec![])], vec![0]);
    assert!(scene.is_ok());
}

#[test]
fn root_out_of_range_is_refused() {
    let r = Scene::new(vec![bare(vec![])], vec![1]);
    assert_eq!(r.err(), Some(SceneError::NodeOutOfRange));
}

#[test]
fn child_out_of_range_is_refused() {
    let r = Scene::new(vec![bare(vec![5])], vec![0]);
    assert_eq!(r.err(), Some(SceneError::NodeOutOfRange));
}

#[test]
fn out_of_range_is_reported_before_sharing() {
    let r = Scene::new(vec![bare(vec![1, 1, 9]), bare(vec![])], vec![0]);
    assert_eq!(r.err(), Some(SceneError::NodeOutOfRange));
}

#[test]
fn root_listed_twice_is_refused() {
    let r = Scene::new(vec![bare(vec![])], vec![0, 0]);
    assert_eq!(r.err(), Some(SceneError::NodeHeldTwice));
}

#[test]
fn child_listed_twice_is_refused() {
    let r = Scene::new(vec![bare(vec![1, 1]), bare(vec![])], vec![0]);
    assert_eq!(r.err(), Some(SceneError::NodeHeldTwice));
}

#[test]
fn child_of_two_parents_is_refused() {
    let nodes = vec![bare(vec![2]), bare(vec![2]), bare(vec![])];
    assert_eq!(Scene::new(nodes, vec![0, 1]).err(), Some(SceneError::NodeHeldTwice));
}

#[test]
fn root_that_is_a_child_is_refused() {
    let nodes = vec![bare(vec![1]), bare(vec![])];
    assert_eq!(Scene::new(nodes, vec![0, 1]).err(), Some(SceneError::NodeHeldTwice));
}

#[test]
fn cycle_below_a_root_is_refused() {
    // 0 -> 1 -> 2 -> 1
    let nodes = vec![bare(vec![1]), bare(vec![2]), bare(vec![1])];
    assert_eq!(Scene::new(nodes, vec![0]).err(), Some(SceneError::NodeHeldTwice));
}

#[test]
fn node_that_is_its_own_child_is_refused() {
    let nodes = vec![bare(vec![0])];
    assert_eq!(Scene::new(nodes, vec![0]).err(), Some(SceneError::NodeHeldTwice));
}

#[test]
fn node_bears_what_it_carries() {
    let camera = Camera { index: 0, projection: Projection::Orthographic };
    let node = Node { children: vec![], camera: Some(camera), mesh: None };
    assert!(node.bears(Payload::Camera));
    assert!(!node.bears(Payload::Mesh));
    let node = Node { children: vec![], camera: None, mesh: Some(4) };
    assert!(!node.bears(Payload::Camera));
    assert!(node.bears(Payload::Mesh));
}

#[test]
fn scalar_carries_the_bits_of_a_real() {
    let s = Scalar { bits: 1.5f32.to_bits() };
    assert_eq!(f32::from_bits(s.bits), 1.5);
    assert_eq!(s, Scalar { bits: 0x3FC0_0000 });
}
