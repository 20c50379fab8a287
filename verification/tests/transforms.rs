use gloom_scene::scene::SceneGraph;
use nalgebra_glm as glm;

/// Transform parameters of a node, as the renderer keeps them.
struct Pose {
    position: glm::Vec3,
    rotation: glm::Vec3,
    reference_point: glm::Vec3,
}

fn pose(position: (f32, f32, f32), rotation: (f32, f32, f32), pivot: (f32, f32, f32)) -> Pose {
    Pose {
        position: glm::vec3(position.0, position.1, position.2),
        rotation: glm::vec3(rotation.0, rotation.1, rotation.2),
        reference_point: glm::vec3(pivot.0, pivot.1, pivot.2),
    }
}

/// T(position) · T(pivot) · Rx · Ry · Rz · T(-pivot), angles in degrees.
fn local(p: &Pose) -> glm::Mat4 {
    let to_origin = glm::translation(&-p.reference_point);
    let rot_x = glm::rotation(p.rotation.x.to_radians(), &glm::vec3(1.0, 0.0, 0.0));
    let rot_y = glm::rotation(p.rotation.y.to_radians(), &glm::vec3(0.0, 1.0, 0.0));
    let rot_z = glm::rotation(p.rotation.z.to_radians(), &glm::vec3(0.0, 0.0, 1.0));
    let from_origin = glm::translation(&p.reference_point);
    let translation = glm::translation(&p.position);
    translation * from_origin * rot_x * rot_y * rot_z * to_origin
}

fn compose(parent: &glm::Mat4, p: &Pose) -> glm::Mat4 {
    parent * local(p)
}

fn close(a: &glm::Mat4, b: &glm::Mat4) -> bool {
    (0..16).all(|i| (a[i] - b[i]).abs() < 1e-4)
}

#[test]
fn without_rotation_the_world_of_a_lone_node_is_its_translation() {
    let mut g = SceneGraph::new();
    let n = g.add_node(pose((4.0, 5.0, 6.0), (0.0, 0.0, 0.0), (1.0, 2.0, 3.0)), 1, 3);
    let identity: glm::Mat4 = glm::identity();
    let t = g.traverse(n, &identity, compose, |w: &glm::Mat4| *w).unwrap();
    assert_eq!(t.worlds[0], glm::translation(&glm::vec3(4.0, 5.0, 6.0)));
    assert_eq!(t.calls[0].transform, glm::translation(&glm::vec3(4.0, 5.0, 6.0)));
}

#[test]
fn rotation_about_y_leaves_the_pivot_in_place() {
    let pivot = glm::vec4(0.35, 2.3, 10.4, 1.0);
    for angle in [0.0f32, 30.0, 90.0, 180.0, 271.5] {
        let mut g = SceneGraph::new();
        let n = g.add_node(pose((1.0, -2.0, 0.5), (0.0, angle, 0.0), (0.35, 2.3, 10.4)), 1, 3);
        let identity: glm::Mat4 = glm::identity();
        let t = g.traverse(n, &identity, compose, |w: &glm::Mat4| *w).unwrap();
        let moved = t.worlds[0] * pivot;
        let expected = glm::vec4(1.35, 0.3, 10.9, 1.0);
        assert!((moved - expected).norm() < 1e-4);
    }
}

#[test]
fn world_of_a_grandchild_is_the_product_along_the_chain() {
    let mut g = SceneGraph::new();
    let b = g.add_node(pose((0.0, 0.0, 2.0), (0.0, 0.0, 45.0), (0.0, 1.0, 0.0)), 3, 3);
    let a = g.add_node(pose((0.0, 2.0, 0.0), (0.0, 90.0, 0.0), (0.5, 0.0, 0.0)), 2, 3);
    let root = g.add_node(pose((1.0, 0.0, 0.0), (30.0, 0.0, 0.0), (0.0, 0.0, 0.0)), 1, 3);
    assert_eq!(g.add_child(root, a), Ok(()));
    assert_eq!(g.add_child(a, b), Ok(()));
    let identity: glm::Mat4 = glm::identity();
    let t = g.traverse(root, &identity, compose, |w: &glm::Mat4| *w).unwrap();
    let root_local = local(&g.get(root).unwrap().data);
    let a_local = local(&g.get(a).unwrap().data);
    let b_local = local(&g.get(b).unwrap().data);
    assert_eq!(t.worlds[0], root_local);
    assert_eq!(t.worlds[1], root_local * a_local);
    assert_eq!(t.worlds[2], root_local * a_local * b_local);
    assert!(close(&t.worlds[2], &(root_local * (a_local * b_local))));
}

#[test]
fn rotating_a_node_about_its_pivot_keeps_the_pivot_in_the_world() {
    let pivot = glm::vec4(0.0, 1.0, 2.0, 1.0);
    let mut seen: Vec<glm::Vec4> = Vec::new();
    for angle in [0.0f32, 60.0, 200.0] {
        let mut g = SceneGraph::new();
        let root = g.add_node(pose((3.0, 0.0, 0.0), (0.0, 0.0, 0.0), (0.0, 0.0, 0.0)), 0, 0);
        let a = g.add_node(pose((0.0, 2.0, 0.0), (angle, angle, 0.0), (0.0, 1.0, 2.0)), 2, 3);
        assert_eq!(g.add_child(root, a), Ok(()));
        let identity: glm::Mat4 = glm::identity();
        let t = g.traverse(root, &identity, compose, |w: &glm::Mat4| *w).unwrap();
        seen.push(t.worlds[1] * pivot);
    }
    for p in &seen {
        assert!((p - glm::vec4(3.0, 3.0, 2.0, 1.0)).norm() < 1e-4);
    }
}

#[test]
fn draw_calls_get_the_view_projection_times_the_world() {
    let mut g = SceneGraph::new();
    let root = g.add_node(pose((0.0, 0.0, -5.0), (0.0, 0.0, 0.0), (0.0, 0.0, 0.0)), 0, 0);
    let body = g.add_node(pose((0.0, 2.0, 0.0), (0.0, 0.0, 0.0), (0.0, 0.0, 0.0)), 7, 36);
    assert_eq!(g.add_child(root, body), Ok(()));
    let view_projection = glm::perspective(800.0 / 600.0, 45.0f32.to_radians(), 1.0, 1000.0);
    let identity: glm::Mat4 = glm::identity();
    let t = g
        .traverse(root, &identity, compose, |w: &glm::Mat4| view_projection * w)
        .unwrap();
    assert_eq!(t.calls.len(), 1);
    assert_eq!(t.calls[0].draw_handle, 7);
    assert_eq!(t.calls[0].primitive_count, 36);
    let world = glm::translation(&glm::vec3(0.0, 0.0, -5.0)) * glm::translation(&glm::vec3(0.0, 2.0, 0.0));
    assert_eq!(t.calls[0].transform, view_projection * world);
}
