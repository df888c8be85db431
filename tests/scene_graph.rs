use gloom::scene::{DrawSubmission, Drawable, SceneGraph};

#[test]
fn empty_scene_has_no_nodes() {
    let g = SceneGraph::new();
    assert_eq!(g.len(), 0);
}

#[test]
fn created_nodes_start_detached() {
    let mut g = SceneGraph::new();
    let a = g.create_group();
    let b = g.create_drawable(7, 42);
    assert_eq!(a, 0);
    assert_eq!(b, 1);
    assert_eq!(g.drawable(a), None);
    assert_eq!(g.drawable(b), Some(Drawable { vao_id: 7, index_count: 42 }));
    assert_eq!(g.parent(b), None);
    assert_eq!(g.root_of(b), b);
    assert_eq!(g.child_count(a), 0);
}

#[test]
fn three_level_tree_propagates_parent_first() {
    let mut g = SceneGraph::new();
    let root = g.create_group();
    let group = g.create_group();
    let leaf = g.create_drawable(3, 36);
    g.add_child(root, group);
    g.add_child(group, leaf);
    let order = g.propagation_order(root);
    assert_eq!(order, vec![root, group, leaf]);
    assert_eq!(g.parent(group), Some(root));
    assert_eq!(g.parent(leaf), Some(group));
    assert_eq!(g.root_of(leaf), root);
}

#[test]
fn propagation_order_is_depth_first_in_insertion_order() {
    let mut g = SceneGraph::new();
    let root = g.create_group();
    let a = g.create_group();
    let a1 = g.create_group();
    let b = g.create_group();
    g.add_child(root, a);
    g.add_child(root, b);
    g.add_child(a, a1);
    assert_eq!(g.propagation_order(root), vec![root, a, a1, b]);
    assert_eq!(g.propagation_order(a), vec![a, a1]);
}

#[test]
fn group_with_nested_drawables_yields_three_submissions() {
    let mut g = SceneGraph::new();
    let root = g.create_group();
    let d1 = g.create_drawable(1, 3);
    let d2 = g.create_drawable(2, 6);
    let inner = g.create_group();
    let d3 = g.create_drawable(3, 9);
    g.add_child(root, d1);
    g.add_child(root, d2);
    g.add_child(root, inner);
    g.add_child(inner, d3);
    let draws = g.draw_list(root);
    assert_eq!(draws.len(), 3);
    assert_eq!(
        draws,
        vec![
            DrawSubmission { node: d1, vao_id: 1, index_count: 3 },
            DrawSubmission { node: d2, vao_id: 2, index_count: 6 },
            DrawSubmission { node: d3, vao_id: 3, index_count: 9 },
        ]
    );
}

#[test]
fn drawable_root_and_deep_chain_each_draw_once() {
    let mut g = SceneGraph::new();
    let body = g.create_drawable(10, 100);
    let mut last = body;
    for depth in 0..5u32 {
        let part = g.create_drawable(11 + depth, 1);
        g.add_child(last, part);
        last = part;
    }
    let draws = g.draw_list(body);
    assert_eq!(draws.len(), 6);
    for (k, d) in draws.iter().enumerate() {
        assert_eq!(d.node, k);
        assert_eq!(draws.iter().filter(|e| e.node == d.node).count(), 1);
    }
}

#[test]
fn pure_group_tree_draws_nothing() {
    let mut g = SceneGraph::new();
    let root = g.create_group();
    let a = g.create_group();
    g.add_child(root, a);
    assert!(g.draw_list(root).is_empty());
}

#[test]
fn sibling_insertion_order_keeps_parents() {
    let mut g1 = SceneGraph::new();
    let mut g2 = SceneGraph::new();
    for g in [&mut g1, &mut g2] {
        g.create_group();
        g.create_drawable(1, 3);
        g.create_drawable(2, 3);
    }
    g1.add_child(0, 1);
    g1.add_child(0, 2);
    g2.add_child(0, 2);
    g2.add_child(0, 1);
    for x in 0..3 {
        assert_eq!(g1.parent(x), g2.parent(x));
        assert_eq!(g1.root_of(x), g2.root_of(x));
    }
    assert_eq!(g1.propagation_order(0), vec![0, 1, 2]);
    assert_eq!(g2.propagation_order(0), vec![0, 2, 1]);
}

#[test]
fn indexed_child_access_follows_insertion_order() {
    let mut g = SceneGraph::new();
    let heli = g.create_group();
    let body = g.create_drawable(1, 1);
    let rotor = g.create_drawable(2, 1);
    let door = g.create_drawable(3, 1);
    g.add_child(heli, body);
    g.add_child(heli, rotor);
    g.add_child(heli, door);
    assert_eq!(g.child_count(heli), 3);
    assert_eq!(g.child(heli, 2), door);
    assert_eq!(g.child(heli, 0), body);
}

#[test]
fn cycles_and_second_parents_are_refused() {
    let mut g = SceneGraph::new();
    let a = g.create_group();
    let b = g.create_group();
    let c = g.create_group();
    assert!(g.can_add_child(a, b));
    g.add_child(a, b);
    g.add_child(b, c);
    assert!(!g.can_add_child(c, a));
    assert!(!g.can_add_child(a, a));
    assert!(!g.can_add_child(a, c));
    assert!(!g.can_add_child(a, 9));
    let d = g.create_group();
    assert!(g.can_add_child(c, d));
    assert!(g.can_add_child(d, a));
}

#[test]
fn merging_trees_moves_the_whole_subtree() {
    let mut g = SceneGraph::new();
    let top = g.create_group();
    let sub = g.create_group();
    let leaf = g.create_drawable(5, 5);
    g.add_child(sub, leaf);
    assert_eq!(g.root_of(leaf), sub);
    g.add_child(top, sub);
    assert_eq!(g.root_of(leaf), top);
    assert_eq!(g.root_of(sub), top);
    assert_eq!(g.draw_list(top), vec![DrawSubmission { node: leaf, vao_id: 5, index_count: 5 }]);
}
