use deferred_cache::promise::Promise;
use deferred_cache::renderer::{RenderNode, RenderNodeConfig, Renderer};

fn node(id: u64, alpha: bool) -> RenderNode<i32, ()> {
    RenderNode {
        id,
        resources: Promise { index: id as usize },
        config: RenderNodeConfig { texture_ids: vec![], transform: 0, uniforms: (), alpha },
    }
}

fn ids(nodes: &Vec<RenderNode<i32, ()>>) -> Vec<u64> {
    nodes.iter().map(|n| n.id).collect()
}

#[test]
fn nodes_are_kept_by_kind_in_order() {
    let mut renderer: Renderer<i32, ()> = Renderer::new(7);
    renderer.add_node(node(1, false));
    renderer.add_node(node(2, true));
    renderer.add_node(node(3, false));
    renderer.add_node(node(4, true));
    assert_eq!(ids(renderer.opaque_nodes()), vec![1, 3]);
    assert_eq!(ids(renderer.translucent_nodes()), vec![2, 4]);
    assert_eq!(*renderer.camera(), 7);
}

#[test]
fn remove_takes_the_node_out_of_its_kind() {
    let mut renderer: Renderer<i32, ()> = Renderer::new(0);
    renderer.add_node(node(1, false));
    renderer.add_node(node(2, true));
    renderer.add_node(node(3, false));
    renderer.remove_node(&1);
    renderer.remove_node(&2);
    renderer.remove_node(&9);
    assert_eq!(ids(renderer.opaque_nodes()), vec![3]);
    assert!(renderer.translucent_nodes().is_empty());
}

#[test]
fn adding_an_id_again_replaces_the_node() {
    let mut renderer: Renderer<i32, ()> = Renderer::new(0);
    renderer.add_node(node(1, false));
    renderer.add_node(node(2, false));
    renderer.add_node(node(1, true));
    assert_eq!(ids(renderer.opaque_nodes()), vec![2]);
    assert_eq!(ids(renderer.translucent_nodes()), vec![1]);
    renderer.add_node(node(2, false));
    assert_eq!(ids(renderer.opaque_nodes()), vec![2]);
}

#[test]
fn set_transform_reaches_the_node_with_the_id() {
    let mut renderer: Renderer<i32, ()> = Renderer::new(0);
    renderer.add_node(node(1, false));
    renderer.add_node(node(2, true));
    renderer.add_node(node(3, true));
    renderer.set_transform(&3, 30);
    renderer.set_transform(&1, 10);
    renderer.set_transform(&8, 80);
    assert_eq!(renderer.opaque_nodes()[0].config.transform, 10);
    assert_eq!(renderer.translucent_nodes()[0].config.transform, 0);
    assert_eq!(renderer.translucent_nodes()[1].config.transform, 30);
    renderer.set_camera(5);
    assert_eq!(*renderer.camera(), 5);
    assert_eq!(ids(renderer.translucent_nodes()), vec![2, 3]);
}
