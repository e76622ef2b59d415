use imgquant::morton::MortonOctree;
use imgquant::morton::MortonOctreeNode;
use imgquant::IRgb;

fn rgb(r: u8, g: u8, b: u8) -> IRgb {
    IRgb::from_array([r, g, b])
}

#[test]
fn test_empty_tree_traverses_to_nothing() {
    let tree = MortonOctree::new(4);
    assert_eq!(tree.traverse(), String::new());
}

#[test]
fn test_single_path_traversal() {
    // One color carves one node per level, each holding the placeholder
    // content; the root's own content never appears.
    let mut tree = MortonOctree::new(3);
    tree.add_color(rgb(0, 0, 0));
    assert_eq!(tree.traverse(), "testtesttest");
    // The same color again adds no node.
    tree.add_color(rgb(0, 0, 0));
    assert_eq!(tree.traverse(), "testtesttest");
}

#[test]
fn test_two_paths_traversal() {
    let mut tree = MortonOctree::new(3);
    tree.add_color(rgb(255, 255, 255));
    tree.add_color(rgb(0, 0, 0));
    assert_eq!(tree.traverse(), "testtesttesttesttesttest");
}

#[test]
fn test_node_traverse_appends() {
    let node = MortonOctreeNode::new(String::from("alone"));
    let mut out = String::from("seed:");
    node.traverse(&mut out);
    assert_eq!(out, "seed:");
}
