use imgquant::octree::get_color_index;
use imgquant::IRgb;
use imgquant::LeafOctree;

fn rgb(r: u8, g: u8, b: u8) -> IRgb {
    IRgb::from_array([r, g, b])
}

#[test]
fn test_color_index_branch_codes() {
    assert_eq!(get_color_index(rgb(255, 0, 0), 0), 0b100);
    assert_eq!(get_color_index(rgb(0, 255, 0), 0), 0b010);
    assert_eq!(get_color_index(rgb(0, 0, 255), 0), 0b001);
    assert_eq!(get_color_index(rgb(255, 255, 255), 0), 0b111);
    assert_eq!(get_color_index(rgb(0, 0, 0), 0), 0);
    // 0b01000000: bit 6 set, so only level 1 sees it.
    assert_eq!(get_color_index(rgb(0x40, 0, 0), 0), 0);
    assert_eq!(get_color_index(rgb(0x40, 0, 0), 1), 0b100);
    // Past the eighth level every color funnels into slot 0.
    assert_eq!(get_color_index(rgb(255, 255, 255), 8), 0);
    assert_eq!(get_color_index(rgb(255, 255, 255), 9), 0);
}

#[test]
fn test_empty_tree_has_no_leaves() {
    let tree = LeafOctree::new(6);
    assert_eq!(tree.get_leaf_nodes().len(), 0);
    assert_eq!(tree.pixel_total(), 0);
    assert_eq!(tree.max_depth(), 6);
}

#[test]
fn test_single_color_palette() {
    // A single-color image of five pixels with a one-entry palette: the one
    // entry is the color itself and every pixel resolves to index 0.
    let mut tree = LeafOctree::new(6);
    let color = rgb(10, 20, 30);
    for _ in 0..5 {
        tree.add_color(color);
    }
    assert_eq!(tree.pixel_total(), 5);
    assert_eq!(tree.get_leaf_nodes().len(), 1);
    let palette = tree.make_palette(1);
    assert_eq!(palette.len(), 1);
    assert_eq!(palette[0], color);
    assert_eq!(tree.get_palette_index(color, true), Some(0));
    assert_eq!(tree.get_palette_index(color, false), Some(0));
}

#[test]
fn test_same_terminal_leaf_averages() {
    // 100 and 102 agree on bits 7..2, so at depth 6 they share a terminal
    // leaf whose average is the integer mean.
    let mut tree = LeafOctree::new(6);
    tree.add_color(rgb(100, 100, 100));
    tree.add_color(rgb(102, 100, 100));
    assert_eq!(tree.get_leaf_nodes().len(), 1);
    let palette = tree.make_palette(4);
    assert_eq!(palette.len(), 1);
    assert_eq!(palette[0], rgb(101, 100, 100));
}

#[test]
fn test_leaf_count_shrinks_to_target() {
    // Two colors per octant at depth 6; asking for 8 colors must fold the
    // deep splits and leave at least one, at most 8 leaves.
    let mut tree = LeafOctree::new(6);
    let bases: [u8; 2] = [0, 255];
    for &r in bases.iter() {
        for &g in bases.iter() {
            for &b in bases.iter() {
                tree.add_color(rgb(r, g, b));
                tree.add_color(rgb(r ^ 1, g ^ 1, b ^ 1));
            }
        }
    }
    assert_eq!(tree.get_leaf_nodes().len(), 8);
    let palette = tree.make_palette(8);
    let leaves = tree.get_leaf_nodes().len();
    assert!(leaves > 0);
    assert!(leaves <= 8);
    assert_eq!(palette.len(), 8);
}

#[test]
fn test_palette_no_larger_than_target() {
    let mut tree = LeafOctree::new(6);
    tree.add_color(rgb(0, 0, 0));
    tree.add_color(rgb(255, 255, 255));
    tree.add_color(rgb(255, 0, 0));
    let palette = tree.make_palette(2);
    assert!(palette.len() <= 2);
}

#[test]
fn test_leaves_beyond_target_keep_increasing_indices() {
    // Three occupied octants but only two palette entries: merging stops at
    // the octant level, so a third leaf survives with an index past the
    // palette. Its lookups answer that out-of-range index; rendering clamps.
    let mut tree = LeafOctree::new(3);
    let a = rgb(0, 0, 0);
    let b = rgb(255, 0, 0);
    let c = rgb(0, 0, 255);
    tree.add_color(a);
    tree.add_color(b);
    tree.add_color(c);
    let palette = tree.make_palette(2);
    assert_eq!(tree.get_leaf_nodes().len(), 3);
    // Depth-first order visits slot 0 (a), slot 1 (c), slot 4 (b).
    assert_eq!(palette, vec![a, c]);
    assert_eq!(tree.get_palette_index(a, true), Some(0));
    assert_eq!(tree.get_palette_index(c, true), Some(1));
    assert_eq!(tree.get_palette_index(b, true), Some(2));
}

#[test]
fn test_lookup_idempotent() {
    let mut tree = LeafOctree::new(6);
    tree.add_color(rgb(12, 34, 56));
    tree.add_color(rgb(200, 100, 50));
    tree.make_palette(2);
    for color in [rgb(12, 34, 56), rgb(200, 100, 50), rgb(7, 7, 7)] {
        let first = tree.get_palette_index(color, true);
        let second = tree.get_palette_index(color, true);
        assert_eq!(first, second);
        let third = tree.get_palette_index(color, false);
        let fourth = tree.get_palette_index(color, false);
        assert_eq!(third, fourth);
    }
}

#[test]
fn test_lookup_miss_without_fallback() {
    let mut tree = LeafOctree::new(6);
    tree.add_color(rgb(0, 0, 0));
    tree.make_palette(1);
    // A color in an unoccupied octant dead-ends without the fallback...
    assert_eq!(tree.get_palette_index(rgb(255, 255, 255), false), None);
    // ...and descends into the first existing child with it.
    assert_eq!(tree.get_palette_index(rgb(255, 255, 255), true), Some(0));
}

#[test]
fn test_average_channels_in_byte_range() {
    let mut tree = LeafOctree::new(4);
    for v in 0..=255u16 {
        tree.add_color(rgb(v as u8, 255 - v as u8, 128));
    }
    let palette = tree.make_palette(16);
    assert!(!palette.is_empty());
    // Palette entries are 8-bit by construction; the averages must also be
    // consistent: a palette of the full gray sweep stays inside [0, 255].
    for entry in palette.iter() {
        let [r, g, b] = entry.get_inner();
        assert!(u32::from(r) <= 255 && u32::from(g) <= 255 && u32::from(b) <= 255);
    }
}
