//! The adaptive color-quantization tree: an 8-ary tree keyed by successive
//! bits of the three color channels.
//!
//! Nodes live in an arena (`Vec<OctreeNode>`); a child is named by its arena
//! index and `0` (the root's slot) means "no child". Children are always
//! created after their parent, so every child index is strictly greater than
//! its parent's — that ordering is what termination of every traversal rests
//! on. A per-depth registry of arena indices, in creation order, lists the
//! merge candidates for palette extraction.

use vstd::prelude::*;

use crate::color::IRgb;
use crate::color::SumRgb;

verus! {

/// A tree node: up to 8 children addressed by a 3-bit branch code, the
/// accumulated channel sums of the pixels that rest here, how many pixels
/// those are, and (after palette extraction) the index of the palette entry
/// this node answers lookups with.
#[derive(Clone, Copy)]
pub struct OctreeNode {
    /// Arena index of each child; `0` means the slot is empty.
    pub children: [usize; 8],
    /// Per-channel sums of every color accumulated into this node.
    pub color: SumRgb,
    /// How many colors have been accumulated into this node. A node is a
    /// *leaf* exactly when this is positive.
    pub pixel_count: u32,
    /// Position of this leaf's average color in the extracted palette.
    pub palette_index: usize,
    /// How many branch codes were taken from the root to reach this node:
    /// bookkeeping for the proofs, erased from the compiled code.
    pub depth: Ghost<nat>,
}

/// The largest number of colors a tree accepts: small enough that no
/// channel sum can overflow its 32-bit counter (`255 * PIXEL_CAP < 2^32`).
pub const PIXEL_CAP: u32 = 0x0100_0000;

impl OctreeNode {
    /// Whether this node directly carries color mass.
    pub open spec fn spec_is_leaf(self) -> bool {
        self.pixel_count > 0
    }

    /// An empty node at the given depth: no children, no color mass.
    fn new_at(Ghost(depth): Ghost<nat>) -> (n: OctreeNode)
        ensures
            n.children@ == Seq::new(8, |j: int| 0usize),
            n.color.r == 0 && n.color.g == 0 && n.color.b == 0,
            n.pixel_count == 0,
            n.palette_index == 0,
            n.depth@ == depth,
    {
        let n = OctreeNode {
            children: [0; 8],
            color: SumRgb { r: 0, g: 0, b: 0 },
            pixel_count: 0,
            palette_index: 0,
            depth: Ghost(depth),
        };
        proof {
            assert(n.children@ =~= Seq::new(8, |j: int| 0usize));
        }
        n
    }

    /// An empty root node: no children, no color mass.
    pub fn new() -> (n: OctreeNode)
        ensures
            n.children@ == Seq::new(8, |j: int| 0usize),
            n.color.r == 0 && n.color.g == 0 && n.color.b == 0,
            n.pixel_count == 0,
            n.palette_index == 0,
            n.depth@ == 0,
    {
        OctreeNode::new_at(Ghost(0))
    }

    /// Whether this node directly carries color mass.
    pub fn is_leaf(&self) -> (b: bool)
        ensures
            b == self.spec_is_leaf(),
    {
        self.pixel_count > 0
    }
}

/// Every child slot of every node either is empty or names a node that comes
/// strictly after its parent in the arena.
pub open spec fn arena_wf(nodes: Seq<OctreeNode>) -> bool {
    &&& nodes.len() >= 1
    &&& forall|i: int, j: int|
        0 <= i < nodes.len() && 0 <= j < 8 && #[trigger] nodes[i].children@[j] != 0 ==> i
            < nodes[i].children@[j] < nodes.len()
}

/// No node names the same child in two slots.
pub open spec fn slots_distinct(nodes: Seq<OctreeNode>) -> bool {
    forall|i: int, j1: int, j2: int|
        0 <= i < nodes.len() && 0 <= j1 < 8 && 0 <= j2 < 8 && j1 != j2
            && #[trigger] nodes[i].children@[j1] != 0 ==> nodes[i].children@[j1]
            != #[trigger] nodes[i].children@[j2]
}

/// Depth bookkeeping: the root sits at depth 0, every child one level below
/// its parent, and no node with a child sits at the configured maximum.
pub open spec fn depths_ok(nodes: Seq<OctreeNode>, depth: int) -> bool {
    &&& nodes[0].depth@ == 0
    &&& forall|m: int, j: int|
        0 <= m < nodes.len() && 0 <= j < 8 && #[trigger] nodes[m].children@[j] != 0 ==> nodes[nodes[m].children@[j] as int].depth@ == nodes[m].depth@ + 1 && nodes[m].depth@ < depth
}

/// A node carrying color mass owns no children: a terminal leaf never gained
/// any, and a folded node's children were detached the moment it absorbed
/// their mass.
pub open spec fn leaves_childless(nodes: Seq<OctreeNode>) -> bool {
    forall|m: int, j: int|
        0 <= m < nodes.len() && 0 <= j < 8 && nodes[m].pixel_count > 0
            ==> #[trigger] nodes[m].children@[j] == 0
}

/// Each node's channel sums are what at most `pixel_count` colors of at most
/// 255 per channel can add up to.
pub open spec fn colors_ok(nodes: Seq<OctreeNode>) -> bool {
    forall|i: int|
        0 <= i < nodes.len() ==> {
            &&& (#[trigger] nodes[i]).color.r <= 255 * nodes[i].pixel_count
            &&& nodes[i].color.g <= 255 * nodes[i].pixel_count
            &&& nodes[i].color.b <= 255 * nodes[i].pixel_count
        }
}

/// The pixel counts of all nodes, added up.
pub open spec fn sum_counts(nodes: Seq<OctreeNode>) -> int
    decreases nodes.len(),
{
    if nodes.len() == 0 {
        0
    } else {
        sum_counts(nodes.drop_last()) + nodes.last().pixel_count
    }
}

/// Replacing one node changes the total count by the difference at that node.
proof fn lemma_sum_counts_update(nodes: Seq<OctreeNode>, i: int, n: OctreeNode)
    requires
        0 <= i < nodes.len(),
    ensures
        sum_counts(nodes.update(i, n)) == sum_counts(nodes) - nodes[i].pixel_count
            + n.pixel_count,
    decreases nodes.len(),
{
    if nodes.len() > 0 {
        if i == nodes.len() - 1 {
            assert(nodes.update(i, n).drop_last() =~= nodes.drop_last());
        } else {
            assert(nodes.update(i, n).drop_last() =~= nodes.drop_last().update(i, n));
            lemma_sum_counts_update(nodes.drop_last(), i, n);
        }
    }
}

/// Appending a node adds its count to the total.
proof fn lemma_sum_counts_push(nodes: Seq<OctreeNode>, n: OctreeNode)
    ensures
        sum_counts(nodes.push(n)) == sum_counts(nodes) + n.pixel_count,
{
    assert(nodes.push(n).drop_last() =~= nodes);
}

/// No single node counts more pixels than all nodes together.
proof fn lemma_sum_counts_element(nodes: Seq<OctreeNode>, i: int)
    requires
        0 <= i < nodes.len(),
    ensures
        nodes[i].pixel_count <= sum_counts(nodes),
    decreases nodes.len(),
{
    if i == nodes.len() - 1 {
        lemma_sum_counts_nonneg(nodes.drop_last());
    } else {
        lemma_sum_counts_element(nodes.drop_last(), i);
    }
}

/// Two distinct nodes together count at most all nodes together.
proof fn lemma_sum_counts_pair(nodes: Seq<OctreeNode>, i: int, j: int)
    requires
        0 <= i < nodes.len(),
        0 <= j < nodes.len(),
        i != j,
    ensures
        nodes[i].pixel_count + nodes[j].pixel_count <= sum_counts(nodes),
    decreases nodes.len(),
{
    if i == nodes.len() - 1 {
        lemma_sum_counts_element(nodes.drop_last(), j);
    } else if j == nodes.len() - 1 {
        lemma_sum_counts_element(nodes.drop_last(), i);
    } else {
        lemma_sum_counts_pair(nodes.drop_last(), i, j);
    }
}

proof fn lemma_sum_counts_nonneg(nodes: Seq<OctreeNode>)
    ensures
        sum_counts(nodes) >= 0,
    decreases nodes.len(),
{
    if nodes.len() > 0 {
        lemma_sum_counts_nonneg(nodes.drop_last());
    }
}

/// The 3-bit branch code of `color` at `level`: bit `7 - level` of the red
/// channel selects bit 2, of the green channel bit 1, of the blue channel
/// bit 0. Past the eighth level every color funnels into slot 0.
pub open spec fn spec_color_index(color: IRgb, level: int) -> int {
    if level >= 8 {
        0
    } else {
        (if color.r as u32 & (0x80u32 >> level as u32) != 0 {
            4int
        } else {
            0int
        }) + (if color.g as u32 & (0x80u32 >> level as u32) != 0 {
            2int
        } else {
            0int
        }) + (if color.b as u32 & (0x80u32 >> level as u32) != 0 {
            1int
        } else {
            0int
        })
    }
}

/// The arena index reached from node `i` at `level` by following `color`'s
/// branch codes for `steps` more levels, or `-1` where a link is missing.
pub open spec fn spec_walk(
    nodes: Seq<OctreeNode>,
    color: IRgb,
    i: int,
    level: int,
    steps: int,
) -> int
    decreases steps,
    when arena_wf(nodes) && 0 <= i < nodes.len()
{
    if steps <= 0 {
        i
    } else {
        let c = nodes[i].children@[spec_color_index(color, level)];
        if c == 0 {
            -1
        } else {
            spec_walk(nodes, color, c as int, level + 1, steps - 1)
        }
    }
}

/// Two colors that agree on their branch codes walk to the same node: colors
/// that agree on the top `steps` bits of every channel funnel together.
pub proof fn lemma_walk_same_codes(
    nodes: Seq<OctreeNode>,
    c1: IRgb,
    c2: IRgb,
    i: int,
    level: int,
    steps: int,
)
    requires
        arena_wf(nodes),
        0 <= i < nodes.len(),
        forall|l: int|
            level <= l < level + steps ==> spec_color_index(c1, l) == spec_color_index(c2, l),
    ensures
        spec_walk(nodes, c1, i, level, steps) == spec_walk(nodes, c2, i, level, steps),
    decreases steps,
{
    if steps > 0 {
        let c = nodes[i].children@[spec_color_index(c1, level)];
        if c != 0 {
            lemma_walk_same_codes(nodes, c1, c2, c as int, level + 1, steps - 1);
        }
    }
}

/// While color mass rests only on nodes at depth `last`, a lookup — with or
/// without the fallback — follows exactly the branch-code walk and answers
/// with the index stored on the walk's end.
pub proof fn lemma_lookup_follows_walk(
    nodes: Seq<OctreeNode>,
    color: IRgb,
    i: int,
    level: int,
    steps: int,
    last: int,
    b: bool,
)
    requires
        arena_wf(nodes),
        depths_ok(nodes, last),
        0 <= i < nodes.len(),
        nodes[i].depth@ == level,
        level + steps == last,
        0 <= steps,
        forall|m: int|
            0 <= m < nodes.len() && (#[trigger] nodes[m]).pixel_count > 0 ==> nodes[m].depth@
                == last,
        spec_walk(nodes, color, i, level, steps) != -1,
        nodes[spec_walk(nodes, color, i, level, steps)].pixel_count > 0,
    ensures
        spec_lookup(nodes, i, color, level, b) == Some(
            nodes[spec_walk(nodes, color, i, level, steps)].palette_index,
        ),
    decreases steps,
{
    if steps > 0 {
        assert(!nodes[i].spec_is_leaf());
        let c = nodes[i].children@[spec_color_index(color, level)];
        lemma_lookup_follows_walk(nodes, color, c as int, level + 1, steps - 1, last, b);
    }
}

/// Computes the branch code of `color` at `level`.
pub fn get_color_index(color: IRgb, level: usize) -> (index: usize)
    ensures
        index == spec_color_index(color, level as int),
        index < 8,
{
    if level >= 8 {
        return 0;
    }
    let mask: u32 = 0x80u32 >> (level as u32);
    let mut index: usize = 0;
    if color.r as u32 & mask != 0 {
        index = index + 0b100;
    }
    if color.g as u32 & mask != 0 {
        index = index + 0b010;
    }
    if color.b as u32 & mask != 0 {
        index = index + 0b001;
    }
    index
}

/// The quantization tree: an arena of nodes rooted at index 0, the configured
/// maximum depth, and the per-depth creation registry used once, during
/// palette extraction.
pub struct LeafOctree {
    depth: usize,
    nodes: Vec<OctreeNode>,
    levels: Vec<Vec<usize>>,
    inserted: u32,
}

impl LeafOctree {
    /// The arena, for specification purposes.
    pub closed spec fn spec_nodes(self) -> Seq<OctreeNode> {
        self.nodes@
    }

    /// The configured maximum depth.
    pub closed spec fn spec_depth(self) -> int {
        self.depth as int
    }

    /// How many colors have been added so far.
    pub closed spec fn spec_inserted(self) -> int {
        self.inserted as int
    }

    /// The tree's invariant: a rooted arena whose child links point forward,
    /// whose channel sums stay within what its pixel counts allow, and whose
    /// pixel counts add up to the number of colors inserted.
    pub closed spec fn wf(self) -> bool {
        &&& self.nodes@.len() >= 1
        &&& 3 <= self.depth <= 10
        &&& self.levels@.len() == self.depth + 1
        &&& arena_wf(self.nodes@)
        &&& slots_distinct(self.nodes@)
        &&& parents_unique(self.nodes@)
        &&& colors_ok(self.nodes@)
        &&& depths_ok(self.nodes@, self.depth as int)
        &&& leaves_childless(self.nodes@)
        &&& sum_counts(self.nodes@) == self.inserted
        &&& self.inserted <= PIXEL_CAP
        &&& forall|l: int, k: int|
            0 <= l < self.levels@.len() && 0 <= k < self.levels@[l].len()
                ==> 0 < #[trigger] self.levels@[l]@[k] < self.nodes@.len()
    }

    /// Whether the tree is still in its build pass: color mass rests only on
    /// terminal nodes at the maximum depth, every node but the root hangs
    /// from exactly one parent and stands in the registry of its depth, and
    /// every non-terminal node below the root owns a child. Palette
    /// extraction folds mass onto shallower nodes and detaches children,
    /// after which the tree takes no further colors.
    pub closed spec fn building(self) -> bool {
        &&& forall|m: int|
            0 <= m < self.nodes@.len() && (#[trigger] self.nodes@[m]).pixel_count > 0
                ==> self.nodes@[m].depth@ == self.depth
        &&& parents_unique(self.nodes@)
        &&& forall|m: int|
            0 <= m < self.nodes@.len() ==> (#[trigger] self.nodes@[m]).depth@ <= self.depth
        &&& forall|m: int| 1 <= m < self.nodes@.len() ==> 1 <= (#[trigger] self.nodes@[m]).depth@
        &&& forall|m: int| 1 <= m < self.nodes@.len() ==> #[trigger] has_parent(self.nodes@, m)
        &&& forall|m: int|
            1 <= m < self.nodes@.len() && (#[trigger] self.nodes@[m]).depth@ < self.depth
                ==> first_child(self.nodes@[m]) != 0
        &&& forall|m: int|
            1 <= m < self.nodes@.len() ==> registered(
                self.levels@,
                (#[trigger] self.nodes@[m]).depth@ as int,
                m,
            )
        &&& forall|l: int, k: int|
            0 <= l < self.levels@.len() && 0 <= k < self.levels@[l].len()
                ==> self.nodes@[#[trigger] self.levels@[l]@[k] as int].depth@ == l + 1
        &&& forall|m: int|
            1 <= m < self.nodes@.len() && (#[trigger] self.nodes@[m]).depth@ == self.depth
                ==> self.nodes@[m].pixel_count > 0
    }

    /// How many colors have been added so far.
    pub fn pixel_total(&self) -> (n: u32)
        ensures
            n == self.spec_inserted(),
    {
        self.inserted
    }

    /// The configured maximum depth.
    pub fn max_depth(&self) -> (d: usize)
        ensures
            d == self.spec_depth(),
    {
        self.depth
    }

    /// A fresh tree of the given maximum depth, holding no colors.
    pub fn new(depth: usize) -> (t: LeafOctree)
        requires
            3 <= depth <= 10,
        ensures
            t.wf(),
            t.building(),
            t.spec_depth() == depth,
            t.spec_inserted() == 0,
            t.spec_nodes().len() == 1,
            !t.spec_nodes()[0].spec_is_leaf(),
    {
        let mut nodes: Vec<OctreeNode> = Vec::new();
        nodes.push(OctreeNode::new());
        let mut levels: Vec<Vec<usize>> = Vec::new();
        let mut l: usize = 0;
        while l < depth + 1
            invariant
                depth <= 10,
                levels@.len() == l,
                l <= depth + 1,
                forall|i: int| 0 <= i < l ==> #[trigger] levels@[i]@.len() == 0,
            decreases depth + 1 - l,
        {
            levels.push(Vec::new());
            l = l + 1;
        }
        proof {
            assert(nodes@.drop_last() =~= Seq::<OctreeNode>::empty());
            assert(sum_counts(Seq::<OctreeNode>::empty()) == 0);
        }
        LeafOctree { depth, nodes, levels, inserted: 0 }
    }

    /// Inserts one color: walks the branch codes down to the configured
    /// depth, creating missing nodes along the way, and accumulates the
    /// color into the terminal node. Insertion belongs to the build pass,
    /// before the palette is extracted.
    pub fn add_color(&mut self, color: IRgb)
        requires
            old(self).wf(),
            old(self).building(),
            old(self).spec_inserted() < PIXEL_CAP,
        ensures
            final(self).wf(),
            final(self).building(),
            final(self).spec_inserted() == old(self).spec_inserted() + 1,
            final(self).spec_depth() == old(self).spec_depth(),
            spec_leaves(final(self).spec_nodes(), 0).len() >= 1,
            sum_counts(final(self).spec_nodes()) == final(self).spec_inserted(),
            ({
                let nodes = final(self).spec_nodes();
                let pre = old(self).spec_nodes();
                let t = spec_walk(nodes, color, 0, 0, old(self).spec_depth());
                &&& 0 < t < nodes.len()
                &&& nodes[t].depth@ == old(self).spec_depth()
                &&& nodes[t].spec_is_leaf()
                &&& (t < pre.len() ==> {
                    &&& nodes[t].pixel_count == pre[t].pixel_count + 1
                    &&& nodes[t].color.r == pre[t].color.r + color.r
                    &&& nodes[t].color.g == pre[t].color.g + color.g
                    &&& nodes[t].color.b == pre[t].color.b + color.b
                    &&& nodes[t].children@ == pre[t].children@
                    &&& nodes[t].palette_index == pre[t].palette_index
                })
                &&& (t >= pre.len() ==> {
                    &&& nodes[t].pixel_count == 1
                    &&& nodes[t].color.r == color.r
                    &&& nodes[t].color.g == color.g
                    &&& nodes[t].color.b == color.b
                    &&& nodes[t].palette_index == 0
                })
                &&& forall|m: int|
                    0 <= m < pre.len() && m != t ==> (#[trigger] nodes[m]).pixel_count
                        == pre[m].pixel_count && nodes[m].color == pre[m].color
                        && nodes[m].palette_index == pre[m].palette_index
                &&& forall|m: int|
                    pre.len() <= m < nodes.len() && m != t ==> (#[trigger] nodes[m]).pixel_count
                        == 0 && nodes[m].palette_index == 0
                &&& forall|m: int, j: int|
                    0 <= m < pre.len() && 0 <= j < 8 && #[trigger] nodes[m].children@[j]
                        != pre[m].children@[j] ==> pre[m].children@[j] == 0 && nodes[m].children@[j]
                        >= pre.len() && j == spec_color_index(color, nodes[m].depth@ as int)
                &&& final(self).spec_palette_index(color, false) == Some(nodes[t].palette_index)
                &&& final(self).spec_palette_index(color, true) == Some(nodes[t].palette_index)
            }),
    {
        proof {
            assert forall|m: int| 1 <= m < self.nodes@.len() implies has_parent(
                self.nodes@,
                m,
            ) by {
                assert(old(self).building());
            }
        }
        let ghost dep = self.depth;
        add_color_at(&mut self.nodes, &mut self.levels, 0, color, 0, self.depth);
        self.inserted = self.inserted + 1;
        proof {
            reveal(insert_delta);
            let t = spec_walk(self.nodes@, color, 0, 0, dep as int);
            lemma_lookup_follows_walk(self.nodes@, color, 0, 0, dep as int, dep as int, false);
            lemma_lookup_follows_walk(self.nodes@, color, 0, 0, dep as int, dep as int, true);
        }
    }
}

/// The first nonempty child slot of `n` in index order, or `0` if `n` has no
/// children.
pub open spec fn first_child(n: OctreeNode) -> usize {
    if n.children@[0] != 0 {
        n.children@[0]
    } else if n.children@[1] != 0 {
        n.children@[1]
    } else if n.children@[2] != 0 {
        n.children@[2]
    } else if n.children@[3] != 0 {
        n.children@[3]
    } else if n.children@[4] != 0 {
        n.children@[4]
    } else if n.children@[5] != 0 {
        n.children@[5]
    } else if n.children@[6] != 0 {
        n.children@[6]
    } else {
        n.children@[7]
    }
}

/// What a palette lookup starting at node `i` on depth `level` answers: the
/// node's own palette index at a leaf; otherwise the answer of the
/// branch-code child, or — with `fallback` — of the first existing child
/// when the branch-code slot is empty; `None` when the walk dead-ends.
pub open spec fn spec_lookup(
    nodes: Seq<OctreeNode>,
    i: int,
    color: IRgb,
    level: int,
    fallback: bool,
) -> Option<usize>
    decreases nodes.len() - i,
    when arena_wf(nodes) && 0 <= i < nodes.len()
{
    if nodes[i].spec_is_leaf() {
        Some(nodes[i].palette_index)
    } else {
        let c = nodes[i].children@[spec_color_index(color, level)];
        if c != 0 {
            spec_lookup(nodes, c as int, color, level + 1, fallback)
        } else if fallback && first_child(nodes[i]) != 0 {
            spec_lookup(nodes, first_child(nodes[i]) as int, color, level + 1, fallback)
        } else {
            None
        }
    }
}

/// The arena indices of the leaves in the subtree below node `i`, in
/// depth-first order with child slots visited `0` through `7`. Node `i`
/// itself is never listed, matching how the tree collects leaves from the
/// root down.
pub open spec fn spec_leaves(nodes: Seq<OctreeNode>, i: int) -> Seq<usize>
    decreases nodes.len() - i, 9int,
    when arena_wf(nodes) && 0 <= i < nodes.len()
{
    spec_leaves_from(nodes, i, 0)
}

/// The leaves contributed by child slots `j` through `7` of node `i`.
pub open spec fn spec_leaves_from(nodes: Seq<OctreeNode>, i: int, j: int) -> Seq<usize>
    decreases nodes.len() - i, 8 - j,
    when arena_wf(nodes) && 0 <= i < nodes.len() && 0 <= j <= 8
{
    if j >= 8 {
        Seq::empty()
    } else {
        let c = nodes[i].children@[j];
        (if c == 0 {
            Seq::empty()
        } else if nodes[c as int].spec_is_leaf() {
            seq![c]
        } else {
            spec_leaves(nodes, c as int)
        }) + spec_leaves_from(nodes, i, j + 1)
    }
}

/// Every collected leaf index lies beyond `i`, within the arena, and names a
/// node that carries color mass.
pub proof fn lemma_leaves_elements(nodes: Seq<OctreeNode>, i: int)
    requires
        arena_wf(nodes),
        0 <= i < nodes.len(),
    ensures
        forall|k: int|
            0 <= k < spec_leaves(nodes, i).len() ==> i < #[trigger] spec_leaves(nodes, i)[k]
                < nodes.len() && nodes[spec_leaves(nodes, i)[k] as int].spec_is_leaf(),
    decreases nodes.len() - i, 9int,
{
    lemma_leaves_from_elements(nodes, i, 0);
    assert(spec_leaves(nodes, i) == spec_leaves_from(nodes, i, 0));
    assert forall|k: int| 0 <= k < spec_leaves(nodes, i).len() implies i < #[trigger] spec_leaves(
        nodes,
        i,
    )[k] < nodes.len() && nodes[spec_leaves(nodes, i)[k] as int].spec_is_leaf() by {
        assert(spec_leaves(nodes, i)[k] == spec_leaves_from(nodes, i, 0)[k]);
    }
}

proof fn lemma_leaves_from_elements(nodes: Seq<OctreeNode>, i: int, j: int)
    requires
        arena_wf(nodes),
        0 <= i < nodes.len(),
        0 <= j <= 8,
    ensures
        forall|k: int|
            0 <= k < spec_leaves_from(nodes, i, j).len() ==> i < #[trigger] spec_leaves_from(
                nodes,
                i,
                j,
            )[k] < nodes.len() && nodes[spec_leaves_from(nodes, i, j)[k] as int].spec_is_leaf(),
    decreases nodes.len() - i, 8 - j,
{
    if j < 8 {
        let c = nodes[i].children@[j];
        let head: Seq<usize> = if c == 0 {
            Seq::empty()
        } else if nodes[c as int].spec_is_leaf() {
            seq![c]
        } else {
            spec_leaves(nodes, c as int)
        };
        let rest = spec_leaves_from(nodes, i, j + 1);
        if c != 0 && !nodes[c as int].spec_is_leaf() {
            lemma_leaves_elements(nodes, c as int);
        }
        lemma_leaves_from_elements(nodes, i, j + 1);
        assert(spec_leaves_from(nodes, i, j) == head + rest);
        assert forall|k: int| 0 <= k < spec_leaves_from(nodes, i, j).len() implies i
            < #[trigger] spec_leaves_from(nodes, i, j)[k] < nodes.len() && nodes[spec_leaves_from(
            nodes,
            i,
            j,
        )[k] as int].spec_is_leaf() by {
            if k < head.len() {
                assert(spec_leaves_from(nodes, i, j)[k] == head[k]);
            } else {
                assert(spec_leaves_from(nodes, i, j)[k] == rest[k - head.len()]);
            }
        }
    }
}

impl LeafOctree {
    /// What a lookup of `color` answers on this tree.
    pub open spec fn spec_palette_index(self, color: IRgb, force_find_color: bool) -> Option<
        usize,
    > {
        spec_lookup(self.spec_nodes(), 0, color, 0, force_find_color)
    }

    /// Returns the palette index of the tree leaf `color` resolves to.
    ///
    /// Walks the same branch codes as insertion. When the walk meets an empty
    /// slot: with `force_find_color` it descends into the first existing
    /// child instead (an approximate answer); without it, it reports no
    /// match.
    pub fn get_palette_index(&self, color: IRgb, force_find_color: bool) -> (r: Option<usize>)
        requires
            self.wf(),
        ensures
            r == self.spec_palette_index(color, force_find_color),
    {
        let n = self.nodes.len();
        assert(n == self.spec_nodes().len());
        lookup_at(&self.nodes, 0, color, 0, force_find_color)
    }

    /// The arena indices of all current leaves, in depth-first order.
    pub fn get_leaf_nodes(&self) -> (out: Vec<usize>)
        requires
            self.wf(),
        ensures
            out@ == spec_leaves(self.spec_nodes(), 0),
            out@.no_duplicates(),
            forall|k: int|
                0 <= k < out@.len() ==> 0 < #[trigger] out@[k] < self.spec_nodes().len()
                    && self.spec_nodes()[out@[k] as int].spec_is_leaf(),
    {
        let mut out: Vec<usize> = Vec::new();
        collect_leaves_at(&self.nodes, 0, &mut out);
        proof {
            lemma_leaves_elements(self.nodes@, 0);
            lemma_leaves_distinct(self.nodes@, self.depth as int, 0);
        }
        out
    }
}

/// Collecting from a later slot never finds more leaves.
proof fn lemma_leaves_from_monotone(nodes: Seq<OctreeNode>, i: int, j1: int, j2: int)
    requires
        arena_wf(nodes),
        0 <= i < nodes.len(),
        0 <= j1 <= j2 <= 8,
    ensures
        spec_leaves_from(nodes, i, j1).len() >= spec_leaves_from(nodes, i, j2).len(),
    decreases j2 - j1,
{
    if j1 < j2 {
        lemma_leaves_from_monotone(nodes, i, j1 + 1, j2);
    }
}

/// A node one of whose children is a leaf or has a leaf below it has a leaf
/// below it.
proof fn lemma_leaves_nonempty(nodes: Seq<OctreeNode>, i: int, j: int)
    requires
        arena_wf(nodes),
        0 <= i < nodes.len(),
        0 <= j < 8,
        nodes[i].children@[j] != 0,
        nodes[nodes[i].children@[j] as int].spec_is_leaf() || spec_leaves(
            nodes,
            nodes[i].children@[j] as int,
        ).len() >= 1,
    ensures
        spec_leaves(nodes, i).len() >= 1,
{
    assert(spec_leaves_from(nodes, i, j).len() >= 1);
    lemma_leaves_from_monotone(nodes, i, 0, j);
}

/// Every leaf's average color channel lies within `[0, 255]`: a leaf's
/// channel sums never exceed 255 per counted pixel, so dividing by the pixel
/// count can never leave the 8-bit range.
pub proof fn lemma_average_in_range(t: LeafOctree, i: int)
    requires
        t.wf(),
        0 <= i < t.spec_nodes().len(),
        t.spec_nodes()[i].spec_is_leaf(),
    ensures
        0 <= t.spec_nodes()[i].color.r as int / t.spec_nodes()[i].pixel_count as int <= 255,
        0 <= t.spec_nodes()[i].color.g as int / t.spec_nodes()[i].pixel_count as int <= 255,
        0 <= t.spec_nodes()[i].color.b as int / t.spec_nodes()[i].pixel_count as int <= 255,
{
    let n = t.spec_nodes()[i];
    assert(0 <= n.color.r as int / n.pixel_count as int <= 255 && 0 <= n.color.g as int
        / n.pixel_count as int <= 255 && 0 <= n.color.b as int / n.pixel_count as int <= 255)
        by (nonlinear_arith)
        requires
            n.pixel_count > 0,
            0 <= n.color.r <= 255 * n.pixel_count,
            0 <= n.color.g <= 255 * n.pixel_count,
            0 <= n.color.b <= 255 * n.pixel_count,
    ;
}

/// Two lookups of the same color on the same tree answer alike: the lookup
/// walk reads the tree and never changes it, so its answer is a function of
/// the tree and the query alone.
pub proof fn lemma_lookup_idempotent(
    t: LeafOctree,
    color: IRgb,
    force_find_color: bool,
    r1: Option<usize>,
    r2: Option<usize>,
)
    requires
        r1 == t.spec_palette_index(color, force_find_color),
        r2 == t.spec_palette_index(color, force_find_color),
    ensures
        r1 == r2,
{
}

/// The recursive lookup walk behind `get_palette_index`.
fn lookup_at(
    nodes: &Vec<OctreeNode>,
    i: usize,
    color: IRgb,
    level: usize,
    force_find_color: bool,
) -> (r: Option<usize>)
    requires
        arena_wf(nodes@),
        i < nodes@.len(),
        level + (nodes@.len() - i) <= usize::MAX,
    ensures
        r == spec_lookup(nodes@, i as int, color, level as int, force_find_color),
    decreases nodes@.len() - i,
{
    let n = &nodes[i];
    if n.pixel_count > 0 {
        return Some(n.palette_index);
    }
    let index = get_color_index(color, level);
    let c = n.children[index];
    if c != 0 {
        lookup_at(nodes, c, color, level + 1, force_find_color)
    } else if force_find_color {
        let fc = first_child_of(n);
        if fc != 0 {
            lookup_at(nodes, fc, color, level + 1, force_find_color)
        } else {
            None
        }
    } else {
        None
    }
}

/// Finds the first nonempty child slot of `n` in index order.
fn first_child_of(n: &OctreeNode) -> (c: usize)
    ensures
        c == first_child(*n),
{
    if n.children[0] != 0 {
        n.children[0]
    } else if n.children[1] != 0 {
        n.children[1]
    } else if n.children[2] != 0 {
        n.children[2]
    } else if n.children[3] != 0 {
        n.children[3]
    } else if n.children[4] != 0 {
        n.children[4]
    } else if n.children[5] != 0 {
        n.children[5]
    } else if n.children[6] != 0 {
        n.children[6]
    } else {
        n.children[7]
    }
}

/// The recursive leaf collection behind `get_leaf_nodes`: appends the leaves
/// below node `i` to `out` in depth-first order.
fn collect_leaves_at(nodes: &Vec<OctreeNode>, i: usize, out: &mut Vec<usize>)
    requires
        arena_wf(nodes@),
        i < nodes@.len(),
    ensures
        final(out)@ == old(out)@ + spec_leaves(nodes@, i as int),
    decreases nodes@.len() - i,
{
    let ghost entry = out@;
    let mut j: usize = 0;
    while j < 8
        invariant
            arena_wf(nodes@),
            i < nodes@.len(),
            j <= 8,
            entry + spec_leaves(nodes@, i as int) =~= out@ + spec_leaves_from(
                nodes@,
                i as int,
                j as int,
            ),
        decreases 8 - j,
    {
        let c = nodes[i].children[j];
        let ghost before = out@;
        if c != 0 {
            if nodes[c].pixel_count > 0 {
                out.push(c);
                proof {
                    assert(before + spec_leaves_from(nodes@, i as int, j as int) =~= out@
                        + spec_leaves_from(nodes@, i as int, j as int + 1));
                }
            } else {
                collect_leaves_at(nodes, c, out);
                proof {
                    assert(before + spec_leaves_from(nodes@, i as int, j as int) =~= out@
                        + spec_leaves_from(nodes@, i as int, j as int + 1));
                }
            }
        }
        j = j + 1;
    }
    proof {
        assert(spec_leaves_from(nodes@, i as int, 8) =~= Seq::<usize>::empty());
        assert(out@ + spec_leaves_from(nodes@, i as int, 8) =~= out@);
        assert(final(out)@ =~= entry + spec_leaves(nodes@, i as int));
    }
}

/// What folding the children of a node gathers up: their pixel counts and
/// channel sums, and how many of them were leaves.
pub ghost struct FoldTotals {
    pub count: int,
    pub r: int,
    pub g: int,
    pub b: int,
    pub leaves: int,
}

/// The totals gathered from child slots `j` through `7` of node `i`.
pub open spec fn fold_from(nodes: Seq<OctreeNode>, i: int, j: int) -> FoldTotals
    decreases 8 - j,
    when arena_wf(nodes) && 0 <= i < nodes.len() && 0 <= j <= 8
{
    if j >= 8 {
        FoldTotals { count: 0, r: 0, g: 0, b: 0, leaves: 0 }
    } else {
        let c = nodes[i].children@[j];
        let rest = fold_from(nodes, i, j + 1);
        if c == 0 {
            rest
        } else {
            FoldTotals {
                count: rest.count + nodes[c as int].pixel_count,
                r: rest.r + nodes[c as int].color.r,
                g: rest.g + nodes[c as int].color.g,
                b: rest.b + nodes[c as int].color.b,
                leaves: rest.leaves + if nodes[c as int].spec_is_leaf() {
                    1int
                } else {
                    0int
                },
            }
        }
    }
}

/// Folds every child of node `i` into the node itself: their pixel counts and
/// channel sums move up, the children are detached and emptied, and the net
/// change in leaf count — `(number of children that were leaves) - 1` — is
/// returned.
pub fn remove_leaves(nodes: &mut Vec<OctreeNode>, i: usize) -> (delta: i32)
    requires
        arena_wf(old(nodes)@),
        slots_distinct(old(nodes)@),
        colors_ok(old(nodes)@),
        leaves_childless(old(nodes)@),
        sum_counts(old(nodes)@) <= PIXEL_CAP,
        i < old(nodes)@.len(),
    ensures
        final(nodes)@.len() == old(nodes)@.len(),
        arena_wf(final(nodes)@),
        slots_distinct(final(nodes)@),
        colors_ok(final(nodes)@),
        leaves_childless(final(nodes)@),
        forall|d: int| depths_ok(old(nodes)@, d) ==> depths_ok(final(nodes)@, d),
        forall|m: int|
            0 <= m < old(nodes)@.len() ==> (#[trigger] final(nodes)@[m]).depth@ == old(
                nodes,
            )@[m].depth@,
        forall|m: int, jj: int|
            0 <= m < final(nodes)@.len() && 0 <= jj < 8 && #[trigger] final(nodes)@[m].children@[jj]
                != 0 ==> final(nodes)@[m].children@[jj] == old(nodes)@[m].children@[jj],
        parents_unique(old(nodes)@) ==> parents_unique(final(nodes)@),
        sum_counts(final(nodes)@) == sum_counts(old(nodes)@),
        delta == fold_from(old(nodes)@, i as int, 0).leaves - 1,
        -1 <= delta <= 7,
        final(nodes)@[i as int].pixel_count == old(nodes)@[i as int].pixel_count + fold_from(
            old(nodes)@,
            i as int,
            0,
        ).count,
        final(nodes)@[i as int].color.r == old(nodes)@[i as int].color.r + fold_from(
            old(nodes)@,
            i as int,
            0,
        ).r,
        final(nodes)@[i as int].color.g == old(nodes)@[i as int].color.g + fold_from(
            old(nodes)@,
            i as int,
            0,
        ).g,
        final(nodes)@[i as int].color.b == old(nodes)@[i as int].color.b + fold_from(
            old(nodes)@,
            i as int,
            0,
        ).b,
        forall|m: int| 0 <= m < 8 ==> final(nodes)@[i as int].children@[m] == 0,
        final(nodes)@[i as int].palette_index == old(nodes)@[i as int].palette_index,
        forall|m: int|
            0 <= m < 8 && #[trigger] old(nodes)@[i as int].children@[m] != 0 ==> {
                let c = old(nodes)@[i as int].children@[m] as int;
                &&& final(nodes)@[c].pixel_count == 0
                &&& final(nodes)@[c].color.r == 0
                &&& final(nodes)@[c].color.g == 0
                &&& final(nodes)@[c].color.b == 0
                &&& final(nodes)@[c].children@ == old(nodes)@[c].children@
                &&& final(nodes)@[c].palette_index == old(nodes)@[c].palette_index
            },
        forall|m: int|
            0 <= m < old(nodes)@.len() && m != i && (forall|k: int|
                0 <= k < 8 && #[trigger] old(nodes)@[i as int].children@[k] != 0 ==> old(
                    nodes,
                )@[i as int].children@[k] != m) ==> #[trigger] final(nodes)@[m] == old(nodes)@[m],
{
    let ghost pre = nodes@;
    let mut leaves_removed: i32 = 0;
    let mut j: usize = 0;
    while j < 8
        invariant
            arena_wf(pre),
            slots_distinct(pre),
            colors_ok(pre),
            leaves_childless(pre),
            sum_counts(pre) <= PIXEL_CAP,
            i < pre.len(),
            j <= 8,
            nodes@.len() == pre.len(),
            arena_wf(nodes@),
            slots_distinct(nodes@),
            colors_ok(nodes@),
            sum_counts(nodes@) == sum_counts(pre),
            forall|m: int|
                0 <= m < pre.len() ==> (#[trigger] nodes@[m]).depth@ == pre[m].depth@,
            forall|m: int, jj: int|
                0 <= m < pre.len() && 0 <= jj < 8 && #[trigger] nodes@[m].children@[jj] != 0
                    ==> nodes@[m].children@[jj] == pre[m].children@[jj],
            forall|m: int, jj: int|
                0 <= m < pre.len() && 0 <= jj < 8 && m != i && nodes@[m].pixel_count > 0
                    ==> #[trigger] nodes@[m].children@[jj] == 0,
            0 <= leaves_removed <= j,
            leaves_removed == fold_from(pre, i as int, 0).leaves - fold_from(
                pre,
                i as int,
                j as int,
            ).leaves,
            nodes@[i as int].pixel_count == pre[i as int].pixel_count + fold_from(
                pre,
                i as int,
                0,
            ).count - fold_from(pre, i as int, j as int).count,
            nodes@[i as int].color.r == pre[i as int].color.r + fold_from(pre, i as int, 0).r
                - fold_from(pre, i as int, j as int).r,
            nodes@[i as int].color.g == pre[i as int].color.g + fold_from(pre, i as int, 0).g
                - fold_from(pre, i as int, j as int).g,
            nodes@[i as int].color.b == pre[i as int].color.b + fold_from(pre, i as int, 0).b
                - fold_from(pre, i as int, j as int).b,
            nodes@[i as int].palette_index == pre[i as int].palette_index,
            forall|m: int| 0 <= m < j ==> #[trigger] nodes@[i as int].children@[m] == 0,
            forall|m: int|
                j <= m < 8 ==> #[trigger] nodes@[i as int].children@[m] == pre[i as int].children@[m],
            forall|m: int|
                0 <= m < j && #[trigger] pre[i as int].children@[m] != 0 ==> {
                    let c = pre[i as int].children@[m] as int;
                    &&& nodes@[c].pixel_count == 0
                    &&& nodes@[c].color.r == 0
                    &&& nodes@[c].color.g == 0
                    &&& nodes@[c].color.b == 0
                    &&& nodes@[c].children@ == pre[c].children@
                    &&& nodes@[c].palette_index == pre[c].palette_index
                },
            forall|m: int|
                0 <= m < pre.len() && m != i && (forall|k: int|
                    0 <= k < j && #[trigger] pre[i as int].children@[k] != 0 ==> pre[i as int].children@[k] != m)
                    ==> #[trigger] nodes@[m] == pre[m],
        decreases 8 - j,
    {
        let c = nodes[i].children[j];
        if c != 0 {
            proof {
                lemma_sum_counts_pair(nodes@, i as int, c as int);
            }
            let child = nodes[c];
            let ghost mid0 = nodes@;
            let mut n = nodes[i];
            if child.pixel_count > 0 {
                leaves_removed = leaves_removed + 1;
            }
            n.pixel_count = n.pixel_count + child.pixel_count;
            n.color.merge(child.color);
            n.children[j] = 0;
            nodes.set(i, n);
            let ghost mid1 = nodes@;
            let mut z = child;
            z.pixel_count = 0;
            z.color = crate::color::SumRgb { r: 0, g: 0, b: 0 };
            nodes.set(c, z);
            proof {
                lemma_sum_counts_update(mid0, i as int, n);
                lemma_sum_counts_update(mid1, c as int, z);
                assert(n.children@ =~= mid0[i as int].children@.update(j as int, 0usize));
            }
        }
        j = j + 1;
    }
    proof {
        assert(fold_from(pre, i as int, 8).leaves == 0);
        assert(fold_from(pre, i as int, 8).count == 0);
        if parents_unique(pre) {
            assert forall|m1: int, j1: int, m2: int, j2: int|
                0 <= m1 < nodes@.len() && 0 <= j1 < 8 && 0 <= m2 < nodes@.len() && 0 <= j2 < 8 && (
                m1 != m2 || j1 != j2) && #[trigger] nodes@[m1].children@[j1] != 0 implies
                nodes@[m1].children@[j1] != #[trigger] nodes@[m2].children@[j2] by {
                assert(nodes@[m1].children@[j1] == pre[m1].children@[j1]);
                if nodes@[m2].children@[j2] != 0 {
                    assert(nodes@[m2].children@[j2] == pre[m2].children@[j2]);
                }
            }
        }
    }
    leaves_removed - 1
}

/// No two child slots anywhere in the arena name the same node: every node
/// has at most one parent.
pub open spec fn parents_unique(nodes: Seq<OctreeNode>) -> bool {
    forall|m1: int, j1: int, m2: int, j2: int|
        0 <= m1 < nodes.len() && 0 <= j1 < 8 && 0 <= m2 < nodes.len() && 0 <= j2 < 8 && (m1 != m2
            || j1 != j2) && #[trigger] nodes[m1].children@[j1] != 0 ==> nodes[m1].children@[j1]
            != #[trigger] nodes[m2].children@[j2]
}

/// Some child slot of some node names `m`.
pub open spec fn has_parent(nodes: Seq<OctreeNode>, m: int) -> bool {
    exists|p: int, j: int|
        0 <= p < nodes.len() && 0 <= j < 8 && (#[trigger] nodes[p].children@[j]) == m && m != 0
}

/// Node `m` stands somewhere in the registry of depth `d`.
pub open spec fn registered(levels: Seq<Vec<usize>>, d: int, m: int) -> bool {
    &&& 1 <= d <= levels.len()
    &&& exists|k: int| 0 <= k < levels[d - 1]@.len() && (#[trigger] levels[d - 1]@[k]) == m
}

/// Whether node `t` lies in the subtree rooted at node `i` (including `i`
/// itself).
pub open spec fn in_subtree(nodes: Seq<OctreeNode>, i: int, t: int) -> bool
    decreases nodes.len() - i,
    when arena_wf(nodes) && 0 <= i < nodes.len()
{
    i == t || exists|j: int|
        0 <= j < 8 && #[trigger] nodes[i].children@[j] != 0 && in_subtree(
            nodes,
            nodes[i].children@[j] as int,
            t,
        )
}

/// A subtree member lies at or after its root in the arena.
proof fn lemma_subtree_bounds(nodes: Seq<OctreeNode>, i: int, t: int)
    requires
        arena_wf(nodes),
        0 <= i < nodes.len(),
        in_subtree(nodes, i, t),
    ensures
        i <= t < nodes.len(),
    decreases nodes.len() - i,
{
    if i != t {
        let j = choose|j: int|
            0 <= j < 8 && #[trigger] nodes[i].children@[j] != 0 && in_subtree(
                nodes,
                nodes[i].children@[j] as int,
                t,
            );
        lemma_subtree_bounds(nodes, nodes[i].children@[j] as int, t);
    }
}

/// A subtree member lies at or below its root's depth.
proof fn lemma_subtree_depth(nodes: Seq<OctreeNode>, depth: int, i: int, t: int)
    requires
        arena_wf(nodes),
        depths_ok(nodes, depth),
        0 <= i < nodes.len(),
        in_subtree(nodes, i, t),
    ensures
        nodes[t].depth@ >= nodes[i].depth@,
    decreases nodes.len() - i,
{
    if i != t {
        let j = choose|j: int|
            0 <= j < 8 && #[trigger] nodes[i].children@[j] != 0 && in_subtree(
                nodes,
                nodes[i].children@[j] as int,
                t,
            );
        lemma_subtree_depth(nodes, depth, nodes[i].children@[j] as int, t);
    }
}

/// Reaching a node means reaching whatever its children reach.
proof fn lemma_subtree_step(nodes: Seq<OctreeNode>, r: int, p: int, t: int)
    requires
        arena_wf(nodes),
        0 <= r < nodes.len(),
        in_subtree(nodes, r, p),
        0 <= p < nodes.len(),
        exists|j: int| 0 <= j < 8 && (#[trigger] nodes[p].children@[j]) == t && t != 0,
        0 <= t < nodes.len(),
        in_subtree(nodes, t, t),
    ensures
        in_subtree(nodes, r, t),
    decreases nodes.len() - r,
{
    if r == p {
        let j = choose|j: int| 0 <= j < 8 && (#[trigger] nodes[p].children@[j]) == t && t != 0;
        assert(nodes[r].children@[j] != 0 && in_subtree(nodes, nodes[r].children@[j] as int, t));
    } else {
        let j = choose|j: int|
            0 <= j < 8 && #[trigger] nodes[r].children@[j] != 0 && in_subtree(
                nodes,
                nodes[r].children@[j] as int,
                p,
            );
        lemma_subtree_step(nodes, nodes[r].children@[j] as int, p, t);
    }
}

/// A reached node other than the subtree's root is reached through one of
/// its parents.
proof fn lemma_subtree_parent(nodes: Seq<OctreeNode>, c: int, t: int)
    requires
        arena_wf(nodes),
        0 <= c < nodes.len(),
        in_subtree(nodes, c, t),
        t != c,
    ensures
        exists|p: int, j: int|
            0 <= p < nodes.len() && 0 <= j < 8 && (#[trigger] nodes[p].children@[j]) == t && t != 0
                && in_subtree(nodes, c, p),
    decreases nodes.len() - c,
{
    let j = choose|j: int|
        0 <= j < 8 && #[trigger] nodes[c].children@[j] != 0 && in_subtree(
            nodes,
            nodes[c].children@[j] as int,
            t,
        );
    let cc = nodes[c].children@[j] as int;
    if cc == t {
        assert(in_subtree(nodes, c, c));
        assert((nodes[c].children@[j]) == t && t != 0 && in_subtree(nodes, c, c));
    } else {
        lemma_subtree_parent(nodes, cc, t);
        let (p, jj): (int, int) = choose|p: int, jj: int|
            0 <= p < nodes.len() && 0 <= jj < 8 && (#[trigger] nodes[p].children@[jj]) == t && t
                != 0 && in_subtree(nodes, cc, p);
        assert(in_subtree(nodes, c, p)) by {
            assert(nodes[c].children@[j] != 0 && in_subtree(nodes, cc, p));
        }
        assert((nodes[p].children@[jj]) == t && t != 0 && in_subtree(nodes, c, p));
    }
}

/// With unique parents, two same-depth roots reaching the same node are the
/// same root: ancestry at each depth is unique.
proof fn lemma_ancestor_unique(
    nodes: Seq<OctreeNode>,
    depth: int,
    c1: int,
    c2: int,
    t: int,
)
    requires
        arena_wf(nodes),
        depths_ok(nodes, depth),
        parents_unique(nodes),
        0 <= c1 < nodes.len(),
        0 <= c2 < nodes.len(),
        in_subtree(nodes, c1, t),
        in_subtree(nodes, c2, t),
        nodes[c1].depth@ == nodes[c2].depth@,
    ensures
        c1 == c2,
    decreases nodes.len() - c1, nodes.len() - c2,
{
    lemma_subtree_bounds(nodes, c1, t);
    lemma_subtree_bounds(nodes, c2, t);
    if c1 == t && c2 == t {
    } else if c1 == t {
        let j = choose|j: int|
            0 <= j < 8 && #[trigger] nodes[c2].children@[j] != 0 && in_subtree(
                nodes,
                nodes[c2].children@[j] as int,
                t,
            );
        lemma_subtree_depth(nodes, depth, nodes[c2].children@[j] as int, t);
    } else if c2 == t {
        let j = choose|j: int|
            0 <= j < 8 && #[trigger] nodes[c1].children@[j] != 0 && in_subtree(
                nodes,
                nodes[c1].children@[j] as int,
                t,
            );
        lemma_subtree_depth(nodes, depth, nodes[c1].children@[j] as int, t);
    } else {
        let j1 = choose|j: int|
            0 <= j < 8 && #[trigger] nodes[c1].children@[j] != 0 && in_subtree(
                nodes,
                nodes[c1].children@[j] as int,
                t,
            );
        let j2 = choose|j: int|
            0 <= j < 8 && #[trigger] nodes[c2].children@[j] != 0 && in_subtree(
                nodes,
                nodes[c2].children@[j] as int,
                t,
            );
        let cc1 = nodes[c1].children@[j1] as int;
        let cc2 = nodes[c2].children@[j2] as int;
        lemma_ancestor_unique(nodes, depth, cc1, cc2, t);
    }
}

/// A traversal reads only child links and pixel counts inside its own
/// subtree: agreeing there, two arenas collect the same leaves.
proof fn lemma_leaves_frame(pre: Seq<OctreeNode>, post: Seq<OctreeNode>, c: int)
    requires
        arena_wf(pre),
        arena_wf(post),
        pre.len() == post.len(),
        0 <= c < pre.len(),
        forall|t: int|
            0 <= t < pre.len() && #[trigger] in_subtree(pre, c, t) ==> post[t].children@
                == pre[t].children@ && post[t].pixel_count == pre[t].pixel_count,
    ensures
        spec_leaves(post, c) == spec_leaves(pre, c),
    decreases pre.len() - c, 9int,
{
    assert(in_subtree(pre, c, c));
    lemma_leaves_frame_from(pre, post, c, 0);
}

proof fn lemma_leaves_frame_from(pre: Seq<OctreeNode>, post: Seq<OctreeNode>, c: int, j: int)
    requires
        arena_wf(pre),
        arena_wf(post),
        pre.len() == post.len(),
        0 <= c < pre.len(),
        0 <= j <= 8,
        forall|t: int|
            0 <= t < pre.len() && #[trigger] in_subtree(pre, c, t) ==> post[t].children@
                == pre[t].children@ && post[t].pixel_count == pre[t].pixel_count,
    ensures
        spec_leaves_from(post, c, j) == spec_leaves_from(pre, c, j),
    decreases pre.len() - c, 8 - j,
{
    assert(in_subtree(pre, c, c));
    if j < 8 {
        let cc = pre[c].children@[j];
        if cc != 0 {
            assert(in_subtree(pre, c, cc as int)) by {
                assert(in_subtree(pre, cc as int, cc as int));
            }
            if !pre[cc as int].spec_is_leaf() {
                assert forall|t: int|
                    0 <= t < pre.len() && #[trigger] in_subtree(pre, cc as int, t) implies post[t].children@
                    == pre[t].children@ && post[t].pixel_count == pre[t].pixel_count by {
                    assert(in_subtree(pre, c, t)) by {
                        assert(pre[c].children@[j] != 0 && in_subtree(pre, cc as int, t));
                    }
                }
                lemma_leaves_frame(pre, post, cc as int);
            }
        }
        lemma_leaves_frame_from(pre, post, c, j + 1);
    }
}

/// A leaf strictly below `r` shows up when `r`'s subtree is collected.
proof fn lemma_leaf_reached(nodes: Seq<OctreeNode>, r: int, m: int)
    requires
        arena_wf(nodes),
        leaves_childless(nodes),
        0 <= r < nodes.len(),
        in_subtree(nodes, r, m),
        m != r,
        nodes[m].spec_is_leaf(),
    ensures
        spec_leaves(nodes, r).len() >= 1,
    decreases nodes.len() - r,
{
    let j = choose|j: int|
        0 <= j < 8 && #[trigger] nodes[r].children@[j] != 0 && in_subtree(
            nodes,
            nodes[r].children@[j] as int,
            m,
        );
    let cc = nodes[r].children@[j] as int;
    if cc == m {
        lemma_leaves_nonempty(nodes, r, j);
    } else {
        if nodes[cc].spec_is_leaf() {
            assert(in_subtree(nodes, cc, m) && cc != m);
            let jj = choose|jj: int|
                0 <= jj < 8 && #[trigger] nodes[cc].children@[jj] != 0 && in_subtree(
                    nodes,
                    nodes[cc].children@[jj] as int,
                    m,
                );
            assert(false);
        }
        lemma_leaf_reached(nodes, cc, m);
        lemma_leaves_nonempty(nodes, r, j);
    }
}

/// A positive total count names a node that carries it.
proof fn lemma_sum_counts_witness(nodes: Seq<OctreeNode>)
    requires
        sum_counts(nodes) > 0,
    ensures
        exists|m: int| 0 <= m < nodes.len() && (#[trigger] nodes[m]).pixel_count > 0,
    decreases nodes.len(),
{
    if nodes.len() > 0 {
        if nodes.last().pixel_count > 0 {
            assert((nodes[nodes.len() - 1]).pixel_count > 0);
        } else {
            lemma_sum_counts_witness(nodes.drop_last());
            let m = choose|m: int|
                0 <= m < nodes.drop_last().len() && (#[trigger] nodes.drop_last()[m]).pixel_count
                    > 0;
            assert((nodes[m]).pixel_count > 0);
        }
    }
}

/// A node whose ancestors all still hang from parents is reachable from the
/// root.
proof fn lemma_reach_root(nodes: Seq<OctreeNode>, depth: int, threshold: int, m: int)
    requires
        arena_wf(nodes),
        depths_ok(nodes, depth),
        forall|m2: int| 1 <= m2 < nodes.len() ==> 1 <= (#[trigger] nodes[m2]).depth@,
        forall|m2: int|
            1 <= m2 < nodes.len() && (#[trigger] nodes[m2]).depth@ <= threshold ==> has_parent(
                nodes,
                m2,
            ),
        1 <= m < nodes.len(),
        nodes[m].depth@ <= threshold,
    ensures
        in_subtree(nodes, 0, m),
    decreases nodes[m].depth@,
{
    assert(has_parent(nodes, m));
    let (p, j): (int, int) = choose|p: int, j: int|
        0 <= p < nodes.len() && 0 <= j < 8 && (#[trigger] nodes[p].children@[j]) == m && m != 0;
    assert(nodes[m].depth@ == nodes[p].depth@ + 1);
    if p == 0 {
        assert(in_subtree(nodes, 0, 0));
        assert(nodes[0].children@[j] != 0 && in_subtree(nodes, m, m));
    } else {
        lemma_reach_root(nodes, depth, threshold, p);
        lemma_subtree_step(nodes, 0, p, m);
    }
}

/// When every child of a node is a leaf, collecting its subtree lists
/// exactly those children, one leaf each.
proof fn lemma_leaves_all_leaf_children(nodes: Seq<OctreeNode>, i: int, j: int)
    requires
        arena_wf(nodes),
        0 <= i < nodes.len(),
        0 <= j <= 8,
        forall|jj: int|
            0 <= jj < 8 && #[trigger] nodes[i].children@[jj] != 0 ==> nodes[nodes[i].children@[jj] as int].pixel_count > 0,
    ensures
        spec_leaves_from(nodes, i, j).len() == fold_from(nodes, i, j).leaves,
        0 <= fold_from(nodes, i, j).leaves <= 8 - j,
    decreases 8 - j,
{
    if j < 8 {
        lemma_leaves_all_leaf_children(nodes, i, j + 1);
    }
}

/// With unique parents, a collected leaf list never names a node twice, and
/// every listed node lies in the collecting subtree.
pub proof fn lemma_leaves_distinct(nodes: Seq<OctreeNode>, depth: int, r: int)
    requires
        arena_wf(nodes),
        parents_unique(nodes),
        depths_ok(nodes, depth),
        0 <= r < nodes.len(),
    ensures
        spec_leaves(nodes, r).no_duplicates(),
        forall|k: int|
            0 <= k < spec_leaves(nodes, r).len() ==> in_subtree(
                nodes,
                r,
                #[trigger] spec_leaves(nodes, r)[k] as int,
            ),
    decreases nodes.len() - r, 9int,
{
    lemma_leaves_from_distinct(nodes, depth, r, 0);
    assert forall|k: int| 0 <= k < spec_leaves(nodes, r).len() implies in_subtree(
        nodes,
        r,
        #[trigger] spec_leaves(nodes, r)[k] as int,
    ) by {
        let x = spec_leaves(nodes, r)[k];
        let jj = choose|jj: int|
            0 <= jj < 8 && #[trigger] nodes[r].children@[jj] != 0 && in_subtree(
                nodes,
                nodes[r].children@[jj] as int,
                x as int,
            );
        assert(nodes[r].children@[jj] != 0 && in_subtree(
            nodes,
            nodes[r].children@[jj] as int,
            x as int,
        ));
    }
}

proof fn lemma_leaves_from_distinct(nodes: Seq<OctreeNode>, depth: int, r: int, j: int)
    requires
        arena_wf(nodes),
        parents_unique(nodes),
        depths_ok(nodes, depth),
        0 <= r < nodes.len(),
        0 <= j <= 8,
    ensures
        spec_leaves_from(nodes, r, j).no_duplicates(),
        forall|k: int|
            0 <= k < spec_leaves_from(nodes, r, j).len() ==> exists|jj: int|
                j <= jj < 8 && #[trigger] nodes[r].children@[jj] != 0 && in_subtree(
                    nodes,
                    nodes[r].children@[jj] as int,
                    #[trigger] spec_leaves_from(nodes, r, j)[k] as int,
                ),
    decreases nodes.len() - r, 8 - j,
{
    if j < 8 {
        let c = nodes[r].children@[j];
        let head: Seq<usize> = if c == 0 {
            Seq::empty()
        } else if nodes[c as int].spec_is_leaf() {
            seq![c]
        } else {
            spec_leaves(nodes, c as int)
        };
        let rest = spec_leaves_from(nodes, r, j + 1);
        let whole = spec_leaves_from(nodes, r, j);
        assert(whole == head + rest);
        if c != 0 && !nodes[c as int].spec_is_leaf() {
            lemma_leaves_distinct(nodes, depth, c as int);
        }
        lemma_leaves_from_distinct(nodes, depth, r, j + 1);
        // every head element sits in slot `j`'s subtree
        assert forall|k: int| 0 <= k < head.len() implies in_subtree(
            nodes,
            c as int,
            #[trigger] head[k] as int,
        ) && c != 0 by {
            if nodes[c as int].spec_is_leaf() {
                assert(in_subtree(nodes, c as int, c as int));
            }
        }
        // head and rest are disjoint: one node cannot sit under two distinct
        // same-depth children of `r`
        assert forall|p: int, q: int|
            0 <= p < head.len() && 0 <= q < rest.len() implies head[p] != rest[q] by {
            if head[p] == rest[q] {
                let x = rest[q] as int;
                let jj = choose|jj: int|
                    j + 1 <= jj < 8 && #[trigger] nodes[r].children@[jj] != 0 && in_subtree(
                        nodes,
                        nodes[r].children@[jj] as int,
                        x,
                    );
                let c2 = nodes[r].children@[jj] as int;
                assert(in_subtree(nodes, c as int, x));
                assert(nodes[c as int].depth@ == nodes[r].depth@ + 1);
                assert(nodes[c2].depth@ == nodes[r].depth@ + 1);
                lemma_ancestor_unique(nodes, depth, c as int, c2, x);
            }
        }
        assert forall|p: int, q: int|
            0 <= p < whole.len() && 0 <= q < whole.len() && p != q implies whole[p] != whole[q] by {
            if p < head.len() && q < head.len() {
                assert(head[p] != head[q]);
            } else if p >= head.len() && q >= head.len() {
                assert(rest[p - head.len()] != rest[q - head.len()]);
            } else if p < head.len() {
                assert(head[p] != rest[q - head.len()]);
            } else {
                assert(head[q] != rest[p - head.len()]);
            }
        }
        assert forall|k: int| 0 <= k < whole.len() implies exists|jj: int|
            j <= jj < 8 && #[trigger] nodes[r].children@[jj] != 0 && in_subtree(
                nodes,
                nodes[r].children@[jj] as int,
                #[trigger] whole[k] as int,
            ) by {
            if k < head.len() {
                assert(nodes[r].children@[j] != 0 && in_subtree(
                    nodes,
                    nodes[r].children@[j] as int,
                    whole[k] as int,
                ));
            } else {
                let x = rest[k - head.len()];
                assert(whole[k] == x);
                let jj = choose|jj: int|
                    j + 1 <= jj < 8 && #[trigger] nodes[r].children@[jj] != 0 && in_subtree(
                        nodes,
                        nodes[r].children@[jj] as int,
                        x as int,
                    );
                assert(nodes[r].children@[jj] != 0 && in_subtree(
                    nodes,
                    nodes[r].children@[jj] as int,
                    whole[k] as int,
                ));
            }
        }
    }
}

/// A node without children has no leaves below it.
proof fn lemma_leaves_of_childless(nodes: Seq<OctreeNode>, i: int)
    requires
        arena_wf(nodes),
        0 <= i < nodes.len(),
        forall|j: int| 0 <= j < 8 ==> nodes[i].children@[j] == 0,
    ensures
        spec_leaves(nodes, i).len() == 0,
{
    lemma_leaves_from_childless(nodes, i, 0);
}

proof fn lemma_leaves_from_childless(nodes: Seq<OctreeNode>, i: int, j: int)
    requires
        arena_wf(nodes),
        0 <= i < nodes.len(),
        0 <= j <= 8,
        forall|jj: int| 0 <= jj < 8 ==> nodes[i].children@[jj] == 0,
    ensures
        spec_leaves_from(nodes, i, j).len() == 0,
    decreases 8 - j,
{
    if j < 8 {
        lemma_leaves_from_childless(nodes, i, j + 1);
    }
}

/// A nonempty leaf child makes the fold totals positive.
proof fn lemma_fold_lower(nodes: Seq<OctreeNode>, i: int, j: int, s: int)
    requires
        arena_wf(nodes),
        0 <= i < nodes.len(),
        0 <= j <= s < 8,
        nodes[i].children@[s] != 0,
        nodes[nodes[i].children@[s] as int].pixel_count > 0,
    ensures
        fold_from(nodes, i, j).count > 0,
        fold_from(nodes, i, j).leaves >= 1,
    decreases 8 - j,
{
    if j < s {
        lemma_fold_lower(nodes, i, j + 1, s);
        lemma_fold_nonneg(nodes, i, j + 1);
    } else {
        lemma_fold_nonneg(nodes, i, j + 1);
    }
}

/// Fold totals never go negative.
proof fn lemma_fold_nonneg(nodes: Seq<OctreeNode>, i: int, j: int)
    requires
        arena_wf(nodes),
        0 <= i < nodes.len(),
        0 <= j <= 8,
    ensures
        fold_from(nodes, i, j).count >= 0,
        fold_from(nodes, i, j).leaves >= 0,
    decreases 8 - j,
{
    if j < 8 {
        lemma_fold_nonneg(nodes, i, j + 1);
    }
}

/// What folding changes, exactly: with unique parents, the folded node —
/// reached on one path — replaces its leaf children in the collected leaf
/// set, one leaf for `n`, so the count drops by exactly `n - 1`.
proof fn lemma_fold_exact(
    pre: Seq<OctreeNode>,
    post: Seq<OctreeNode>,
    depth: int,
    idx: int,
    r: int,
)
    requires
        arena_wf(pre),
        arena_wf(post),
        pre.len() == post.len(),
        leaves_childless(pre),
        parents_unique(pre),
        depths_ok(pre, depth),
        0 <= idx < pre.len(),
        0 <= r < pre.len(),
        r != idx,
        in_subtree(pre, r, idx),
        pre[idx].pixel_count == 0,
        forall|jj: int|
            0 <= jj < 8 && #[trigger] pre[idx].children@[jj] != 0 ==> pre[pre[idx].children@[jj] as int].pixel_count > 0,
        first_child(pre[idx]) != 0,
        forall|jj: int| 0 <= jj < 8 ==> post[idx].children@[jj] == 0,
        post[idx].pixel_count > 0,
        forall|k: int|
            0 <= k < 8 && #[trigger] pre[idx].children@[k] != 0 ==> post[pre[idx].children@[k] as int].pixel_count == 0 && post[pre[idx].children@[k] as int].children@ == pre[pre[idx].children@[k] as int].children@,
        forall|m: int|
            0 <= m < pre.len() && m != idx && (forall|k: int|
                0 <= k < 8 && #[trigger] pre[idx].children@[k] != 0 ==> pre[idx].children@[k]
                    != m) ==> #[trigger] post[m] == pre[m],
    ensures
        spec_leaves(post, r).len() == spec_leaves(pre, r).len() - (fold_from(
            pre,
            idx,
            0,
        ).leaves - 1),
        spec_leaves(post, r).len() >= 1,
    decreases pre.len() - r, 9int,
{
    let j0 = choose|j: int|
        0 <= j < 8 && #[trigger] pre[r].children@[j] != 0 && in_subtree(
            pre,
            pre[r].children@[j] as int,
            idx,
        );
    assert forall|j2: int|
        0 <= j2 < 8 && j2 != j0 implies !(pre[r].children@[j2] != 0 && in_subtree(
        pre,
        pre[r].children@[j2] as int,
        idx,
    )) by {
        if pre[r].children@[j2] != 0 && in_subtree(pre, pre[r].children@[j2] as int, idx) {
            lemma_ancestor_unique(
                pre,
                depth,
                pre[r].children@[j0] as int,
                pre[r].children@[j2] as int,
                idx,
            );
        }
    }
    lemma_fold_exact_from(pre, post, depth, idx, r, 0, j0);
}

proof fn lemma_fold_exact_from(
    pre: Seq<OctreeNode>,
    post: Seq<OctreeNode>,
    depth: int,
    idx: int,
    r: int,
    j: int,
    j0: int,
)
    requires
        arena_wf(pre),
        arena_wf(post),
        pre.len() == post.len(),
        leaves_childless(pre),
        parents_unique(pre),
        depths_ok(pre, depth),
        0 <= idx < pre.len(),
        0 <= r < pre.len(),
        r != idx,
        pre[idx].pixel_count == 0,
        forall|jj: int|
            0 <= jj < 8 && #[trigger] pre[idx].children@[jj] != 0 ==> pre[pre[idx].children@[jj] as int].pixel_count > 0,
        first_child(pre[idx]) != 0,
        forall|jj: int| 0 <= jj < 8 ==> post[idx].children@[jj] == 0,
        post[idx].pixel_count > 0,
        forall|k: int|
            0 <= k < 8 && #[trigger] pre[idx].children@[k] != 0 ==> post[pre[idx].children@[k] as int].pixel_count == 0 && post[pre[idx].children@[k] as int].children@ == pre[pre[idx].children@[k] as int].children@,
        forall|m: int|
            0 <= m < pre.len() && m != idx && (forall|k: int|
                0 <= k < 8 && #[trigger] pre[idx].children@[k] != 0 ==> pre[idx].children@[k]
                    != m) ==> #[trigger] post[m] == pre[m],
        0 <= j <= 8,
        0 <= j0 < 8,
        pre[r].children@[j0] != 0,
        in_subtree(pre, pre[r].children@[j0] as int, idx),
        forall|j2: int|
            0 <= j2 < 8 && j2 != j0 ==> !(#[trigger] pre[r].children@[j2] != 0 && in_subtree(
                pre,
                pre[r].children@[j2] as int,
                idx,
            )),
    ensures
        j <= j0 ==> spec_leaves_from(post, r, j).len() == spec_leaves_from(pre, r, j).len() - (
        fold_from(pre, idx, 0).leaves - 1) && spec_leaves_from(post, r, j).len() >= 1,
        j > j0 ==> spec_leaves_from(post, r, j).len() == spec_leaves_from(pre, r, j).len(),
    decreases pre.len() - r, 8 - j,
{
    lemma_subtree_bounds(pre, pre[r].children@[j0] as int, idx);
    assert(r < idx) by {
        lemma_subtree_bounds(pre, r, idx);
    }
    assert(post[r].children@ == pre[r].children@) by {
        if exists|k: int|
            0 <= k < 8 && #[trigger] pre[idx].children@[k] != 0 && pre[idx].children@[k] == r {
            let k = choose|k: int|
                0 <= k < 8 && #[trigger] pre[idx].children@[k] != 0 && pre[idx].children@[k] == r;
            assert(r > idx);
        }
        assert(post[r] == pre[r]);
    }
    if j < 8 {
        let c = pre[r].children@[j];
        let ghost pre_head: Seq<usize> = if c == 0 {
            Seq::empty()
        } else if pre[c as int].spec_is_leaf() {
            seq![c]
        } else {
            spec_leaves(pre, c as int)
        };
        let ghost post_head: Seq<usize> = if c == 0 {
            Seq::empty()
        } else if post[c as int].spec_is_leaf() {
            seq![c]
        } else {
            spec_leaves(post, c as int)
        };
        assert(spec_leaves_from(pre, r, j) == pre_head + spec_leaves_from(pre, r, j + 1));
        assert(spec_leaves_from(post, r, j) == post_head + spec_leaves_from(post, r, j + 1));
        assert(spec_leaves_from(pre, r, j).len() == pre_head.len() + spec_leaves_from(
            pre,
            r,
            j + 1,
        ).len());
        assert(spec_leaves_from(post, r, j).len() == post_head.len() + spec_leaves_from(
            post,
            r,
            j + 1,
        ).len());
        if c != 0 {
            if j == j0 {
                if c == idx {
                    lemma_leaves_all_leaf_children(pre, idx, 0);
                    assert(pre_head == spec_leaves(pre, idx));
                    assert(pre_head.len() == fold_from(pre, idx, 0).leaves);
                    assert(post_head == seq![c]);
                    assert(post_head.len() == 1);
                } else {
                    assert(!(exists|k: int|
                        0 <= k < 8 && #[trigger] pre[idx].children@[k] != 0
                            && pre[idx].children@[k] == c)) by {
                        if exists|k: int|
                            0 <= k < 8 && #[trigger] pre[idx].children@[k] != 0
                                && pre[idx].children@[k] == c {
                            let k = choose|k: int|
                                0 <= k < 8 && #[trigger] pre[idx].children@[k] != 0
                                    && pre[idx].children@[k] == c;
                        }
                    }
                    assert(post[c as int] == pre[c as int]);
                    if pre[c as int].spec_is_leaf() {
                        assert(in_subtree(pre, c as int, idx) && c != idx);
                        let jj = choose|jj: int|
                            0 <= jj < 8 && #[trigger] pre[c as int].children@[jj] != 0
                                && in_subtree(pre, pre[c as int].children@[jj] as int, idx);
                        assert(false);
                    }
                    lemma_fold_exact(pre, post, depth, idx, c as int);
                    assert(post_head.len() == pre_head.len() - (fold_from(pre, idx, 0).leaves
                        - 1));
                    assert(post_head.len() >= 1);
                }
            } else {
                assert(!in_subtree(pre, c as int, idx));
                assert(c != idx) by {
                    assert(in_subtree(pre, idx, idx));
                }
                assert(!(exists|k: int|
                    0 <= k < 8 && #[trigger] pre[idx].children@[k] != 0 && pre[idx].children@[k]
                        == c)) by {
                    if exists|k: int|
                        0 <= k < 8 && #[trigger] pre[idx].children@[k] != 0
                            && pre[idx].children@[k] == c {
                        let k = choose|k: int|
                            0 <= k < 8 && #[trigger] pre[idx].children@[k] != 0
                                && pre[idx].children@[k] == c;
                        assert(in_subtree(pre, c as int, idx)) by {
                            assert(in_subtree(pre, idx, idx));
                            lemma_subtree_parent_link(pre, c as int, idx, k);
                        }
                    }
                }
                assert(post[c as int] == pre[c as int]);
                assert forall|t: int|
                    0 <= t < pre.len() && #[trigger] in_subtree(pre, c as int, t) implies post[t].children@
                    == pre[t].children@ && post[t].pixel_count == pre[t].pixel_count by {
                    assert(t != idx);
                    if t != c {
                        lemma_subtree_parent(pre, c as int, t);
                        let (p, pj): (int, int) = choose|p: int, pj: int|
                            0 <= p < pre.len() && 0 <= pj < 8 && (#[trigger] pre[p].children@[pj])
                                == t && t != 0 && in_subtree(pre, c as int, p);
                        if exists|k: int|
                            0 <= k < 8 && #[trigger] pre[idx].children@[k] != 0
                                && pre[idx].children@[k] == t {
                            let k = choose|k: int|
                                0 <= k < 8 && #[trigger] pre[idx].children@[k] != 0
                                    && pre[idx].children@[k] == t;
                            assert(p == idx && pj == k);
                        }
                    }
                    assert(post[t] == pre[t]);
                }
                if !pre[c as int].spec_is_leaf() {
                    lemma_leaves_frame(pre, post, c as int);
                }
                assert(post_head.len() == pre_head.len());
            }
        }
        lemma_fold_exact_from(pre, post, depth, idx, r, j + 1, j0);
        if j == j0 {
            assert(post_head.len() == pre_head.len() - (fold_from(pre, idx, 0).leaves - 1));
            assert(post_head.len() >= 1);
            assert(spec_leaves_from(post, r, j + 1).len() == spec_leaves_from(pre, r, j + 1).len());
        } else if j < j0 {
            assert(post_head.len() == pre_head.len());
        } else {
            assert(post_head.len() == pre_head.len());
        }
    }
}

/// A child slot pointing at a node puts that node in the parent's subtree;
/// here phrased for using a known slot of a known parent.
proof fn lemma_subtree_parent_link(nodes: Seq<OctreeNode>, c: int, t: int, k: int)
    requires
        arena_wf(nodes),
        0 <= c < nodes.len(),
        0 <= t < nodes.len(),
        0 <= k < 8,
        nodes[c].children@[k] == t,
        nodes[c].children@[k] != 0,
    ensures
        in_subtree(nodes, c, t),
{
    assert(in_subtree(nodes, t, t));
    assert(nodes[c].children@[k] != 0 && in_subtree(nodes, nodes[c].children@[k] as int, t));
}

/// One merge step, seen whole: folding registry candidate `idx` of depth
/// `li + 1` shrinks the collected leaf count by exactly the returned delta,
/// keeps at least one leaf, and preserves every scan invariant.
proof fn lemma_merge_step(
    pre: Seq<OctreeNode>,
    post: Seq<OctreeNode>,
    dep: int,
    li: int,
    idx: int,
)
    requires
        arena_wf(pre),
        arena_wf(post),
        pre.len() == post.len(),
        slots_distinct(pre),
        leaves_childless(pre),
        parents_unique(pre),
        depths_ok(pre, dep),
        0 <= li <= dep - 2,
        0 < idx < pre.len(),
        pre[idx].depth@ == li + 1,
        first_child(pre[idx]) != 0,
        forall|m: int| 1 <= m < pre.len() ==> 1 <= (#[trigger] pre[m]).depth@,
        forall|m: int|
            1 <= m < pre.len() && (#[trigger] pre[m]).depth@ <= li + 1 ==> has_parent(pre, m),
        forall|m: int|
            1 <= m < pre.len() && (#[trigger] pre[m]).depth@ >= li + 2 && has_parent(pre, m)
                ==> pre[m].pixel_count > 0,
        forall|m: int|
            1 <= m < pre.len() && (#[trigger] pre[m]).depth@ <= li + 1 && first_child(pre[m]) == 0
                ==> pre[m].pixel_count > 0,
        // what the fold left behind
        forall|m: int| 0 <= m < pre.len() ==> (#[trigger] post[m]).depth@ == pre[m].depth@,
        forall|m: int, jj: int|
            0 <= m < post.len() && 0 <= jj < 8 && #[trigger] post[m].children@[jj] != 0
                ==> post[m].children@[jj] == pre[m].children@[jj],
        forall|jj: int| 0 <= jj < 8 ==> post[idx].children@[jj] == 0,
        post[idx].pixel_count == pre[idx].pixel_count + fold_from(pre, idx, 0).count,
        forall|kk: int|
            0 <= kk < 8 && #[trigger] pre[idx].children@[kk] != 0 ==> post[pre[idx].children@[kk] as int].pixel_count == 0 && post[pre[idx].children@[kk] as int].children@ == pre[pre[idx].children@[kk] as int].children@,
        forall|m: int|
            0 <= m < pre.len() && m != idx && (forall|kk: int|
                0 <= kk < 8 && #[trigger] pre[idx].children@[kk] != 0 ==> pre[idx].children@[kk]
                    != m) ==> #[trigger] post[m] == pre[m],
    ensures
        spec_leaves(post, 0).len() == spec_leaves(pre, 0).len() - (fold_from(
            pre,
            idx,
            0,
        ).leaves - 1),
        spec_leaves(post, 0).len() >= 1,
        fold_from(pre, idx, 0).leaves >= 1,
        forall|m: int|
            1 <= m < post.len() && (#[trigger] post[m]).depth@ <= li + 1 ==> has_parent(post, m),
        forall|m: int|
            1 <= m < post.len() && (#[trigger] post[m]).depth@ >= li + 2 && has_parent(post, m)
                ==> post[m].pixel_count > 0,
        forall|m: int|
            1 <= m < post.len() && (#[trigger] post[m]).depth@ <= li + 1 && first_child(post[m])
                == 0 ==> post[m].pixel_count > 0,
        forall|m: int|
            0 <= m < pre.len() && (#[trigger] pre[m]).depth@ == li + 1 && first_child(pre[m]) == 0
                ==> first_child(post[m]) == 0,
        first_child(post[idx]) == 0,
{
    // the folded node is internal and its children are all leaves
    assert(pre[idx].pixel_count == 0) by {
        if pre[idx].pixel_count > 0 {
            assert(first_child(pre[idx]) == 0);
        }
    }
    assert forall|jj: int|
        0 <= jj < 8 && #[trigger] pre[idx].children@[jj] != 0 implies pre[pre[idx].children@[jj] as int].pixel_count
        > 0 by {
        let c = pre[idx].children@[jj] as int;
        assert(pre[c].depth@ == li + 2);
        assert(has_parent(pre, c)) by {
            assert((pre[idx].children@[jj]) == c && c != 0);
        }
    }
    assert(exists|s: int| 0 <= s < 8 && #[trigger] pre[idx].children@[s] != 0) by {
        if forall|s: int| 0 <= s < 8 ==> #[trigger] pre[idx].children@[s] == 0 {
            assert(first_child(pre[idx]) == 0);
        }
    }
    let s = choose|s: int| 0 <= s < 8 && #[trigger] pre[idx].children@[s] != 0;
    lemma_fold_lower(pre, idx, 0, s);
    lemma_reach_root(pre, dep, li + 1, idx);
    lemma_fold_exact(pre, post, dep, idx, 0);
    assert forall|m: int|
        1 <= m < post.len() && (#[trigger] post[m]).depth@ <= li + 1 implies has_parent(
        post,
        m,
    ) by {
        assert(has_parent(pre, m));
        let (p, j): (int, int) = choose|p: int, j: int|
            0 <= p < pre.len() && 0 <= j < 8 && (#[trigger] pre[p].children@[j]) == m && m != 0;
        if p == idx {
            assert(pre[m].depth@ == li + 2);
        } else {
            assert(post[p].children@[j] == m);
        }
    }
    assert forall|m: int|
        1 <= m < post.len() && (#[trigger] post[m]).depth@ >= li + 2 && has_parent(post, m)
        implies post[m].pixel_count > 0 by {
        let (p, j): (int, int) = choose|p: int, j: int|
            0 <= p < post.len() && 0 <= j < 8 && (#[trigger] post[p].children@[j]) == m && m != 0;
        assert(post[p].children@[j] == pre[p].children@[j]);
        assert(has_parent(pre, m)) by {
            assert((pre[p].children@[j]) == m && m != 0);
        }
        if exists|kk: int|
            0 <= kk < 8 && #[trigger] pre[idx].children@[kk] != 0 && pre[idx].children@[kk] == m {
            let kk = choose|kk: int|
                0 <= kk < 8 && #[trigger] pre[idx].children@[kk] != 0 && pre[idx].children@[kk]
                    == m;
            assert(p == idx && j == kk);
            assert(post[idx].children@[j] == 0);
            assert(false);
        }
        assert(post[m] == pre[m]);
    }
    assert forall|m: int|
        1 <= m < post.len() && (#[trigger] post[m]).depth@ <= li + 1 && first_child(post[m]) == 0
        implies post[m].pixel_count > 0 by {
        if m != idx {
            if exists|kk: int|
                0 <= kk < 8 && #[trigger] pre[idx].children@[kk] != 0 && pre[idx].children@[kk]
                    == m {
                let kk = choose|kk: int|
                    0 <= kk < 8 && #[trigger] pre[idx].children@[kk] != 0
                        && pre[idx].children@[kk] == m;
                assert(pre[m].depth@ == li + 2);
            } else {
                assert(post[m] == pre[m]);
            }
        }
    }
    assert forall|m: int|
        0 <= m < pre.len() && (#[trigger] pre[m]).depth@ == li + 1 && first_child(pre[m]) == 0
        implies first_child(post[m]) == 0 by {
        if m != idx {
            if exists|kk: int|
                0 <= kk < 8 && #[trigger] pre[idx].children@[kk] != 0 && pre[idx].children@[kk]
                    == m {
                let kk = choose|kk: int|
                    0 <= kk < 8 && #[trigger] pre[idx].children@[kk] != 0
                        && pre[idx].children@[kk] == m;
                assert(pre[m].depth@ == li + 2);
                assert(false);
            }
            assert(post[m] == pre[m]);
        }
    }
}

/// Which leaves a subtree has depends only on the child links and pixel
/// counts: assigning palette indices does not move any leaf.
proof fn lemma_leaves_congruence(a: Seq<OctreeNode>, b: Seq<OctreeNode>, i: int)
    requires
        a.len() == b.len(),
        arena_wf(a),
        forall|m: int|
            0 <= m < a.len() ==> (#[trigger] b[m]).children@ == a[m].children@ && b[m].pixel_count
                == a[m].pixel_count,
        0 <= i < a.len(),
    ensures
        spec_leaves(b, i) == spec_leaves(a, i),
    decreases a.len() - i, 9int,
{
    assert(arena_wf(b));
    lemma_leaves_from_congruence(a, b, i, 0);
}

proof fn lemma_leaves_from_congruence(a: Seq<OctreeNode>, b: Seq<OctreeNode>, i: int, j: int)
    requires
        a.len() == b.len(),
        arena_wf(a),
        forall|m: int|
            0 <= m < a.len() ==> (#[trigger] b[m]).children@ == a[m].children@ && b[m].pixel_count
                == a[m].pixel_count,
        0 <= i < a.len(),
        0 <= j <= 8,
    ensures
        spec_leaves_from(b, i, j) == spec_leaves_from(a, i, j),
    decreases a.len() - i, 8 - j,
{
    assert(arena_wf(b));
    if j < 8 {
        let c = a[i].children@[j];
        if c != 0 && !a[c as int].spec_is_leaf() {
            lemma_leaves_congruence(a, b, c as int);
        }
        lemma_leaves_from_congruence(a, b, i, j + 1);
    }
}

impl LeafOctree {
    /// Shrinks the tree toward at most `color_count` leaves and extracts the
    /// palette.
    ///
    /// Merge candidates are visited registry level by registry level, deepest
    /// first and in creation order within a level; each candidate with at
    /// least one child folds its children into itself, and scanning stops the
    /// moment the running leaf count reaches `color_count`. The surviving
    /// leaves are then collected in depth-first order: every leaf is assigned
    /// its position as palette index, and the first `color_count` of them
    /// contribute their average color — accumulated sum over pixel count,
    /// channel by channel — as palette entries.
    ///
    /// Afterwards the leaf count never exceeds what it was, never falls to
    /// zero while the tree holds any color, and lands at or under
    /// `color_count` whenever `color_count` is at least 8 — the root itself
    /// never folds, so up to eight top-octant leaves can outlast a smaller
    /// target, in which case the leaves past `color_count` carry palette
    /// indices with no palette entry of their own and lookups through them
    /// are clamped by the renderer.
    #[verifier::rlimit(100)]
    pub fn make_palette(&mut self, color_count: i32) -> (palette: Vec<IRgb>)
        requires
            old(self).wf(),
            old(self).building(),
            color_count >= 1,
        ensures
            final(self).wf(),
            final(self).spec_depth() == old(self).spec_depth(),
            final(self).spec_inserted() == old(self).spec_inserted(),
            spec_leaves(final(self).spec_nodes(), 0).len() <= spec_leaves(
                old(self).spec_nodes(),
                0,
            ).len(),
            spec_leaves(final(self).spec_nodes(), 0).len() <= 8 || spec_leaves(
                final(self).spec_nodes(),
                0,
            ).len() <= color_count,
            old(self).spec_inserted() > 0 ==> spec_leaves(final(self).spec_nodes(), 0).len()
                >= 1,
            ({
                let nodes = final(self).spec_nodes();
                let leaves = spec_leaves(nodes, 0);
                &&& palette@.len() == if leaves.len() <= color_count {
                    leaves.len() as int
                } else {
                    color_count as int
                }
                &&& forall|k: int|
                    0 <= k < palette@.len() ==> {
                        let n = nodes[#[trigger] leaves[k] as int];
                        &&& palette@[k].r == n.color.r as int / n.pixel_count as int
                        &&& palette@[k].g == n.color.g as int / n.pixel_count as int
                        &&& palette@[k].b == n.color.b as int / n.pixel_count as int
                    }
                &&& leaves.no_duplicates()
                &&& forall|k: int|
                    0 <= k < leaves.len() ==> nodes[#[trigger] leaves[k] as int].palette_index == k
            }),
    {
        let ghost dep = self.depth as int;
        let ghost ins = self.inserted;
        let ghost nlen = self.nodes@.len();
        let ghost lv = self.levels@;
        let cc: i128 = color_count as i128;

        let ghost entry_nodes = self.nodes@;
        let first_leaves = self.get_leaf_nodes();
        let mut leaf_count: i128 = first_leaves.len() as i128;

        proof {
            if ins > 0 {
                lemma_sum_counts_witness(self.nodes@);
                let m = choose|m: int|
                    0 <= m < self.nodes@.len() && (#[trigger] self.nodes@[m]).pixel_count > 0;
                lemma_reach_root(self.nodes@, dep, dep, m);
                lemma_leaf_reached(self.nodes@, 0, m);
            }
        }
        let ghost entry_len = spec_leaves(entry_nodes, 0).len() as int;
        let mut done = false;
        let mut li: usize = self.depth - 1;
        while li > 0 && !done
            invariant
                self.depth == dep,
                self.inserted == ins,
                self.levels@ == lv,
                self.nodes@.len() == nlen,
                1 <= nlen,
                3 <= dep <= 10,
                lv.len() == dep + 1,
                li <= dep - 1,
                arena_wf(self.nodes@),
                slots_distinct(self.nodes@),
                colors_ok(self.nodes@),
                depths_ok(self.nodes@, dep),
                leaves_childless(self.nodes@),
                parents_unique(self.nodes@),
                sum_counts(self.nodes@) == ins,
                ins <= PIXEL_CAP,
                forall|l: int, k: int|
                    0 <= l < lv.len() && 0 <= k < lv[l].len() ==> 0 < #[trigger] lv[l]@[k] < nlen,
                entry_nodes.len() == nlen,
                forall|m: int|
                    0 <= m < nlen ==> (#[trigger] self.nodes@[m]).depth@ == entry_nodes[m].depth@,
                forall|m: int| 1 <= m < nlen ==> 1 <= (#[trigger] self.nodes@[m]).depth@,
                forall|m: int| 0 <= m < nlen ==> (#[trigger] self.nodes@[m]).depth@ <= dep,
                forall|l: int, k: int|
                    0 <= l < lv.len() && 0 <= k < lv[l].len()
                        ==> self.nodes@[#[trigger] lv[l]@[k] as int].depth@ == l + 1,
                forall|m: int|
                    1 <= m < nlen ==> registered(lv, (#[trigger] self.nodes@[m]).depth@ as int, m),
                forall|m: int|
                    1 <= m < nlen && (#[trigger] self.nodes@[m]).depth@ <= li + 1
                        ==> has_parent(self.nodes@, m),
                !done ==> forall|m: int|
                    1 <= m < nlen && (#[trigger] self.nodes@[m]).depth@ >= li + 1 && has_parent(
                        self.nodes@,
                        m,
                    ) ==> self.nodes@[m].pixel_count > 0,
                forall|m: int|
                    1 <= m < nlen && (#[trigger] self.nodes@[m]).depth@ <= li && first_child(
                        self.nodes@[m],
                    ) == 0 ==> self.nodes@[m].pixel_count > 0,
                0 <= entry_len <= usize::MAX,
                leaf_count == spec_leaves(self.nodes@, 0).len(),
                spec_leaves(self.nodes@, 0).len() <= entry_len,
                entry_len == spec_leaves(entry_nodes, 0).len(),
                entry_len >= 1 ==> spec_leaves(self.nodes@, 0).len() >= 1,
                ins > 0 ==> entry_len >= 1,
                done ==> leaf_count <= cc,
            decreases li,
        {
            li = li - 1;
            let level_len = self.levels[li].len();
            let mut k: usize = 0;
            while k < level_len && !done
                invariant
                    self.depth == dep,
                    self.inserted == ins,
                    self.levels@ == lv,
                    self.nodes@.len() == nlen,
                    1 <= nlen,
                    3 <= dep <= 10,
                    li <= dep - 2,
                    lv.len() == dep + 1,
                    arena_wf(self.nodes@),
                    slots_distinct(self.nodes@),
                    colors_ok(self.nodes@),
                    depths_ok(self.nodes@, dep),
                    leaves_childless(self.nodes@),
                    parents_unique(self.nodes@),
                    sum_counts(self.nodes@) == ins,
                    ins <= PIXEL_CAP,
                    forall|l: int, m: int|
                        0 <= l < lv.len() && 0 <= m < lv[l].len() ==> 0 < #[trigger] lv[l]@[m]
                            < nlen,
                    entry_nodes.len() == nlen,
                    forall|m: int|
                        0 <= m < nlen ==> (#[trigger] self.nodes@[m]).depth@
                            == entry_nodes[m].depth@,
                    forall|m: int| 1 <= m < nlen ==> 1 <= (#[trigger] self.nodes@[m]).depth@,
                    forall|m: int| 0 <= m < nlen ==> (#[trigger] self.nodes@[m]).depth@ <= dep,
                    forall|l: int, kk: int|
                        0 <= l < lv.len() && 0 <= kk < lv[l].len()
                            ==> self.nodes@[#[trigger] lv[l]@[kk] as int].depth@ == l + 1,
                    forall|m: int|
                        1 <= m < nlen ==> registered(
                            lv,
                            (#[trigger] self.nodes@[m]).depth@ as int,
                            m,
                        ),
                    forall|m: int|
                        1 <= m < nlen && (#[trigger] self.nodes@[m]).depth@ <= li + 1
                            ==> has_parent(self.nodes@, m),
                    forall|m: int|
                        1 <= m < nlen && (#[trigger] self.nodes@[m]).depth@ >= li + 2
                            && has_parent(self.nodes@, m) ==> self.nodes@[m].pixel_count > 0,
                    forall|m: int|
                        1 <= m < nlen && (#[trigger] self.nodes@[m]).depth@ <= li + 1
                            && first_child(self.nodes@[m]) == 0 ==> self.nodes@[m].pixel_count
                            > 0,
                    level_len == lv[li as int].len(),
                    k <= level_len,
                    forall|kk: int|
                        0 <= kk < k ==> first_child(
                            self.nodes@[#[trigger] lv[li as int]@[kk] as int],
                        ) == 0,
                    0 <= entry_len <= usize::MAX,
                    leaf_count == spec_leaves(self.nodes@, 0).len(),
                    spec_leaves(self.nodes@, 0).len() <= entry_len,
                    entry_len == spec_leaves(entry_nodes, 0).len(),
                    entry_len >= 1 ==> spec_leaves(self.nodes@, 0).len() >= 1,
                    ins > 0 ==> entry_len >= 1,
                    done ==> leaf_count <= cc,
                decreases level_len - k,
            {
                let idx = self.levels[li][k];
                let n = self.nodes[idx];
                if first_child_of(&n) != 0 {
                    let ghost fold_pre = self.nodes@;
                    let delta = remove_leaves(&mut self.nodes, idx);
                    leaf_count = leaf_count - delta as i128;
                    proof {
                        lemma_merge_step(fold_pre, self.nodes@, dep, li as int, idx as int);
                    }
                }
                k = k + 1;
                if leaf_count <= cc {
                    done = true;
                }
            }
            proof {
                if !done {
                    assert forall|m: int|
                        1 <= m < nlen && (#[trigger] self.nodes@[m]).depth@ >= li + 1
                            && has_parent(self.nodes@, m) implies self.nodes@[m].pixel_count
                        > 0 by {
                        if self.nodes@[m].depth@ == li + 1 {
                            assert(registered(lv, li + 1, m));
                            let kk = choose|kk: int|
                                0 <= kk < lv[li as int]@.len() && (#[trigger] lv[li as int]@[kk])
                                    == m;
                            assert(first_child(self.nodes@[m]) == 0);
                        }
                    }
                }
            }
        }
        proof {
            if !done {
                assert forall|jj: int|
                    0 <= jj < 8 && #[trigger] self.nodes@[0].children@[jj] != 0 implies self.nodes@[self.nodes@[0].children@[jj] as int].pixel_count
                    > 0 by {
                    let c = self.nodes@[0].children@[jj] as int;
                    assert(self.nodes@[c].depth@ == 1);
                    assert(has_parent(self.nodes@, c)) by {
                        assert((self.nodes@[0].children@[jj]) == c && c != 0);
                    }
                }
                lemma_leaves_all_leaf_children(self.nodes@, 0, 0);
            }
            assert(spec_leaves(self.nodes@, 0).len() <= cc || spec_leaves(self.nodes@, 0).len()
                <= 8);
        }
        let ghost merged_nodes = self.nodes@;

        let mut l: usize = 0;
        while l < self.levels.len()
            invariant
                self.depth == dep,
                self.inserted == ins,
                self.nodes@.len() == nlen,
                1 <= nlen,
                3 <= dep <= 10,
                self.levels@.len() == dep + 1,
                l <= self.levels@.len(),
                arena_wf(self.nodes@),
                slots_distinct(self.nodes@),
                parents_unique(self.nodes@),
                colors_ok(self.nodes@),
                depths_ok(self.nodes@, dep),
                leaves_childless(self.nodes@),
                sum_counts(self.nodes@) == ins,
                ins <= PIXEL_CAP,
                entry_nodes.len() == nlen,
                self.nodes@ == merged_nodes,
                spec_leaves(merged_nodes, 0).len() <= spec_leaves(entry_nodes, 0).len(),
                spec_leaves(merged_nodes, 0).len() <= 8 || spec_leaves(merged_nodes, 0).len()
                    <= cc,
                ins > 0 ==> spec_leaves(merged_nodes, 0).len() >= 1,
                forall|m: int| 0 <= m < l ==> #[trigger] self.levels@[m]@.len() == 0,
            decreases self.levels@.len() - l,
        {
            self.levels.set(l, Vec::new());
            l = l + 1;
        }

        assert(self.wf());
        let leaves = self.get_leaf_nodes();
        let ghost nd = self.nodes@;
        proof {
            lemma_leaves_elements(nd, 0);
            lemma_leaves_distinct(nd, dep, 0);
        }
        let total = leaves.len();
        let ccz: usize = color_count as usize;
        let mut palette: Vec<IRgb> = Vec::new();
        let mut k: usize = 0;
        while k < total
            invariant
                self.depth == dep,
                self.inserted == ins,
                self.nodes@.len() == nlen,
                1 <= nlen,
                3 <= dep <= 10,
                self.levels@.len() == dep + 1,
                forall|m: int| 0 <= m < self.levels@.len() ==> #[trigger] self.levels@[m]@.len() == 0,
                arena_wf(self.nodes@),
                slots_distinct(self.nodes@),
                parents_unique(self.nodes@),
                colors_ok(self.nodes@),
                depths_ok(self.nodes@, dep),
                leaves_childless(self.nodes@),
                sum_counts(self.nodes@) == ins,
                ins <= PIXEL_CAP,
                nd.len() == nlen,
                forall|m: int|
                    0 <= m < nlen ==> (#[trigger] self.nodes@[m]).children@ == nd[m].children@
                        && self.nodes@[m].pixel_count == nd[m].pixel_count && self.nodes@[m].color
                        == nd[m].color && self.nodes@[m].depth@ == nd[m].depth@,
                leaves@ == spec_leaves(nd, 0),
                entry_nodes.len() == nlen,
                spec_leaves(nd, 0).len() <= spec_leaves(entry_nodes, 0).len(),
                spec_leaves(nd, 0).len() <= 8 || spec_leaves(nd, 0).len() <= cc,
                ins > 0 ==> spec_leaves(nd, 0).len() >= 1,
                total == leaves@.len(),
                forall|m: int|
                    0 <= m < total ==> 0 < #[trigger] leaves@[m] < nlen
                        && nd[leaves@[m] as int].spec_is_leaf(),
                ccz == color_count,
                1 <= ccz,
                k <= total,
                palette@.len() == if k <= ccz {
                    k as int
                } else {
                    ccz as int
                },
                forall|m: int|
                    0 <= m < palette@.len() ==> {
                        let n = self.nodes@[#[trigger] leaves@[m] as int];
                        &&& palette@[m].r == n.color.r as int / n.pixel_count as int
                        &&& palette@[m].g == n.color.g as int / n.pixel_count as int
                        &&& palette@[m].b == n.color.b as int / n.pixel_count as int
                    },
                leaves@.no_duplicates(),
                forall|m: int|
                    0 <= m < k ==> self.nodes@[#[trigger] leaves@[m] as int].palette_index == m,
            decreases total - k,
        {
            let idx = leaves[k];
            let mut n = self.nodes[idx];
            if k < ccz {
                proof {
                    assert(n.color.r as int / n.pixel_count as int <= 255 && n.color.g as int
                        / n.pixel_count as int <= 255 && n.color.b as int / n.pixel_count as int
                        <= 255) by (nonlinear_arith)
                        requires
                            n.pixel_count > 0,
                            n.color.r <= 255 * n.pixel_count,
                            n.color.g <= 255 * n.pixel_count,
                            n.color.b <= 255 * n.pixel_count,
                    ;
                }
                let r = n.color.r / n.pixel_count;
                let g = n.color.g / n.pixel_count;
                let b = n.color.b / n.pixel_count;
                palette.push(IRgb { r: r as u8, g: g as u8, b: b as u8 });
            }
            n.palette_index = k;
            let ghost before = self.nodes@;
            self.nodes.set(idx, n);
            proof {
                lemma_sum_counts_update(before, idx as int, n);
            }
            k = k + 1;
        }
        proof {
            lemma_leaves_congruence(nd, self.nodes@, 0);
        }
        palette
    }
}

/// Creates the missing child of node `i` at slot `index`: a fresh blank node
/// one level below `i`, appended to the arena, linked into the slot, and
/// recorded in its level's registry.
#[verifier::rlimit(1)]
fn create_child(
    nodes: &mut Vec<OctreeNode>,
    levels: &mut Vec<Vec<usize>>,
    i: usize,
    index: usize,
    level: usize,
    depth: usize,
)
    requires
        arena_wf(old(nodes)@),
        slots_distinct(old(nodes)@),
        colors_ok(old(nodes)@),
        depths_ok(old(nodes)@, depth as int),
        leaves_childless(old(nodes)@),
        parents_unique(old(nodes)@),
        forall|m: int|
            0 <= m < old(nodes)@.len() && (#[trigger] old(nodes)@[m]).pixel_count > 0 ==> old(
                nodes,
            )@[m].depth@ == depth,
        forall|m: int| 0 <= m < old(nodes)@.len() ==> (#[trigger] old(nodes)@[m]).depth@ <= depth,
        forall|m: int| 1 <= m < old(nodes)@.len() ==> 1 <= (#[trigger] old(nodes)@[m]).depth@,
        forall|m: int| 1 <= m < old(nodes)@.len() ==> #[trigger] has_parent(old(nodes)@, m),
        forall|m: int|
            1 <= m < old(nodes)@.len() ==> registered(
                old(levels)@,
                (#[trigger] old(nodes)@[m]).depth@ as int,
                m,
            ),
        forall|l: int, k: int|
            0 <= l < old(levels)@.len() && 0 <= k < old(levels)@[l].len()
                ==> old(nodes)@[#[trigger] old(levels)@[l]@[k] as int].depth@ == l + 1,
        i < old(nodes)@.len(),
        index < 8,
        old(nodes)@[i as int].children@[index as int] == 0,
        old(nodes)@[i as int].depth@ == level,
        level < depth <= 10,
        old(levels)@.len() == depth + 1,
        forall|l: int, k: int|
            0 <= l < old(levels)@.len() && 0 <= k < old(levels)@[l].len() ==> 0
                < #[trigger] old(levels)@[l]@[k] < old(nodes)@.len(),
    ensures
        final(nodes)@.len() == old(nodes)@.len() + 1,
        arena_wf(final(nodes)@),
        slots_distinct(final(nodes)@),
        colors_ok(final(nodes)@),
        depths_ok(final(nodes)@, depth as int),
        leaves_childless(final(nodes)@),
        parents_unique(final(nodes)@),
        forall|m: int|
            0 <= m < final(nodes)@.len() && (#[trigger] final(nodes)@[m]).pixel_count > 0
                ==> final(nodes)@[m].depth@ == depth,
        forall|m: int| 0 <= m < final(nodes)@.len() ==> (#[trigger] final(nodes)@[m]).depth@
            <= depth,
        forall|m: int| 1 <= m < final(nodes)@.len() ==> 1 <= (#[trigger] final(nodes)@[m]).depth@,
        forall|m: int| 1 <= m < final(nodes)@.len() ==> #[trigger] has_parent(final(nodes)@, m),
        forall|m: int|
            1 <= m < final(nodes)@.len() ==> registered(
                final(levels)@,
                (#[trigger] final(nodes)@[m]).depth@ as int,
                m,
            ),
        forall|l: int, k: int|
            0 <= l < final(levels)@.len() && 0 <= k < final(levels)@[l].len()
                ==> final(nodes)@[#[trigger] final(levels)@[l]@[k] as int].depth@ == l + 1,
        forall|l: int, k: int|
            0 <= l < final(levels)@.len() && 0 <= k < final(levels)@[l].len() ==> 0
                < #[trigger] final(levels)@[l]@[k] < final(nodes)@.len(),
        final(levels)@.len() == old(levels)@.len(),
        forall|l: int|
            0 <= l < old(levels)@.len() ==> (#[trigger] old(levels)@[l]@).is_prefix_of(
                final(levels)@[l]@,
            ),
        sum_counts(final(nodes)@) == sum_counts(old(nodes)@),
        ({
            let fresh = old(nodes)@.len() as int;
            &&& final(nodes)@[fresh].pixel_count == 0
            &&& final(nodes)@[fresh].color.r == 0
            &&& final(nodes)@[fresh].color.g == 0
            &&& final(nodes)@[fresh].color.b == 0
            &&& final(nodes)@[fresh].palette_index == 0
            &&& final(nodes)@[fresh].depth@ == level + 1
            &&& (forall|j: int| 0 <= j < 8 ==> final(nodes)@[fresh].children@[j] == 0)
            &&& final(nodes)@[i as int].children@ == old(nodes)@[i as int].children@.update(
                index as int,
                old(nodes)@.len() as usize,
            )
            &&& final(nodes)@[i as int].pixel_count == old(nodes)@[i as int].pixel_count
            &&& final(nodes)@[i as int].color == old(nodes)@[i as int].color
            &&& final(nodes)@[i as int].palette_index == old(nodes)@[i as int].palette_index
            &&& final(nodes)@[i as int].depth@ == old(nodes)@[i as int].depth@
            &&& forall|m: int|
                0 <= m < old(nodes)@.len() && m != i ==> #[trigger] final(nodes)@[m] == old(
                    nodes,
                )@[m]
        }),
{
    let ghost pre = nodes@;
    let ghost prelv = levels@;
    let fresh = nodes.len();
    let blank = OctreeNode::new_at(Ghost((level + 1) as nat));
    nodes.push(blank);
    let mut n = nodes[i];
    n.children[index] = fresh;
    nodes.set(i, n);
    levels[level].push(fresh);
    proof {
        let ghost midlv = levels@;
        lemma_sum_counts_push(pre, blank);
        lemma_sum_counts_update(pre.push(blank), i as int, n);
        assert(n.children@ =~= pre[i as int].children@.update(index as int, fresh));
        assert forall|m1: int, j1: int, m2: int, j2: int|
            0 <= m1 < nodes@.len() && 0 <= j1 < 8 && 0 <= m2 < nodes@.len() && 0 <= j2 < 8 && (m1
                != m2 || j1 != j2) && #[trigger] nodes@[m1].children@[j1] != 0 implies
            nodes@[m1].children@[j1] != #[trigger] nodes@[m2].children@[j2] by {
            if m1 < pre.len() && !(m1 == i && j1 == index) {
                assert(nodes@[m1].children@[j1] == pre[m1].children@[j1]);
            }
            if m2 < pre.len() && !(m2 == i && j2 == index) {
                assert(nodes@[m2].children@[j2] == pre[m2].children@[j2]);
            }
        }
        assert forall|m: int| 1 <= m < nodes@.len() implies #[trigger] has_parent(nodes@, m) by {
            if m < pre.len() {
                assert(has_parent(pre, m));
                let (p, j): (int, int) = choose|p: int, j: int|
                    0 <= p < pre.len() && 0 <= j < 8 && (#[trigger] pre[p].children@[j]) == m && m
                        != 0;
                assert(nodes@[p].children@[j] == m);
            } else {
                assert((nodes@[i as int].children@[index as int]) == m && m != 0);
            }
        }
        assert forall|m: int|
            1 <= m < nodes@.len() implies registered(
            levels@,
            (#[trigger] nodes@[m]).depth@ as int,
            m,
        ) by {
            if m < pre.len() {
                assert(registered(prelv, pre[m].depth@ as int, m));
                let d = pre[m].depth@ as int;
                let k = choose|k: int|
                    0 <= k < prelv[d - 1]@.len() && (#[trigger] prelv[d - 1]@[k]) == m;
                assert(midlv[d - 1]@[k] == m);
            } else {
                let d = (level + 1) as int;
                assert(midlv[d - 1]@[midlv[d - 1]@.len() - 1] == fresh);
            }
        }
        assert forall|l: int| 0 <= l < prelv.len() implies (#[trigger] prelv[l]@).is_prefix_of(
            levels@[l]@,
        ) by {
            assert(prelv[l]@ =~= levels@[l]@.subrange(0, prelv[l]@.len() as int));
        }
    }
}

/// The footprint of one insertion: walking `color`'s branch codes from node
/// `i` at `level` reaches a terminal node `t` that took the color's mass;
/// every other node that already existed keeps its mass, palette index and
/// child links; nodes the walk added carry no mass; and the only child links
/// that changed are empty slots filled with fresh nodes on the walked branch.
#[verifier::opaque]
pub open spec fn insert_delta(
    pre: Seq<OctreeNode>,
    post: Seq<OctreeNode>,
    color: IRgb,
    i: int,
    level: int,
    depth: int,
) -> bool {
    let t = spec_walk(post, color, i, level, depth - level);
    &&& 0 <= t < post.len()
    &&& post[t].depth@ == depth
    &&& post[t].pixel_count > 0
    &&& (t < pre.len() ==> {
        &&& post[t].pixel_count == pre[t].pixel_count + 1
        &&& post[t].color.r == pre[t].color.r + color.r
        &&& post[t].color.g == pre[t].color.g + color.g
        &&& post[t].color.b == pre[t].color.b + color.b
        &&& post[t].children@ == pre[t].children@
        &&& post[t].palette_index == pre[t].palette_index
    })
    &&& (t >= pre.len() ==> {
        &&& post[t].pixel_count == 1
        &&& post[t].color.r == color.r
        &&& post[t].color.g == color.g
        &&& post[t].color.b == color.b
        &&& post[t].palette_index == 0
    })
    &&& forall|m: int|
        0 <= m < pre.len() && m != t ==> (#[trigger] post[m]).pixel_count == pre[m].pixel_count
            && post[m].color == pre[m].color && post[m].palette_index == pre[m].palette_index
    &&& forall|m: int|
        pre.len() <= m < post.len() && m != t ==> (#[trigger] post[m]).pixel_count == 0
            && post[m].palette_index == 0
    &&& forall|m: int, j: int|
        0 <= m < pre.len() && 0 <= j < 8 && #[trigger] post[m].children@[j] != pre[m].children@[j]
            ==> pre[m].children@[j] == 0 && post[m].children@[j] >= pre.len()
            && j == spec_color_index(color, post[m].depth@ as int)
}

/// Extends an insertion footprint one level up: where the walk from child
/// `c` at `level + 1` has footprint `mid -> post`, and `mid` differs from
/// `pre` at most by one fresh empty node hung on `i`'s branch slot, the walk
/// from `i` at `level` has footprint `pre -> post`.
proof fn lemma_insert_delta_descend(
    pre: Seq<OctreeNode>,
    mid: Seq<OctreeNode>,
    post: Seq<OctreeNode>,
    color: IRgb,
    i: int,
    c: int,
    level: int,
    depth: int,
)
    requires
        0 <= i < pre.len(),
        pre.len() <= mid.len() <= post.len(),
        0 <= level < depth,
        0 < c < mid.len(),
        arena_wf(post),
        mid[i].children@[spec_color_index(color, level)] == c,
        pre[i].depth@ == level,
        mid[c].depth@ == level + 1,
        forall|m: int|
            0 <= m < pre.len() ==> (#[trigger] mid[m]).pixel_count == pre[m].pixel_count
                && mid[m].color == pre[m].color && mid[m].palette_index == pre[m].palette_index
                && mid[m].depth@ == pre[m].depth@,
        forall|m: int|
            pre.len() <= m < mid.len() ==> (#[trigger] mid[m]).pixel_count == 0
                && mid[m].palette_index == 0 && mid[m].color.r == 0 && mid[m].color.g == 0
                && mid[m].color.b == 0,
        forall|m: int|
            0 <= m < pre.len() && m != i ==> (#[trigger] mid[m]).children@ == pre[m].children@,
        forall|j: int|
            0 <= j < 8 && #[trigger] mid[i].children@[j] != pre[i].children@[j]
                ==> pre[i].children@[j] == 0 && mid[i].children@[j] >= pre.len() && j
                == spec_color_index(color, level),
        forall|m: int| 0 <= m < mid.len() ==> (#[trigger] post[m]).depth@ == mid[m].depth@,
        insert_delta(mid, post, color, c, level + 1, depth),
    ensures
        insert_delta(pre, post, color, i, level, depth),
{
    reveal(insert_delta);
    let idx = spec_color_index(color, level);
    let t = spec_walk(post, color, c, level + 1, depth - level - 1);
    assert(post[i].children@[idx] == c) by {
        if post[i].children@[idx] != mid[i].children@[idx] {
            assert(mid[i].children@[idx] == 0);
        }
    }
    assert(spec_walk(post, color, i, level, depth - level) == t);
    assert(post[i].depth@ == level);
    assert(t != i);
    if t < pre.len() {
        assert(post[t].children@ == mid[t].children@ && mid[t].children@ == pre[t].children@);
    }
    assert forall|m: int|
        0 <= m < pre.len() && m != t implies (#[trigger] post[m]).pixel_count
        == pre[m].pixel_count && post[m].color == pre[m].color && post[m].palette_index
        == pre[m].palette_index by {
        assert(mid[m].pixel_count == pre[m].pixel_count);
    }
    assert forall|m: int|
        pre.len() <= m < post.len() && m != t implies (#[trigger] post[m]).pixel_count == 0
        && post[m].palette_index == 0 by {
        if m < mid.len() {
            assert(post[m].pixel_count == mid[m].pixel_count);
        }
    }
    assert forall|m: int, j: int|
        0 <= m < pre.len() && 0 <= j < 8 && #[trigger] post[m].children@[j]
        != pre[m].children@[j] implies pre[m].children@[j] == 0 && post[m].children@[j]
        >= pre.len() && j == spec_color_index(color, post[m].depth@ as int) by {
        if post[m].children@[j] != mid[m].children@[j] {
            assert(mid[m].children@[j] == 0 && post[m].children@[j] >= mid.len() && j
                == spec_color_index(color, post[m].depth@ as int));
            assert(pre[m].children@[j] == mid[m].children@[j] || pre[m].children@[j] == 0);
        } else {
            assert(m == i && j == idx);
            assert(post[m].depth@ as int == level);
        }
    }
}

/// The recursive insertion walk: `i` is the current node, `level` its depth.
#[verifier::rlimit(60)]
fn add_color_at(
    nodes: &mut Vec<OctreeNode>,
    levels: &mut Vec<Vec<usize>>,
    i: usize,
    color: IRgb,
    level: usize,
    depth: usize,
)
    requires
        arena_wf(old(nodes)@),
        slots_distinct(old(nodes)@),
        colors_ok(old(nodes)@),
        depths_ok(old(nodes)@, depth as int),
        leaves_childless(old(nodes)@),
        forall|m: int|
            0 <= m < old(nodes)@.len() && (#[trigger] old(nodes)@[m]).pixel_count > 0 ==> old(
                nodes,
            )@[m].depth@ == depth,
        old(nodes)@[i as int].depth@ == level,
        parents_unique(old(nodes)@),
        forall|m: int| 0 <= m < old(nodes)@.len() ==> (#[trigger] old(nodes)@[m]).depth@ <= depth,
        forall|m: int| 1 <= m < old(nodes)@.len() ==> 1 <= (#[trigger] old(nodes)@[m]).depth@,
        forall|m: int| 1 <= m < old(nodes)@.len() ==> #[trigger] has_parent(old(nodes)@, m),
        forall|m: int|
            1 <= m < old(nodes)@.len() && m != i && (#[trigger] old(nodes)@[m]).depth@ < depth
                ==> first_child(old(nodes)@[m]) != 0,
        forall|m: int|
            1 <= m < old(nodes)@.len() ==> registered(
                old(levels)@,
                (#[trigger] old(nodes)@[m]).depth@ as int,
                m,
            ),
        forall|l: int, k: int|
            0 <= l < old(levels)@.len() && 0 <= k < old(levels)@[l].len()
                ==> old(nodes)@[#[trigger] old(levels)@[l]@[k] as int].depth@ == l + 1,
        forall|m: int|
            1 <= m < old(nodes)@.len() && m != i && (#[trigger] old(nodes)@[m]).depth@ == depth
                ==> old(nodes)@[m].pixel_count > 0,
        sum_counts(old(nodes)@) < PIXEL_CAP,
        i < old(nodes)@.len(),
        level <= depth <= 10,
        old(levels)@.len() == depth + 1,
        forall|l: int, k: int|
            0 <= l < old(levels)@.len() && 0 <= k < old(levels)@[l].len() ==> 0
                < #[trigger] old(levels)@[l]@[k] < old(nodes)@.len(),
    ensures
        arena_wf(final(nodes)@),
        slots_distinct(final(nodes)@),
        colors_ok(final(nodes)@),
        depths_ok(final(nodes)@, depth as int),
        leaves_childless(final(nodes)@),
        forall|m: int|
            0 <= m < final(nodes)@.len() && (#[trigger] final(nodes)@[m]).pixel_count > 0
                ==> final(nodes)@[m].depth@ == depth,
        parents_unique(final(nodes)@),
        forall|m: int|
            0 <= m < final(nodes)@.len() ==> (#[trigger] final(nodes)@[m]).depth@ <= depth,
        forall|m: int| 1 <= m < final(nodes)@.len() ==> 1 <= (#[trigger] final(nodes)@[m]).depth@,
        forall|m: int| 1 <= m < final(nodes)@.len() ==> #[trigger] has_parent(final(nodes)@, m),
        forall|m: int|
            1 <= m < final(nodes)@.len() && (#[trigger] final(nodes)@[m]).depth@ < depth
                ==> first_child(final(nodes)@[m]) != 0,
        forall|m: int|
            1 <= m < final(nodes)@.len() ==> registered(
                final(levels)@,
                (#[trigger] final(nodes)@[m]).depth@ as int,
                m,
            ),
        forall|l: int, k: int|
            0 <= l < final(levels)@.len() && 0 <= k < final(levels)@[l].len()
                ==> final(nodes)@[#[trigger] final(levels)@[l]@[k] as int].depth@ == l + 1,
        forall|m: int|
            1 <= m < final(nodes)@.len() && (#[trigger] final(nodes)@[m]).depth@ == depth
                ==> final(nodes)@[m].pixel_count > 0,
        forall|l: int|
            0 <= l < old(levels)@.len() ==> (#[trigger] old(levels)@[l]@).is_prefix_of(
                final(levels)@[l]@,
            ),
        forall|m: int| 0 <= m < old(nodes)@.len() ==> (#[trigger] final(nodes)@[m]).depth@ == old(
            nodes,
        )@[m].depth@,
        level < depth ==> final(nodes)@[i as int].children@[spec_color_index(color, level as int)]
            != 0,
        sum_counts(final(nodes)@) == sum_counts(old(nodes)@) + 1,
        insert_delta(old(nodes)@, final(nodes)@, color, i as int, level as int, depth as int),
        final(nodes)@.len() >= old(nodes)@.len(),
        final(levels)@.len() == old(levels)@.len(),
        forall|l: int, k: int|
            0 <= l < final(levels)@.len() && 0 <= k < final(levels)@[l].len() ==> 0
                < #[trigger] final(levels)@[l]@[k] < final(nodes)@.len(),
        forall|m: int, jj: int|
            0 <= m < old(nodes)@.len() && 0 <= jj < 8 && #[trigger] old(nodes)@[m].children@[jj]
                != 0 ==> final(nodes)@[m].children@[jj] == old(nodes)@[m].children@[jj],
        level >= depth ==> final(nodes)@[i as int].spec_is_leaf(),
        level < depth ==> spec_leaves(final(nodes)@, i as int).len() >= 1,
    decreases depth - level,
{
    if level >= depth {
        let ghost pre = nodes@;
        let mut n = nodes[i];
        proof {
            lemma_sum_counts_element(pre, i as int);
            lemma_sum_counts_nonneg(pre);
        }
        n.color.accumulate(color);
        n.pixel_count = n.pixel_count + 1;
        nodes.set(i, n);
        proof {
            lemma_sum_counts_update(pre, i as int, n);
            assert(insert_delta(pre, nodes@, color, i as int, level as int, depth as int)) by {
                reveal(insert_delta);
                assert(spec_walk(nodes@, color, i as int, level as int, depth - level) == i);
            }
            assert forall|m: int| 1 <= m < nodes@.len() implies #[trigger] has_parent(
                nodes@,
                m,
            ) by {
                assert(has_parent(pre, m));
                let (p, j): (int, int) = choose|p: int, j: int|
                    0 <= p < pre.len() && 0 <= j < 8 && (#[trigger] pre[p].children@[j]) == m && m
                        != 0;
                assert(nodes@[p].children@[j] == m);
            }
            assert forall|l: int| 0 <= l < levels@.len() implies (
            #[trigger] levels@[l]@).is_prefix_of(levels@[l]@) by {
                assert(levels@[l]@ =~= levels@[l]@.subrange(0, levels@[l]@.len() as int));
            }
        }
        return ;
    }
    let index = get_color_index(color, level);
    let child = nodes[i].children[index];
    if child == 0 {
        let ghost pre = nodes@;
        let ghost prelv = old(levels)@;
        let fresh = nodes.len();
        create_child(nodes, levels, i, index, level, depth);
        let ghost mid = nodes@;
        let ghost midlv = levels@;
        let next = nodes[i].children[index];
        add_color_at(nodes, levels, next, color, level + 1, depth);
        proof {
            assert forall|m: int, jj: int|
                0 <= m < pre.len() && 0 <= jj < 8 && #[trigger] pre[m].children@[jj] != 0 implies
                nodes@[m].children@[jj] == pre[m].children@[jj] by {
                assert(mid[m].children@[jj] == pre[m].children@[jj]);
            }
            lemma_leaves_nonempty(nodes@, i as int, index as int);
            assert forall|m: int|
                0 <= m < pre.len() implies (#[trigger] mid[m]).pixel_count == pre[m].pixel_count
                && mid[m].color == pre[m].color && mid[m].palette_index == pre[m].palette_index
                && mid[m].depth@ == pre[m].depth@ by {
                if m != i {
                    assert(mid[m] == pre[m]);
                }
            }
            assert forall|m: int|
                0 <= m < pre.len() && m != i implies (#[trigger] mid[m]).children@
                == pre[m].children@ by {
                assert(mid[m] == pre[m]);
            }
            lemma_insert_delta_descend(
                pre,
                mid,
                nodes@,
                color,
                i as int,
                next as int,
                level as int,
                depth as int,
            );
            assert forall|l: int| 0 <= l < prelv.len() implies (
            #[trigger] prelv[l]@).is_prefix_of(final(levels)@[l]@) by {
                assert(midlv[l]@.is_prefix_of(final(levels)@[l]@));
                assert forall|k: int|
                    0 <= k < prelv[l]@.len() implies prelv[l]@[k] == final(levels)@[l]@[k] by {
                    assert(midlv[l]@[k] == final(levels)@[l]@[k]);
                }
                assert(prelv[l]@ =~= final(levels)@[l]@.subrange(0, prelv[l]@.len() as int));
            }
            assert(nodes@[i as int].children@[index as int] == fresh);
        }
    } else {
        proof {
            assert(first_child(nodes@[i as int]) != 0);
        }
        add_color_at(nodes, levels, child, color, level + 1, depth);
        proof {
            assert(nodes@[i as int].children@[index as int] == child);
            lemma_leaves_nonempty(nodes@, i as int, index as int);
            lemma_insert_delta_descend(
                old(nodes)@,
                old(nodes)@,
                nodes@,
                color,
                i as int,
                child as int,
                level as int,
                depth as int,
            );
        }
    }
}

} // verus!
