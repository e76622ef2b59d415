//! A small companion octree over string contents, branched by the same
//! 3-bit color codes as the quantization tree: each inserted color carves a
//! path of nodes, and a traversal concatenates every node's content in
//! depth-first order.

use vstd::prelude::*;
use vstd::string::StringExecFns;

use crate::color::IRgb;
use crate::octree::get_color_index;
use crate::octree::spec_color_index;

verus! {

broadcast use vstd::std_specs::vec::axiom_vec_index_decreases, vstd::std_specs::vec::axiom_vec_decreases_to_view, vstd::seq::axiom_seq_index_decreases;

/// A node: its content and up to 8 children addressed by branch code.
pub struct MortonOctreeNode {
    pub content: String,
    pub children: Vec<Option<Box<MortonOctreeNode>>>,
}

/// The tree: a root node and the maximum depth insertions descend to.
pub struct MortonOctree {
    depth: usize,
    root: MortonOctreeNode,
}

impl MortonOctreeNode {
    /// Every node carries exactly 8 child slots.
    pub open spec fn wf(self) -> bool
        decreases self,
    {
        &&& self.children@.len() == 8
        &&& forall|j: int|
            0 <= j < 8 ==> match #[trigger] self.children@[j] {
                Some(c) => c.wf(),
                None => true,
            }
    }

    /// The concatenated contents of the subtree below this node, depth-first,
    /// each child's content before its own subtree. The node's own content is
    /// not included, matching how traversal starts at the root.
    pub open spec fn spec_traverse(self) -> Seq<char>
        decreases self, 9int,
    {
        self.spec_traverse_from(0)
    }

    /// The contents contributed by child slots `j` through `7`.
    pub open spec fn spec_traverse_from(self, j: int) -> Seq<char>
        decreases self, 8 - j,
        when 0 <= j <= 8 && self.children@.len() == 8
    {
        if j >= 8 {
            Seq::empty()
        } else {
            (match self.children@[j] {
                Some(c) => c.content@ + c.spec_traverse(),
                None => Seq::empty(),
            }) + self.spec_traverse_from(j + 1)
        }
    }

    /// A node with the given content and no children.
    pub fn new(content: String) -> (n: MortonOctreeNode)
        ensures
            n.wf(),
            n.content@ == content@,
            forall|j: int| 0 <= j < 8 ==> #[trigger] n.children@[j] is None,
    {
        let mut children: Vec<Option<Box<MortonOctreeNode>>> = Vec::new();
        let mut j: usize = 0;
        while j < 8
            invariant
                children@.len() == j,
                j <= 8,
                forall|m: int| 0 <= m < j ==> #[trigger] children@[m] is None,
            decreases 8 - j,
        {
            children.push(None);
            j = j + 1;
        }
        MortonOctreeNode { content, children }
    }

    /// Appends the contents below this node to `out`, depth-first.
    pub fn traverse(&self, out: &mut String)
        requires
            self.wf(),
        ensures
            final(out)@ == old(out)@ + self.spec_traverse(),
        decreases *self,
    {
        let ghost entry = out@;
        let mut j: usize = 0;
        while j < 8
            invariant
                self.wf(),
                j <= 8,
                entry + self.spec_traverse() =~= out@ + self.spec_traverse_from(j as int),
            decreases 8 - j,
        {
            let ghost before = out@;
            match &self.children[j] {
                Some(child) => {
                    out.append(child.content.as_str());
                    child.traverse(out);
                    proof {
                        assert(before + self.spec_traverse_from(j as int) =~= out@
                            + self.spec_traverse_from(j as int + 1));
                    }
                },
                None => {},
            }
            j = j + 1;
        }
        proof {
            assert(self.spec_traverse_from(8) =~= Seq::<char>::empty());
            assert(out@ + self.spec_traverse_from(8) =~= out@);
            assert(final(out)@ =~= entry + self.spec_traverse());
        }
    }

    /// Descends along `color`'s branch codes down to `depth`, creating a node
    /// with placeholder content at every empty slot on the way.
    pub fn add_node(&mut self, color: IRgb, level: usize, depth: usize)
        requires
            old(self).wf(),
            level <= depth <= 10,
        ensures
            final(self).wf(),
            final(self).content@ == old(self).content@,
            level >= depth ==> *final(self) == *old(self),
            level < depth ==> {
                &&& forall|j: int|
                    0 <= j < 8 && j != spec_color_index(color, level as int)
                        ==> final(self).children@[j] == old(self).children@[j]
                &&& final(self).children@[spec_color_index(color, level as int)] is Some
            },
        decreases depth - level,
    {
        if level >= depth {
            return ;
        }
        let index = get_color_index(color, level);
        let slot = self.children.remove(index);
        let mut node: Box<MortonOctreeNode> = match slot {
            Some(node) => node,
            None => Box::new(MortonOctreeNode::new(String::from_str("test"))),
        };
        node.add_node(color, level + 1, depth);
        self.children.insert(index, Some(node));
        proof {
            assert forall|j: int| 0 <= j < 8 && j != spec_color_index(color, level as int) implies
                final(self).children@[j] == old(self).children@[j] by {
            }
        }
    }
}

impl MortonOctree {
    /// The configured maximum depth.
    pub closed spec fn spec_depth(self) -> int {
        self.depth as int
    }

    /// The root node.
    pub closed spec fn spec_root(self) -> MortonOctreeNode {
        self.root
    }

    /// The tree's invariant.
    pub open spec fn wf(self) -> bool {
        &&& self.spec_root().wf()
        &&& self.spec_depth() <= 10
    }

    /// An empty tree of the given maximum depth.
    pub fn new(depth: usize) -> (t: MortonOctree)
        requires
            depth <= 10,
        ensures
            t.wf(),
            t.spec_depth() == depth,
            t.spec_root().spec_traverse() == Seq::<char>::empty(),
    {
        let root = MortonOctreeNode::new(String::from_str("Comfy"));
        proof {
            assert(root.spec_traverse_from(8) =~= Seq::<char>::empty());
            assert(root.spec_traverse_from(7) =~= Seq::<char>::empty());
            assert(root.spec_traverse_from(6) =~= Seq::<char>::empty());
            assert(root.spec_traverse_from(5) =~= Seq::<char>::empty());
            assert(root.spec_traverse_from(4) =~= Seq::<char>::empty());
            assert(root.spec_traverse_from(3) =~= Seq::<char>::empty());
            assert(root.spec_traverse_from(2) =~= Seq::<char>::empty());
            assert(root.spec_traverse_from(1) =~= Seq::<char>::empty());
            assert(root.spec_traverse_from(0) =~= Seq::<char>::empty());
        }
        MortonOctree { depth, root }
    }

    /// Inserts one color's path of nodes.
    pub fn add_color(&mut self, color: IRgb)
        requires
            old(self).wf(),
        ensures
            final(self).wf(),
            final(self).spec_depth() == old(self).spec_depth(),
    {
        let depth = self.depth;
        self.root.add_node(color, 0, depth);
    }

    /// The concatenated contents of the whole tree, depth-first.
    pub fn traverse(&self) -> (s: String)
        requires
            self.wf(),
        ensures
            s@ == self.spec_root().spec_traverse(),
    {
        let mut s = String::new();
        self.root.traverse(&mut s);
        s
    }
}

} // verus!
