//! A sparse voxel octree: each node keeps one bit per octant in a bitmask and
//! only the children that exist, densely packed in octant order.

use vstd::prelude::*;

verus! {

/// Levels of the tree; each consumes one bit of each coordinate, so the tree
/// addresses `256` cells per axis.
pub const MAX_DEPTH: u32 = 8;

/// Whether octant `i` is marked in `mask`.
pub open spec fn mask_bit(mask: u8, i: nat) -> bool {
    i < 8 && (mask >> (i as u8)) & 1u8 == 1u8
}

/// How many of the octants below `n` are marked in `mask`.
pub open spec fn count_below(mask: u8, n: nat) -> nat
    decreases n,
{
    if n == 0 {
        0
    } else {
        count_below(mask, (n - 1) as nat) + if mask_bit(mask, (n - 1) as nat) {
            1nat
        } else {
            0nat
        }
    }
}

/// How many octants `mask` marks.
pub open spec fn popcount(mask: u8) -> nat {
    count_below(mask, 8)
}

/// The octant that `(x, y, z)` falls in at `level`: bit `level` of `x`, `y`
/// and `z` as bits 0, 1 and 2.
pub open spec fn octant(x: usize, y: usize, z: usize, level: u32) -> usize {
    ((x >> level) & 1usize) | (((y >> level) & 1usize) << 1usize) | (((z >> level) & 1usize)
        << 2usize)
}

/// Whether `(a, b, c)` and `(x, y, z)` fall in the same octant at every level
/// from `level` down.
pub open spec fn same_path(a: usize, b: usize, c: usize, x: usize, y: usize, z: usize, level: u32) -> bool
    decreases 8 - level,
{
    if level >= 8 {
        true
    } else {
        octant(a, b, c, level) == octant(x, y, z, level) && same_path(
            a,
            b,
            c,
            x,
            y,
            z,
            (level + 1) as u32,
        )
    }
}

/// The shape of a subtree: each node's bitmask and its children's shapes, in
/// order.
pub struct Shape {
    pub bitmask: u8,
    pub children: Seq<Shape>,
}

/// A node of the tree: a bitmask of the octants that hold a child, and those
/// children in octant order.
#[derive(Debug)]
pub struct Node {
    pub bitmask: u8,
    pub children: Vec<Box<Node>>,
}

impl Node {
    /// One child is stored for each marked octant.
    pub open spec fn inv(&self) -> bool {
        self.children@.len() == popcount(self.bitmask)
    }

    /// The position in `children` of the child of octant `i`.
    pub open spec fn rank(&self, i: nat) -> nat {
        count_below(self.bitmask, i)
    }

    /// The child of octant `i`, where the bitmask marks it and it is stored.
    pub open spec fn child_at(&self, i: nat) -> Option<Node> {
        if mask_bit(self.bitmask, i) && self.rank(i) < self.children@.len() {
            Some(*self.children@[self.rank(i) as int])
        } else {
            None
        }
    }

    /// The subtree below a node at `level` is well formed: every node stores
    /// one child per marked octant, every child above the last level has at
    /// least one child of its own, and nodes at the last level have none.
    pub open spec fn wf_at(&self, level: u32) -> bool
        decreases 8 - level,
    {
        &&& self.inv()
        &&& if level >= 8 {
            self.bitmask == 0
        } else {
            forall|j: nat|
                #[trigger] self.child_at(j) is Some ==> {
                    let c = self.child_at(j).unwrap();
                    &&& c.wf_at((level + 1) as u32)
                    &&& level + 1 < 8 ==> c.bitmask != 0
                }
        }
    }

    /// Whether the walk from a node at `level` towards `(x, y, z)` finds the
    /// cell: it fails at a missing octant, and succeeds at the last level or at
    /// a child without children.
    pub open spec fn present(&self, x: usize, y: usize, z: usize, level: u32) -> bool
        decreases 8 - level,
    {
        if level >= 8 {
            true
        } else {
            match self.child_at(octant(x, y, z, level) as nat) {
                None => false,
                Some(c) => if c.children@.len() == 0 {
                    true
                } else {
                    c.present(x, y, z, (level + 1) as u32)
                },
            }
        }
    }

    /// The shape of the subtree below a node at `level`.
    pub open spec fn shape_at(&self, level: u32) -> Shape
        decreases 8 - level,
    {
        Shape {
            bitmask: self.bitmask,
            children: if level >= 8 {
                Seq::empty()
            } else {
                Seq::new(
                    self.children@.len(),
                    |i: int| (*self.children@[i]).shape_at((level + 1) as u32),
                )
            },
        }
    }

    /// A node without children.
    pub fn new() -> (r: Node)
        ensures
            r.bitmask == 0,
            r.children@.len() == 0,
            r.inv(),
    {
        proof {
            lemma_count_empty(8);
        }
        Node { bitmask: 0, children: Vec::new() }
    }

    /// The position in `children` of the child of octant `index`: the number
    /// of marked octants below it.
    pub fn get_node_index(&self, index: usize) -> (r: usize)
        ensures
            r == self.rank(index as nat),
            r <= 8,
    {
        let mut bitmask: u8 = self.bitmask;
        let mut node_index: u8 = 0;
        let mut i: usize = 0;
        proof {
            let m = self.bitmask;
            assert(m >> 0u8 == m) by (bit_vector);
        }
        while i < index
            invariant
                i <= index,
                bitmask == if i < 8 {
                    self.bitmask >> (i as u8)
                } else {
                    0u8
                },
                node_index == count_below(self.bitmask, i as nat),
                node_index <= i,
                node_index <= 8,
            decreases index - i,
        {
            proof {
                lemma_shift_step(self.bitmask, i, bitmask);
                lemma_count_le(self.bitmask, (i + 1) as nat);
            }
            node_index = node_index + (bitmask & 1);
            bitmask = bitmask >> 1;
            i = i + 1;
        }
        node_index as usize
    }

    /// The child of octant `index`, if the node holds one.
    pub fn get_child(&self, index: usize) -> (r: Option<&Node>)
        ensures
            r.is_some() == self.child_at(index as nat).is_some(),
            r.is_some() ==> *r.unwrap() == self.child_at(index as nat).unwrap(),
    {
        let node_index = self.get_node_index(index);
        if index < 8 && (self.bitmask >> (index as u8)) & 1 == 1 && node_index < self.children.len() {
            Some(&self.children[node_index])
        } else {
            None
        }
    }

    /// The child of octant `index`, if the node holds one, for changing.
    pub fn get_child_mut(&mut self, index: usize) -> (r: Option<&mut Node>)
        ensures
            r.is_some() == old(self).child_at(index as nat).is_some(),
            r.is_none() ==> *final(self) == *old(self),
            r.is_some() ==> {
                let k = old(self).rank(index as nat) as int;
                &&& *r.unwrap() == old(self).child_at(index as nat).unwrap()
                &&& final(self).bitmask == old(self).bitmask
                &&& final(self).children@.len() == old(self).children@.len()
                &&& *final(self).children@[k] == *final(r.unwrap())
                &&& forall|j: int|
                    0 <= j < old(self).children@.len() && j != k
                        ==> #[trigger] final(self).children@[j] == old(self).children@[j]
            },
    {
        let node_index = self.get_node_index(index);
        if index < 8 && (self.bitmask >> (index as u8)) & 1 == 1 && node_index < self.children.len() {
            Some(&mut *self.children[node_index])
        } else {
            None
        }
    }

    /// Stores `child` as the child of octant `index`, which held none.
    pub fn set_child(&mut self, index: usize, child: Node)
        requires
            old(self).inv(),
            index < 8,
            !mask_bit(old(self).bitmask, index as nat),
        ensures
            final(self).inv(),
            final(self).bitmask == old(self).bitmask | (1u8 << (index as u8)),
            final(self).child_at(index as nat) == Some(child),
            forall|j: nat| j != index ==> #[trigger] final(self).child_at(j) == old(self).child_at(j),
    {
        let ghost m = self.bitmask;
        let ghost old_children = self.children@;
        self.bitmask = self.bitmask | (1u8 << (index as u8));
        let node_index = self.get_node_index(index);
        proof {
            lemma_count_set(m, index as nat);
            assert(node_index == count_below(m, index as nat));
            lemma_count_le(m, index as nat);
            lemma_count_mono(m, index as nat, 8);
        }
        self.children.insert(node_index, Box::new(child));
        proof {
            let m2 = self.bitmask;
            let k = index as nat;
            assert forall|j: nat| j != index implies #[trigger] self.child_at(j) == old(self).child_at(j) by {
                if mask_bit(m, j) {
                    if j < k {
                        lemma_count_mono(m, j + 1, k);
                        lemma_count_mono(m, k, 8);
                    } else {
                        lemma_count_mono(m, k, j);
                        lemma_count_mono(m, j + 1, 8);
                    }
                }
            }
        }
    }

    /// Adds the path to `(x, y, z)` below a node at `level`, creating each
    /// missing child on the way.
    fn insert_path(&mut self, x: usize, y: usize, z: usize, level: u32)
        requires
            level < 8,
            old(self).wf_at(level),
        ensures
            final(self).wf_at(level),
            final(self).bitmask != 0,
            forall|a: usize, b: usize, c: usize| #[trigger]
                final(self).present(a, b, c, level) == (old(self).present(a, b, c, level)
                    || same_path(a, b, c, x, y, z, level)),
            old(self).present(x, y, z, level) ==> final(self).shape_at(level) == old(self).shape_at(
                level,
            ),
        decreases 8 - level,
    {
        let index: usize = ((x >> level) & 1) | ((y >> level) & 1) << 1 | ((z >> level) & 1) << 2;
        proof {
            lemma_octant_range(x, y, z, level);
        }
        let ghost start = *self;
        let ghost created = start.child_at(index as nat) is None;
        if self.get_child(index).is_none() {
            proof {
                if mask_bit(start.bitmask, index as nat) {
                    lemma_child_some(start, index as nat);
                }
            }
            self.set_child(index, Node::new());
        }
        let ghost mid = *self;
        proof {
            if created {
                lemma_fresh_wf(mid.child_at(index as nat).unwrap(), (level + 1) as u32);
            }
            assert(mid.child_at(index as nat) is Some);
            assert(mask_bit(mid.bitmask, index as nat));
        }
        let ghost cmid = mid.child_at(index as nat).unwrap();
        let child = self.get_child_mut(index);
        match child {
            Some(c) => {
                if level + 1 < MAX_DEPTH {
                    c.insert_path(x, y, z, level + 1);
                }
            },
            None => {},
        }
        proof {
            let new = *self;
            let k = mid.rank(index as nat) as int;
            let cfin = *new.children@[k];
            lemma_child_at_update(mid, new, index as nat);
            assert forall|j: nat| j != index implies #[trigger] new.child_at(j) == start.child_at(j) by {
                assert(new.child_at(j) == mid.child_at(j));
            }
            assert(new.child_at(index as nat) == Some(cfin));
            if !created {
                assert(mid == start);
                assert(start.child_at(index as nat) == Some(cmid));
                assert(cmid.wf_at((level + 1) as u32));
                assert(level + 1 < 8 ==> cmid.bitmask != 0);
            }
            if level + 1 < 8 {
                lemma_nonempty(cfin.bitmask);
                if !created {
                    lemma_nonempty(cmid.bitmask);
                } else {
                    lemma_fresh_absent(cmid, x, y, z, (level + 1) as u32);
                }
            } else {
                assert(cfin == cmid);
                lemma_count_empty(8);
            }
            lemma_mask_nonzero(new.bitmask, index as nat);
            assert forall|a: usize, b: usize, c: usize| #[trigger]
                new.present(a, b, c, level) == (start.present(a, b, c, level)
                    || same_path(a, b, c, x, y, z, level)) by {
                let o = octant(a, b, c, level);
                if o != index {
                    assert(new.child_at(o as nat) == start.child_at(o as nat));
                } else if level + 1 < 8 {
                    let l1 = (level + 1) as u32;
                    assert(cfin.children@.len() > 0);
                    assert(cfin.present(a, b, c, l1) == (cmid.present(a, b, c, l1) || same_path(
                        a,
                        b,
                        c,
                        x,
                        y,
                        z,
                        l1,
                    )));
                    if !created {
                        assert(cmid.children@.len() > 0);
                    }
                } else {
                    assert(same_path(a, b, c, x, y, z, (level + 1) as u32));
                    assert(cfin.children@.len() == 0);
                }
            }
            assert forall|j: nat| #[trigger] new.child_at(j) is Some implies {
                let ch = new.child_at(j).unwrap();
                &&& ch.wf_at((level + 1) as u32)
                &&& level + 1 < 8 ==> ch.bitmask != 0
            } by {
                if j != index {
                    assert(new.child_at(j) == start.child_at(j));
                }
            }
            assert(index == octant(x, y, z, level));
            if start.present(x, y, z, level) {
                assert(!created);
                if level + 1 < 8 {
                    assert(cmid.present(x, y, z, (level + 1) as u32));
                }
                assert(new.shape_at(level).children =~= start.shape_at(level).children);
            }
        }
    }
}

/// A sparse voxel octree over the cells `0..256` of each axis.
#[derive(Debug)]
pub struct Octree {
    pub root: Node,
    /// The deepest level that an insertion has reached.
    pub depth: u32,
}

impl View for Octree {
    type V = Set<(usize, usize, usize)>;

    /// The cells that the tree holds.
    open spec fn view(&self) -> Set<(usize, usize, usize)> {
        Set::new(
            |p: (usize, usize, usize)|
                p.0 < 256 && p.1 < 256 && p.2 < 256 && self.root.present(p.0, p.1, p.2, 0),
        )
    }
}

/// The cell that an insertion of `(x, y, z)` adds: the low 8 bits of each
/// coordinate, one per level.
pub open spec fn cell_of(x: usize, y: usize, z: usize) -> (usize, usize, usize) {
    (x & 255usize, y & 255usize, z & 255usize)
}

impl Octree {
    /// The tree is well formed from its root down.
    pub open spec fn wf(&self) -> bool {
        self.root.wf_at(0)
    }

    /// What an insertion of `(x, y, z)` into `before` gives: a well-formed tree
    /// that holds the cells of `before` and the cell of `(x, y, z)`, the depth
    /// raised to the last level, and, where the cell was held already, the
    /// same shape.
    pub open spec fn inserted(before: Octree, after: Octree, x: usize, y: usize, z: usize) -> bool {
        &&& after.wf()
        &&& after@ == before@.insert(cell_of(x, y, z))
        &&& after.depth == if before.depth < MAX_DEPTH {
            MAX_DEPTH
        } else {
            before.depth
        }
        &&& before@.contains(cell_of(x, y, z)) ==> after.root.shape_at(0) == before.root.shape_at(0)
    }

    /// An empty tree.
    pub fn new() -> (r: Octree)
        ensures
            r.wf(),
            r@ == Set::<(usize, usize, usize)>::empty(),
            r.depth == 0,
    {
        let r = Octree { root: Node::new(), depth: 0 };
        proof {
            lemma_fresh_wf(r.root, 0);
            assert forall|p: (usize, usize, usize)| !r@.contains(p) by {
                lemma_fresh_absent(r.root, p.0, p.1, p.2, 0);
            }
            assert(r@ =~= Set::<(usize, usize, usize)>::empty());
        }
        r
    }

    /// Whether the tree holds the cell `(x, y, z)`; false for any coordinate
    /// of 256 or more.
    pub fn get(&self, x: usize, y: usize, z: usize) -> (r: bool)
        ensures
            r == self@.contains((x, y, z)),
    {
        let upper_bound: usize = 1 << MAX_DEPTH;
        assert(upper_bound == 256) by (bit_vector)
            requires
                upper_bound == 1usize << 8u32,
        ;
        if x >= upper_bound || y >= upper_bound || z >= upper_bound {
            return false;
        }
        let mut current = &self.root;
        let mut level: u32 = 0;
        while level < MAX_DEPTH
            invariant
                level <= 8,
                x < 256 && y < 256 && z < 256,
                self.root.present(x, y, z, 0) == current.present(x, y, z, level),
            decreases 8 - level,
        {
            let index: usize = ((x >> level) & 1) | ((y >> level) & 1) << 1 | ((z >> level) & 1) << 2;
            assert(index == octant(x, y, z, level));
            match current.get_child(index) {
                None => {
                    return false;
                },
                Some(child) => {
                    if child.children.len() == 0 {
                        return true;
                    }
                    current = child;
                },
            }
            level = level + 1;
        }
        true
    }

    /// Adds the cell of `(x, y, z)`, creating the missing nodes on its path;
    /// inserting a cell that the tree holds changes nothing.
    pub fn insert(&mut self, x: usize, y: usize, z: usize)
        requires
            old(self).wf(),
        ensures
            Octree::inserted(*old(self), *final(self), x, y, z),
    {
        self.root.insert_path(x, y, z, 0);
        if self.depth < MAX_DEPTH {
            self.depth = MAX_DEPTH;
        }
        proof {
            let (a, b, c) = cell_of(x, y, z);
            lemma_cell_range(x, y, z);
            assert forall|p: (usize, usize, usize)|
                p.0 < 256 && p.1 < 256 && p.2 < 256 implies same_path(p.0, p.1, p.2, x, y, z, 0) == (p
                == cell_of(x, y, z)) by {
                lemma_same_path_cell(p.0, p.1, p.2, x, y, z);
            }
            assert(self@ =~= old(self)@.insert(cell_of(x, y, z)));
            if old(self)@.contains(cell_of(x, y, z)) {
                lemma_same_path_cell(a, b, c, x, y, z);
                assert(old(self).root.present(x, y, z, 0) == old(self).root.present(a, b, c, 0)) by {
                    lemma_present_same_path(old(self).root, a, b, c, x, y, z, 0);
                }
            }
        }
    }
}

/// An insertion adds exactly its own cell: afterwards the tree holds
/// `(x, y, z)`, and any other cell is held just as it was before, so a cell
/// stays absent until it is inserted.
pub proof fn lemma_insert_then_get(before: Octree, after: Octree, x: usize, y: usize, z: usize)
    requires
        Octree::inserted(before, after, x, y, z),
        x < 256,
        y < 256,
        z < 256,
    ensures
        after@.contains((x, y, z)),
        forall|p: (usize, usize, usize)| p != (x, y, z) ==> after@.contains(p) == before@.contains(p),
{
    assert(x & 255usize == x && y & 255usize == y && z & 255usize == z) by (bit_vector)
        requires
            x < 256,
            y < 256,
            z < 256,
    ;
    assert(cell_of(x, y, z) == (x, y, z));
}

/// Inserting the same coordinate twice: the second insertion leaves the
/// cells, the shape of the tree and its depth as the first left them.
pub proof fn lemma_insert_idempotent(
    t0: Octree,
    t1: Octree,
    t2: Octree,
    x: usize,
    y: usize,
    z: usize,
)
    requires
        Octree::inserted(t0, t1, x, y, z),
        Octree::inserted(t1, t2, x, y, z),
    ensures
        t2@ == t1@,
        t2.root.shape_at(0) == t1.root.shape_at(0),
        t2.depth == t1.depth,
{
    assert(t1@.contains(cell_of(x, y, z)));
    assert(t2@ =~= t1@);
}

/// The positions of the children of a node whose children sit at octants 1
/// and 5: octant 1 comes first, octant 5 second, and any octant past 5 would
/// come after both.
pub proof fn lemma_two_children_ranks(k: nat)
    requires
        k > 5,
    ensures
        count_below((1u8 << 5u8) | (1u8 << 1u8), 1) == 0,
        count_below((1u8 << 5u8) | (1u8 << 1u8), 5) == 1,
        count_below((1u8 << 5u8) | (1u8 << 1u8), k) == 2,
{
    let m = (1u8 << 5u8) | (1u8 << 1u8);
    assert(m == 34u8) by (bit_vector)
        requires
            m == (1u8 << 5u8) | (1u8 << 1u8),
    ;
    assert(!((m >> 0u8) & 1u8 == 1u8) && ((m >> 1u8) & 1u8 == 1u8) && !((m >> 2u8) & 1u8 == 1u8)
        && !((m >> 3u8) & 1u8 == 1u8) && !((m >> 4u8) & 1u8 == 1u8) && ((m >> 5u8) & 1u8 == 1u8)
        && !((m >> 6u8) & 1u8 == 1u8) && !((m >> 7u8) & 1u8 == 1u8)) by (bit_vector)
        requires
            m == 34u8,
    ;
    reveal_with_fuel(count_below, 9);
    assert(count_below(m, 8) == 2);
    if k == 6 {
        assert(count_below(m, 6) == 2);
    } else if k == 7 {
        assert(count_below(m, 7) == 2);
    } else {
        lemma_count_past_last(m, k);
    }
}

/// No octant at or past 8 is marked, so counts stop growing there.
proof fn lemma_count_past_last(m: u8, k: nat)
    requires
        k >= 8,
    ensures
        count_below(m, k) == count_below(m, 8),
    decreases k,
{
    if k > 8 {
        lemma_count_past_last(m, (k - 1) as nat);
    }
}

/// The cell of a coordinate lies in range.
proof fn lemma_cell_range(x: usize, y: usize, z: usize)
    ensures
        cell_of(x, y, z).0 < 256,
        cell_of(x, y, z).1 < 256,
        cell_of(x, y, z).2 < 256,
{
    assert(x & 255usize < 256 && y & 255usize < 256 && z & 255usize < 256) by (bit_vector);
}

/// For a cell in range, sharing the path of `(x, y, z)` at every level means
/// being the cell of `(x, y, z)`.
proof fn lemma_same_path_cell(a: usize, b: usize, c: usize, x: usize, y: usize, z: usize)
    requires
        a < 256,
        b < 256,
        c < 256,
    ensures
        same_path(a, b, c, x, y, z, 0) == ((a, b, c) == cell_of(x, y, z)),
{
    reveal_with_fuel(same_path, 9);
    assert((octant(a, b, c, 0) == octant(x, y, z, 0) && octant(a, b, c, 1) == octant(x, y, z, 1)
        && octant(a, b, c, 2) == octant(x, y, z, 2) && octant(a, b, c, 3) == octant(x, y, z, 3)
        && octant(a, b, c, 4) == octant(x, y, z, 4) && octant(a, b, c, 5) == octant(x, y, z, 5)
        && octant(a, b, c, 6) == octant(x, y, z, 6) && octant(a, b, c, 7) == octant(x, y, z, 7))
        == (a == x & 255usize && b == y & 255usize && c == z & 255usize)) by (bit_vector)
        requires
            a < 256,
            b < 256,
            c < 256,
    ;
}

/// Two coordinates on the same path are found or missed together.
proof fn lemma_present_same_path(
    n: Node,
    a: usize,
    b: usize,
    c: usize,
    x: usize,
    y: usize,
    z: usize,
    level: u32,
)
    requires
        same_path(a, b, c, x, y, z, level),
    ensures
        n.present(a, b, c, level) == n.present(x, y, z, level),
    decreases 8 - level,
{
    if level < 8 {
        match n.child_at(octant(x, y, z, level) as nat) {
            None => {},
            Some(ch) => {
                lemma_present_same_path(ch, a, b, c, x, y, z, (level + 1) as u32);
            },
        }
    }
}

/// Where `mask` marks octant `i`, it is not zero.
proof fn lemma_mask_nonzero(mask: u8, i: nat)
    requires
        mask_bit(mask, i),
    ensures
        mask != 0,
{
    let k = i as u8;
    assert((mask >> k) & 1u8 == 1u8 ==> mask != 0) by (bit_vector);
}

/// A nonzero mask marks at least one octant.
proof fn lemma_nonempty(mask: u8)
    ensures
        mask != 0 ==> popcount(mask) > 0,
{
    reveal_with_fuel(count_below, 9);
    if popcount(mask) == 0 {
        assert(!mask_bit(mask, 0) && !mask_bit(mask, 1) && !mask_bit(mask, 2) && !mask_bit(mask, 3)
            && !mask_bit(mask, 4) && !mask_bit(mask, 5) && !mask_bit(mask, 6) && !mask_bit(mask, 7));
        assert(!((mask >> 0u8) & 1u8 == 1u8) && !((mask >> 1u8) & 1u8 == 1u8) && !((mask >> 2u8) & 1u8
            == 1u8) && !((mask >> 3u8) & 1u8 == 1u8) && !((mask >> 4u8) & 1u8 == 1u8) && !((mask
            >> 5u8) & 1u8 == 1u8) && !((mask >> 6u8) & 1u8 == 1u8) && !((mask >> 7u8) & 1u8 == 1u8)
            ==> mask == 0) by (bit_vector);
    }
}

/// The octant index has three bits.
proof fn lemma_octant_range(x: usize, y: usize, z: usize, level: u32)
    ensures
        octant(x, y, z, level) < 8,
{
    assert(((x >> level) & 1usize) | (((y >> level) & 1usize) << 1usize) | (((z >> level) & 1usize)
        << 2usize) < 8) by (bit_vector);
}

/// A marked octant of a node that stores one child per mark has its child.
proof fn lemma_child_some(n: Node, i: nat)
    requires
        n.inv(),
        mask_bit(n.bitmask, i),
    ensures
        n.child_at(i) is Some,
{
    lemma_rank_lt(n.bitmask, i, 8);
}

/// Marked octants below `j` all count towards `j`'s position.
proof fn lemma_rank_lt(m: u8, i: nat, j: nat)
    requires
        mask_bit(m, i),
        i < j,
    ensures
        count_below(m, i) < count_below(m, j),
{
    assert(count_below(m, i + 1) == count_below(m, i) + 1);
    lemma_count_mono(m, i + 1, j);
}

/// Octant `i` of a node without marks holds no child.
proof fn lemma_mask_zero(i: nat)
    ensures
        !mask_bit(0u8, i),
{
    if i < 8 {
        let k = i as u8;
        assert((0u8 >> k) & 1u8 == 0u8) by (bit_vector);
    }
}

/// A node without children is well formed at any level.
proof fn lemma_fresh_wf(n: Node, level: u32)
    requires
        n.bitmask == 0,
        n.children@.len() == 0,
    ensures
        n.wf_at(level),
{
    lemma_count_empty(8);
    assert forall|j: nat| !(#[trigger] n.child_at(j) is Some) by {
        lemma_mask_zero(j);
    }
}

/// A node without children holds no cell.
proof fn lemma_fresh_absent(n: Node, x: usize, y: usize, z: usize, level: u32)
    requires
        n.bitmask == 0,
        level < 8,
    ensures
        !n.present(x, y, z, level),
{
    lemma_mask_zero(octant(x, y, z, level) as nat);
}

/// The children of a node after one of its stored children was replaced in
/// place.
proof fn lemma_child_at_update(before: Node, after: Node, i: nat)
    requires
        before.inv(),
        before.child_at(i) is Some,
        after.bitmask == before.bitmask,
        after.children@.len() == before.children@.len(),
        forall|j: int|
            0 <= j < before.children@.len() && j != before.rank(i) ==> #[trigger] after.children@[j]
                == before.children@[j],
    ensures
        after.inv(),
        after.child_at(i) == Some(*after.children@[before.rank(i) as int]),
        forall|j: nat| j != i ==> #[trigger] after.child_at(j) == before.child_at(j),
{
    let m = before.bitmask;
    assert forall|j: nat| j != i implies #[trigger] after.child_at(j) == before.child_at(j) by {
        if mask_bit(m, j) {
            lemma_child_some(before, j);
            if j < i {
                lemma_rank_lt(m, j, i);
            } else {
                lemma_rank_lt(m, i, j);
            }
        }
    }
}

/// The counts of a mask with octant `k` newly marked.
proof fn lemma_count_set(m: u8, k: nat)
    requires
        k < 8,
        !mask_bit(m, k),
    ensures
        forall|i: nat| #[trigger] mask_bit(m | (1u8 << (k as u8)), i) == (mask_bit(m, i) || i == k),
        forall|n: nat| #[trigger] count_below(m | (1u8 << (k as u8)), n) == count_below(m, n) + if n > k {
            1nat
        } else {
            0nat
        },
{
    let m2 = m | (1u8 << (k as u8));
    assert forall|i: nat| #[trigger] mask_bit(m2, i) == (mask_bit(m, i) || i == k) by {
        if i < 8 {
            let a = i as u8;
            let b = k as u8;
            assert(((m2 >> a) & 1u8 == 1u8) == ((m >> a) & 1u8 == 1u8 || a == b)) by (bit_vector)
                requires
                    m2 == m | (1u8 << b),
                    a < 8,
                    b < 8,
            ;
        }
    }
    assert forall|n: nat| #[trigger] count_below(m2, n) == count_below(m, n) + if n > k {
        1nat
    } else {
        0nat
    } by {
        lemma_count_set_at(m, k, n);
    }
}

proof fn lemma_count_set_at(m: u8, k: nat, n: nat)
    requires
        k < 8,
        !mask_bit(m, k),
        forall|i: nat| #[trigger] mask_bit(m | (1u8 << (k as u8)), i) == (mask_bit(m, i) || i == k),
    ensures
        count_below(m | (1u8 << (k as u8)), n) == count_below(m, n) + if n > k {
            1nat
        } else {
            0nat
        },
    decreases n,
{
    if n > 0 {
        lemma_count_set_at(m, k, (n - 1) as nat);
    }
}

/// Counts grow with the bound.
proof fn lemma_count_mono(m: u8, a: nat, b: nat)
    requires
        a <= b,
    ensures
        count_below(m, a) <= count_below(m, b),
    decreases b,
{
    if a < b {
        lemma_count_mono(m, a, (b - 1) as nat);
    }
}

/// One step of walking down the bits of `mask`.
proof fn lemma_shift_step(mask: u8, i: usize, b: u8)
    requires
        b == if i < 8 {
            mask >> (i as u8)
        } else {
            0u8
        },
    ensures
        (b & 1u8) == (if mask_bit(mask, i as nat) { 1u8 } else { 0u8 }),
        (b >> 1u8) == if i + 1 < 8 {
            mask >> ((i + 1) as u8)
        } else {
            0u8
        },
{
    if i < 8 {
        let k = i as u8;
        assert(k < 8);
        assert((b & 1u8) == (if k < 8 && (mask >> k) & 1u8 == 1u8 { 1u8 } else { 0u8 })
            && (b >> 1u8) == if k + 1 < 8 { mask >> ((k + 1) as u8) } else { 0u8 }) by (bit_vector)
            requires
                k < 8,
                b == mask >> k,
        ;
    } else {
        assert((b & 1u8) == 0u8 && (b >> 1u8) == 0u8) by (bit_vector)
            requires
                b == 0u8,
        ;
    }
}

/// An empty mask counts nothing.
proof fn lemma_count_empty(n: nat)
    ensures
        count_below(0u8, n) == 0,
    decreases n,
{
    if n > 0 {
        lemma_count_empty((n - 1) as nat);
        if n - 1 < 8 {
            let k = (n - 1) as u8;
            assert((0u8 >> k) & 1u8 == 0u8) by (bit_vector);
        }
    }
}

/// At most one octant is counted per position, and at most eight in all.
proof fn lemma_count_le(mask: u8, n: nat)
    ensures
        count_below(mask, n) <= n,
        count_below(mask, n) <= 8,
    decreases n,
{
    if n > 0 {
        lemma_count_le(mask, (n - 1) as nat);
        if n > 8 {
            assert(!mask_bit(mask, (n - 1) as nat));
        }
    }
}

} // verus!
