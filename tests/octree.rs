use std::mem::size_of;

use voxel_engine::morton::morton_encode_magicbits;
use voxel_engine::octree::{Node, Octree};

#[test]
fn node_children() {
    let mut n = Node::new();
    let p = Node::new();
    n.set_child(5, p);
    let q = Node::new();
    n.set_child(1, q);

    let node_index = n.get_node_index(5);
    assert_eq!(node_index, 1);
    let node_index = n.get_node_index(1);
    assert_eq!(node_index, 0);
    let node_index = n.get_node_index(5000);
    assert_eq!(node_index, 2);

    assert_eq!(n.get_child(5).is_none(), false);
    assert_eq!(n.get_child(1).is_none(), false);
    assert_eq!(n.get_child(5000).is_none(), true);
}

#[test]
fn node_child_positions_follow_octants() {
    let mut n = Node::new();
    n.set_child(5, Node::new());
    n.set_child(1, Node::new());
    assert_eq!(n.bitmask, 0b0010_0010);
    assert_eq!(n.children.len(), 2);
    for k in 6..8 {
        assert_eq!(n.get_node_index(k), 2);
    }
    assert!(n.get_child(0).is_none());
    assert!(n.get_child(3).is_none());
    assert!(n.get_child(7).is_none());
    let child = n.get_child_mut(5).unwrap();
    child.set_child(0, Node::new());
    assert_eq!(n.get_child(5).unwrap().bitmask, 1);
    assert_eq!(n.get_child(1).unwrap().bitmask, 0);
}

#[derive(Clone, Debug, Default)]
struct TestVoxel {
    position: (u32, u32, u32),
    enabled: bool,
}

#[test]
fn test_morton_ordering() {
    let n = 50;
    let r = 16;
    let s = n * n * n;

    let mut v = vec![TestVoxel::default(); s];
    let mut morton_v = vec![0u64; s];
    for x in 0..n {
        for y in 0..n {
            for z in 0..n {
                let b = x * x + y * y + z * z < r * r;
                let i = (x * (n * n)) + (y * n) + z;
                v[i] = TestVoxel {
                    position: (x as u32, y as u32, z as u32),
                    enabled: b,
                };
                morton_v[i] = morton_encode_magicbits(x as u32, y as u32, z as u32);
            }
        }
    }

    let mut a: Vec<(&TestVoxel, &u64)> = v.iter().zip(morton_v.iter()).collect();
    a.sort_by_key(|&(&_, &b)| b);

    let mut octree = Octree::new();
    for (voxel, _code) in a {
        let (x, y, z) = voxel.position;
        if voxel.enabled {
            octree.insert(x as usize, y as usize, z as usize);
            assert_eq!(octree.get(x as usize, y as usize, z as usize), true);
        }
    }

    println!("Depth of octree: {}", octree.depth);

    println!("Size of v:{}", size_of::<Vec<TestVoxel>>() + (size_of::<TestVoxel>() * s))
}

#[test]
fn fresh_octree_holds_nothing() {
    let t = Octree::new();
    assert_eq!(t.depth, 0);
    for x in 0..4 {
        for y in 0..4 {
            for z in 0..4 {
                assert!(!t.get(x, y, z));
            }
        }
    }
    assert!(!t.get(255, 255, 255));
}

#[test]
fn insert_then_get() {
    let mut t = Octree::new();
    assert!(!t.get(3, 200, 17));
    t.insert(3, 200, 17);
    assert!(t.get(3, 200, 17));
    assert_eq!(t.depth, 8);
    assert!(!t.get(3, 200, 16));
    assert!(!t.get(2, 200, 17));
    assert!(!t.get(3, 201, 17));
    assert!(!t.get(0, 0, 0));
}

#[test]
fn sibling_octants_do_not_alias() {
    let mut t = Octree::new();
    t.insert(1, 0, 0);
    assert!(t.get(1, 0, 0));
    assert!(!t.get(0, 0, 0));
    t.insert(0, 0, 0);
    assert!(t.get(0, 0, 0));
    assert!(!t.get(0, 1, 0));
}

#[test]
fn insert_is_idempotent() {
    let mut t = Octree::new();
    t.insert(10, 20, 30);
    let mask = t.root.bitmask;
    let kids = t.root.children.len();
    t.insert(10, 20, 30);
    assert_eq!(t.depth, 8);
    assert_eq!(t.root.bitmask, mask);
    assert_eq!(t.root.children.len(), kids);
    assert!(t.get(10, 20, 30));
}

#[test]
fn coordinates_out_of_range() {
    let mut t = Octree::new();
    t.insert(0, 0, 0);
    assert!(!t.get(256, 0, 0));
    assert!(!t.get(0, 256, 0));
    assert!(!t.get(0, 0, usize::MAX));
    t.insert(257, 1, 1);
    assert!(t.get(1, 1, 1));
    assert!(!t.get(257, 1, 1));
}

#[test]
fn diagonal_in_morton_order() {
    let mut cells: Vec<(u64, usize)> = (0..10usize)
        .map(|i| (morton_encode_magicbits(i as u32, i as u32, i as u32), i))
        .collect();
    cells.sort();
    let mut t = Octree::new();
    for (_, i) in cells {
        t.insert(i, i, i);
    }
    for i in 0..10 {
        assert!(t.get(i, i, i));
    }
    assert!(!t.get(0, 0, 1));
    assert!(!t.get(1, 2, 3));
    assert!(!t.get(10, 10, 10));
}
