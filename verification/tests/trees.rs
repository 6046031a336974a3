//! Tests for the tile containers, quadtrees and paths.

use fvq::quad::{Path, Quad, Tree, TreeTop};
use fvq::tile::Tile;
use fvq::Small;

/// All paths allowed by a size bound of 2: the root and its
/// immediate children.
fn short_paths() -> Vec<Path> {
    let mut paths = vec![Path::default()];
    for rb in [false, true] {
        for cb in [false, true] {
            let mut p = Path::default();
            p.push((rb, cb));
            paths.push(p);
        }
    }
    paths
}

#[test]
fn quad_round_trip() {
    for p in short_paths() {
        let l = p.len();
        assert!(l < 2);
        let mut smalls: Vec<Small> = Vec::new();
        let mut it = p.iter();
        while let Some(small) = it.next() {
            smalls.push(small);
        }
        assert_eq!(smalls.len(), l);
        let mut q = Path::default();
        while let Some(small) = smalls.pop() {
            q.push(small);
        }
        assert_eq!(p, q);
    }
}

#[test]
fn path_is_a_stack() {
    let mut p = Path::default();
    assert_eq!(p.pop(), None);
    p.push((false, true));
    p.push((true, false));
    assert_eq!(p.len(), 2);
    assert_eq!(p.pop(), Some((true, false)));
    assert_eq!(p.pop(), Some((false, true)));
    assert_eq!(p.pop(), None);
}

#[test]
fn tree_top_at() {
    // A root branch whose bottom-right child is itself a branch.
    let inner = Tree::branch(9u32, Quad::new(Tree::Leaf, Tree::Leaf, Tree::Leaf, Tree::Leaf));
    let tree = Tree::branch(7u32, Quad::new(Tree::Leaf, Tree::Leaf, Tree::Leaf, inner));
    let top: TreeTop<2, u32> = TreeTop { tree, v_flip: false, h_flip: false };
    assert_eq!(top.at(Path::default()), Some(&7));
    let mut to_inner = Path::default();
    to_inner.push((true, true));
    assert_eq!(top.at(to_inner), Some(&9));
    let mut to_leaf = Path::default();
    to_leaf.push((false, true));
    assert_eq!(top.at(to_leaf), None);
    // Reflecting the tree sends the bottom-right child elsewhere.
    let inner2 = Tree::branch(9u32, Quad::new(Tree::Leaf, Tree::Leaf, Tree::Leaf, Tree::Leaf));
    let tree2 = Tree::branch(7u32, Quad::new(Tree::Leaf, Tree::Leaf, Tree::Leaf, inner2));
    let flipped: TreeTop<2, u32> = TreeTop { tree: tree2, v_flip: true, h_flip: false };
    assert_eq!(flipped.at(to_inner), None);
    let mut to_inner_flipped = Path::default();
    to_inner_flipped.push((false, true));
    assert_eq!(flipped.at(to_inner_flipped), Some(&9));
}

#[test]
fn quad_transpose() {
    let q = Quad::new(1, 2, 3, 4).transpose();
    assert_eq!((q.ff, q.ft, q.tf, q.tt), (1, 3, 2, 4));
    let qr = q.as_ref();
    assert_eq!(*qr.ft, 3);
    assert_eq!(*q.at((true, true)), 4);
}

#[test]
fn tile_transpose() {
    let t = Tile::new(1, 2, 3, 4).transpose();
    assert_eq!((t.ff, t.ft, t.tf, t.tt), (1, 3, 2, 4));
    let tr = t.as_ref();
    assert_eq!(*tr.tf, 2);
    assert_eq!(*t.at((false, false)), 1);
    let tree: fvq::tile::Tree<u8> = fvq::tile::Tree::branch(
        5,
        Tile::new(
            fvq::tile::Tree::Leaf,
            fvq::tile::Tree::Leaf,
            fvq::tile::Tree::Leaf,
            fvq::tile::Tree::Leaf,
        ),
    );
    match tree {
        fvq::tile::Tree::Branch(b) => assert_eq!(b.payload, 5),
        fvq::tile::Tree::Leaf => panic!("expected a branch"),
    }
}
