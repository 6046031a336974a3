//! 2x2 tile containers, the recursive quadtree of payloads, and packed
//! paths down a quadtree.

use vstd::prelude::*;
use vstd::arithmetic::div_mod::{
    lemma_div_multiples_vanish_fancy, lemma_mod_multiples_vanish,
};

use crate::Small;

verus! {

/// A 2x2 grid of `T`s, indexed by `(row_bit, col_bit)`.
#[derive(Debug, Copy, Clone, Hash, PartialEq, Eq)]
pub struct Quad<T> {
    /// Row `false`, column `false`.
    pub ff: T,
    /// Row `false`, column `true`.
    pub ft: T,
    /// Row `true`, column `false`.
    pub tf: T,
    /// Row `true`, column `true`.
    pub tt: T,
}

impl<T> Quad<T> {
    /// The cell at `(row_bit, col_bit)`.
    pub open spec fn spec_at(self, index: Small) -> T {
        if !index.0 && !index.1 {
            self.ff
        } else if !index.0 && index.1 {
            self.ft
        } else if index.0 && !index.1 {
            self.tf
        } else {
            self.tt
        }
    }

    /// Builds a `Quad` from its cells in row-major order.
    pub fn new(a: T, b: T, c: T, d: T) -> (r: Self)
        ensures
            r == (Quad { ff: a, ft: b, tf: c, tt: d }),
    {
        Quad { ff: a, ft: b, tf: c, tt: d }
    }

    /// Exchanges the indices.
    pub fn transpose(self) -> (r: Self)
        ensures
            r == (Quad { ff: self.ff, ft: self.tf, tf: self.ft, tt: self.tt }),
    {
        let Quad { ff, ft, tf, tt } = self;
        Quad { ff, ft: tf, tf: ft, tt }
    }

    /// Borrows the four `T`s and wraps the borrows in a `Quad`.
    pub fn as_ref(&self) -> (r: Quad<&T>)
        ensures
            r.ff == self.ff,
            r.ft == self.ft,
            r.tf == self.tf,
            r.tt == self.tt,
    {
        Quad { ff: &self.ff, ft: &self.ft, tf: &self.tf, tt: &self.tt }
    }

    /// Borrows the cell at `index`.
    pub fn at(&self, index: Small) -> (r: &T)
        ensures
            *r == self.spec_at(index),
    {
        if !index.0 && !index.1 {
            &self.ff
        } else if !index.0 && index.1 {
            &self.ft
        } else if index.0 && !index.1 {
            &self.tf
        } else {
            &self.tt
        }
    }
}

// ----------------------------------------------------------------------------

/// A [`Tree`] that is not blank.
///
/// A value of type `B` is attached to every `Branch`.
#[derive(Debug, Hash, PartialEq, Eq)]
pub struct Branch<B> {
    /// The coefficients of the largest wavelets of the tile.
    pub payload: B,

    /// A 2x2 grid of half-size tiles.
    pub children: Quad<Tree<B>>,
}

/// Represents a square tile of an image, minus its mean value. `Leaf`
/// represents a completely blank tile, everywhere equal to its mean
/// value.
#[derive(Debug, Hash, PartialEq, Eq)]
pub enum Tree<B> {
    Branch(Box<Branch<B>>),
    Leaf,
}

impl<B> Tree<B> {
    /// Constructs a non-blank `Tree`.
    pub fn branch(payload: B, children: Quad<Self>) -> (r: Self)
        ensures
            r == Tree::<B>::Branch(Box::new(Branch { payload, children })),
    {
        Tree::Branch(Box::new(Branch { payload, children }))
    }
}

impl<B> Default for Tree<B> {
    /// The blank tree.
    fn default() -> (r: Self)
        ensures
            r == Tree::<B>::Leaf,
    {
        Tree::Leaf
    }
}

/// The payload reached from `t` by walking the selectors of `path`
/// from its end, each selector flipped by `(v_flip, h_flip)`: the
/// payload where the walk exhausts the path at a branch, and nothing
/// where it reaches a leaf first.
pub open spec fn tree_at<B>(
    t: Tree<B>,
    path: Seq<Small>,
    v_flip: bool,
    h_flip: bool,
) -> Option<B>
    decreases path.len(),
{
    match t {
        Tree::Leaf => None,
        Tree::Branch(branch) => {
            if path.len() == 0 {
                Some(branch.payload)
            } else {
                let small = path.last();
                let flipped = (small.0 != v_flip, small.1 != h_flip);
                tree_at(branch.children.spec_at(flipped), path.drop_last(), v_flip, h_flip)
            }
        },
    }
}

// ----------------------------------------------------------------------------

/// `4^n`.
pub open spec fn pow4(n: nat) -> nat
    decreases n,
{
    if n == 0 {
        1
    } else {
        4 * pow4((n - 1) as nat)
    }
}

/// The selector encoded by a two-bit code.
pub open spec fn decode_small(code: int) -> Small {
    (code % 2 == 1, code / 2 == 1)
}

/// The stack of selectors held by a packed path word of the given
/// length, bottom first: the top of the stack is in the low bits.
pub open spec fn path_seq(word: int, length: nat) -> Seq<Small>
    decreases length,
{
    if length == 0 {
        Seq::empty()
    } else {
        path_seq(word / 4, (length - 1) as nat).push(decode_small(word % 4))
    }
}

/// The number of selectors equals the length field.
proof fn lemma_path_seq_len(word: int, length: nat)
    ensures
        path_seq(word, length).len() == length,
    decreases length,
{
    if length > 0 {
        lemma_path_seq_len(word / 4, (length - 1) as nat);
    }
}

/// `pow4` is monotonic.
proof fn lemma_pow4_le(a: nat, b: nat)
    requires
        a <= b,
    ensures
        pow4(a) <= pow4(b),
    decreases b,
{
    if a < b && b > 0 {
        lemma_pow4_le(a, (b - 1) as nat);
    }
}

/// Represents a path down a [`Tree`], of length up to 15.
///
/// `Path` behaves like a stack of [`Small`]s: construct it using
/// `default()` and `push()` and destruct it using `pop()`. The first
/// `pop()`ped selector picks a child of the root of the `Tree`; the
/// second picks a child of that; and so on.
#[derive(Debug, Copy, Clone, Hash, PartialEq, Eq, Structural)]
pub struct Path {
    /// The selectors as packed two-bit codes, the top of the stack in
    /// the low bits.
    word: u32,

    /// The number of selectors.
    length: u8,
}

impl View for Path {
    type V = Seq<Small>;

    closed spec fn view(&self) -> Seq<Small> {
        path_seq(self.word as int, self.length as nat)
    }
}

impl Path {
    /// The packed word holds exactly `length` two-bit codes, and no
    /// more than 15 of them.
    pub closed spec fn wf(self) -> bool {
        &&& self.length <= 15
        &&& (self.word as nat) < pow4(self.length as nat)
    }

    /// Remove and return the most recently pushed [`Small`], if there
    /// is one.
    pub fn pop(&mut self) -> (r: Option<Small>)
        requires
            old(self).wf(),
        ensures
            final(self).wf(),
            old(self)@.len() == 0 ==> r == Option::<Small>::None && *final(self) == *old(self),
            old(self)@.len() > 0 ==> r == Some(old(self)@.last())
                && final(self)@ == old(self)@.drop_last(),
    {
        proof {
            lemma_path_seq_len(self.word as int, self.length as nat);
        }
        if self.length == 0 {
            return None;
        }
        let code = self.word % 4;
        proof {
            assert((self.word as nat) / 4 < pow4((self.length - 1) as nat)) by (nonlinear_arith)
                requires
                    (self.word as nat) < 4 * pow4((self.length - 1) as nat),
            ;
        }
        self.word = self.word / 4;
        self.length = self.length - 1;
        Some((code % 2 == 1, code / 2 == 1))
    }

    /// Append one [`Small`]. The path must not already be full.
    pub fn push(&mut self, small: Small)
        requires
            old(self).wf(),
            old(self)@.len() < 15,
        ensures
            final(self).wf(),
            final(self)@ == old(self)@.push(small),
    {
        proof {
            lemma_path_seq_len(self.word as int, self.length as nat);
            lemma_pow4_le(self.length as nat, 14);
            assert(pow4(14) == 0x1000_0000) by {
                lemma_pow4_val();
            }
        }
        let code: u32 = (if small.0 {
            1u32
        } else {
            0u32
        }) + (if small.1 {
            2u32
        } else {
            0u32
        });
        let ghost w0 = self.word as int;
        self.word = self.word * 4 + code;
        self.length = self.length + 1;
        proof {
            lemma_div_multiples_vanish_fancy(w0, code as int, 4);
            lemma_mod_multiples_vanish(w0, code as int, 4);
            assert(4 * w0 == w0 * 4) by (nonlinear_arith);
            assert(self@ == old(self)@.push(small));
        }
    }

    /// The number of [`Small`]s that can be popped.
    pub fn len(self) -> (n: usize)
        requires
            self.wf(),
        ensures
            n == self@.len(),
    {
        proof {
            lemma_path_seq_len(self.word as int, self.length as nat);
        }
        self.length as usize
    }

    /// Returns an iterator that pops the selectors, most recently
    /// pushed first.
    pub fn iter(self) -> (r: PathIterator)
        requires
            self.wf(),
        ensures
            r.path().wf(),
            r.path()@ == self@,
    {
        PathIterator(self)
    }
}

impl Default for Path {
    /// The empty path.
    fn default() -> (r: Self)
        ensures
            r.wf(),
            r@ == Seq::<Small>::empty(),
    {
        Path { word: 0, length: 0 }
    }
}

/// `4^14` in full.
proof fn lemma_pow4_val()
    ensures
        pow4(14) == 0x1000_0000,
{
    assert(pow4(0) == 1);
    assert(pow4(1) == 4);
    assert(pow4(2) == 16);
    assert(pow4(3) == 64);
    assert(pow4(4) == 256);
    assert(pow4(5) == 1024);
    assert(pow4(6) == 4096);
    assert(pow4(7) == 16384);
    assert(pow4(8) == 65536);
    assert(pow4(9) == 262144);
    assert(pow4(10) == 1048576);
    assert(pow4(11) == 4194304);
    assert(pow4(12) == 16777216);
    assert(pow4(13) == 67108864);
    assert(pow4(14) == 268435456);
}

// ----------------------------------------------------------------------------

/// The return type of [`Path::iter`].
#[derive(Debug, Copy, Clone)]
pub struct PathIterator(Path);

impl PathIterator {
    /// The remaining path.
    pub closed spec fn path(self) -> Path {
        self.0
    }

    /// The next selector, most recently pushed first.
    pub fn next(&mut self) -> (r: Option<Small>)
        requires
            old(self).path().wf(),
        ensures
            final(self).path().wf(),
            old(self).path()@.len() == 0 ==> r == Option::<Small>::None && final(self).path()@
                == old(self).path()@,
            old(self).path()@.len() > 0 ==> r == Some(old(self).path()@.last())
                && final(self).path()@ == old(self).path()@.drop_last(),
    {
        self.0.pop()
    }
}

// ----------------------------------------------------------------------------

/// Represents the top levels of a [`Tree`], optionally reflected
/// left-to-right or top-to-bottom. `N` bounds the length of the paths
/// meant to index it.
#[derive(Debug, Hash, PartialEq, Eq)]
pub struct TreeTop<const N: usize, B> {
    /// The underlying [`Tree`].
    pub tree: Tree<B>,

    /// `true` to reflect the `Tree` top-to-bottom.
    pub v_flip: bool,

    /// `true` to reflect the `Tree` left-to-right.
    pub h_flip: bool,
}

impl<const N: usize, B> TreeTop<N, B> {
    /// Applies the reflections to one selector.
    fn flip(&self, small: Small) -> (r: Small)
        ensures
            r == (small.0 != self.v_flip, small.1 != self.h_flip),
    {
        (small.0 != self.v_flip, small.1 != self.h_flip)
    }

    /// The payload at the end of `path`, if the walk does not reach a
    /// blank tile first.
    pub fn at(&self, path: Path) -> (r: Option<&B>)
        requires
            path.wf(),
        ensures
            match r {
                Some(payload) => tree_at(self.tree, path@, self.v_flip, self.h_flip) == Some(
                    *payload,
                ),
                None => tree_at(self.tree, path@, self.v_flip, self.h_flip) is None,
            },
    {
        let mut t = &self.tree;
        let mut index = path;
        loop
            invariant
                index.wf(),
                tree_at(*t, index@, self.v_flip, self.h_flip) == tree_at(
                    self.tree,
                    path@,
                    self.v_flip,
                    self.h_flip,
                ),
            decreases index@.len(),
        {
            match t {
                Tree::Leaf => {
                    return None;
                },
                Tree::Branch(branch) => {
                    match index.pop() {
                        Some(small) => {
                            t = branch.children.at(self.flip(small));
                        },
                        None => {
                            return Some(&branch.payload);
                        },
                    }
                },
            }
        }
    }
}

} // verus!
