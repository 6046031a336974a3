//! An earlier design of the 2x2 tile container and its quadtree, kept
//! alongside [`crate::quad`] while the codec migrates between the two.

use vstd::prelude::*;

use crate::Small;

verus! {

/// A 2x2 grid of `T`s, indexed by `(row_bit, col_bit)`.
#[derive(Debug, Copy, Clone, Hash, PartialEq, Eq)]
pub struct Tile<T> {
    /// Row `false`, column `false`.
    pub ff: T,
    /// Row `false`, column `true`.
    pub ft: T,
    /// Row `true`, column `false`.
    pub tf: T,
    /// Row `true`, column `true`.
    pub tt: T,
}

impl<T> Tile<T> {
    /// The cell at `(row_bit, col_bit)`.
    pub open spec fn spec_at(self, index: Small) -> T {
        if !index.0 && !index.1 {
            self.ff
        } else if !index.0 && index.1 {
            self.ft
        } else if index.0 && !index.1 {
            self.tf
        } else {
            self.tt
        }
    }

    /// Builds a `Tile` from its cells in row-major order.
    pub fn new(a: T, b: T, c: T, d: T) -> (r: Self)
        ensures
            r == (Tile { ff: a, ft: b, tf: c, tt: d }),
    {
        Tile { ff: a, ft: b, tf: c, tt: d }
    }

    /// Exchanges the indices.
    pub fn transpose(self) -> (r: Self)
        ensures
            r == (Tile { ff: self.ff, ft: self.tf, tf: self.ft, tt: self.tt }),
    {
        let Tile { ff, ft, tf, tt } = self;
        Tile { ff, ft: tf, tf: ft, tt }
    }

    /// Borrows the four `T`s and wraps the borrows in a `Tile`.
    pub fn as_ref(&self) -> (r: Tile<&T>)
        ensures
            r.ff == self.ff,
            r.ft == self.ft,
            r.tf == self.tf,
            r.tt == self.tt,
    {
        Tile { ff: &self.ff, ft: &self.ft, tf: &self.tf, tt: &self.tt }
    }

    /// Borrows the cell at `index`.
    pub fn at(&self, index: Small) -> (r: &T)
        ensures
            *r == self.spec_at(index),
    {
        if !index.0 && !index.1 {
            &self.ff
        } else if !index.0 && index.1 {
            &self.ft
        } else if index.0 && !index.1 {
            &self.tf
        } else {
            &self.tt
        }
    }
}

// ----------------------------------------------------------------------------

/// A [`Tree`] that is not blank.
///
/// A value of type `B` is attached to every `Branch`.
#[derive(Debug, Hash, PartialEq, Eq)]
pub struct Branch<B> {
    /// The coefficients of the largest wavelets of the tile.
    pub payload: B,

    /// A 2x2 grid of half-size tiles.
    pub children: Tile<Tree<B>>,
}

/// Represents a square tile of an image, minus its mean value. `Leaf`
/// represents a completely blank tile, everywhere equal to its mean
/// value.
#[derive(Debug, Hash, PartialEq, Eq)]
pub enum Tree<B> {
    Branch(Box<Branch<B>>),
    Leaf,
}

impl<B> Tree<B> {
    /// Constructs a non-blank `Tree`.
    pub fn branch(payload: B, children: Tile<Self>) -> (r: Self)
        ensures
            r == Tree::<B>::Branch(Box::new(Branch { payload, children })),
    {
        Tree::Branch(Box::new(Branch { payload, children }))
    }
}

impl<B> Default for Tree<B> {
    /// The blank tree.
    fn default() -> (r: Self)
        ensures
            r == Tree::<B>::Leaf,
    {
        Tree::Leaf
    }
}

} // verus!
