//! An appendable packed bit sequence with O(1) push and pop and forward
//! iteration.

use vstd::prelude::*;

verus! {

/// The bit of `w` at position `i` (little-endian).
pub open spec fn word_bit(w: u64, i: int) -> bool {
    (w >> (i as u64)) & 1 == 1
}

/// A sequence of bits, packed into 64-bit words (little-endian).
#[derive(Debug, Clone)]
pub struct BitString {
    /// Complete 64-bit words (little-endian).
    words: Vec<u64>,

    /// The incomplete last word (little-endian). Unused bits must be zero.
    last_word: u64,

    /// The number of bits used in `last_word` (0 to 63).
    bit: u8,
}

impl View for BitString {
    type V = Seq<bool>;

    closed spec fn view(&self) -> Seq<bool> {
        Seq::new(
            (self.words@.len() * 64 + self.bit) as nat,
            |i: int|
                if i / 64 < self.words@.len() {
                    word_bit(self.words@[i / 64], i % 64)
                } else {
                    word_bit(self.last_word, i % 64)
                },
        )
    }
}

impl BitString {
    /// The packing discipline: a partial last word with its unused high
    /// bits clear, and a total bit count that fits in `usize`.
    pub closed spec fn wf(&self) -> bool {
        &&& self.bit < 64
        &&& self.last_word >> (self.bit as u64) == 0
        &&& self.words@.len() * 64 + self.bit <= usize::MAX
    }

    /// The number of bits in this `BitString`.
    pub fn len(&self) -> (n: usize)
        requires
            self.wf(),
        ensures
            n == self@.len(),
    {
        64 * self.words.len() + (self.bit as usize)
    }

    /// Append one bit.
    pub fn push(&mut self, bit: bool)
        requires
            old(self).wf(),
            old(self)@.len() < usize::MAX,
        ensures
            final(self).wf(),
            final(self)@ == old(self)@.push(bit),
    {
        let b = self.bit as u64;
        let x: u64 = if bit { 1 } else { 0 };
        let ghost old_lw = self.last_word;
        self.last_word = self.last_word | (x << b);
        proof {
            lemma_set_bit(old_lw, x, b, (if b < 63 { b + 1 } else { 0 }) as u64);
        }
        self.bit = self.bit + 1;
        if self.bit == 64 {
            self.words.push(self.last_word);
            self.last_word = 0;
            self.bit = 0;
            proof {
                assert(0u64 >> 0u64 == 0) by (bit_vector);
            }
        }
        proof {
            assert(self@ =~= old(self)@.push(bit));
        }
    }

    /// Remove and return the last bit.
    pub fn pop(&mut self) -> (r: Option<bool>)
        requires
            old(self).wf(),
        ensures
            final(self).wf(),
            old(self)@.len() == 0 ==> r == Option::<bool>::None && final(self)@ == old(self)@,
            old(self)@.len() > 0 ==> r == Some(old(self)@.last())
                && final(self)@ == old(self)@.drop_last(),
    {
        let mut b = self.bit;
        if b == 0 {
            if let Some(last_word) = self.words.pop() {
                self.last_word = last_word;
                b = 64;
            } else {
                return None;
            }
        }
        b = b - 1;
        let ret = self.last_word & (1u64 << (b as u64));
        let ghost old_lw = self.last_word;
        self.last_word = self.last_word ^ ret;
        self.bit = b;
        proof {
            lemma_clear_bit(old_lw, b as u64, (if b < 63 { b + 1 } else { 0 }) as u64);
            assert(self@ =~= old(self)@.drop_last());
        }
        Some(ret != 0)
    }

    /// The bit at position `i`.
    pub(crate) fn bit_at(&self, i: usize) -> (b: bool)
        requires
            self.wf(),
            i < self@.len(),
        ensures
            b == self@[i as int],
    {
        let word_pos = i / 64;
        let bit_pos = (i % 64) as u64;
        let word = if word_pos < self.words.len() {
            self.words[word_pos]
        } else {
            self.last_word
        };
        (word >> bit_pos) & 1 == 1
    }

    /// Returns a forward iterator through the bits of this `BitString`.
    pub fn iter(&self) -> (r: Iter<'_>)
        requires
            self.wf(),
        ensures
            r.bits() == self@,
            r.pos() == 0,
            r.wf(),
    {
        Iter { bs: self, pos: 0 }
    }
}

impl Default for BitString {
    /// The empty bit sequence.
    fn default() -> (r: Self)
        ensures
            r.wf(),
            r@ == Seq::<bool>::empty(),
    {
        let r = BitString { words: Vec::new(), last_word: 0, bit: 0 };
        proof {
            assert(0u64 >> 0u64 == 0) by (bit_vector);
            assert(r@ =~= Seq::<bool>::empty());
        }
        r
    }
}

/// Setting bit `b` of a word whose bits at and above `b` are clear
/// preserves the bits below `b` and leaves the bits above `b` clear.
/// `nb` stands for `b + 1` where `b < 63`.
proof fn lemma_set_bit(lw: u64, x: u64, b: u64, nb: u64)
    by (bit_vector)
    requires
        x <= 1,
        b < 64,
        lw >> b == 0,
        b < 63 ==> nb == b + 1,
    ensures
        forall|i: u64| i < b ==> ((lw | (x << b)) >> i) & 1 == (lw >> i) & 1,
        ((lw | (x << b)) >> b) & 1 == x,
        b < 63 ==> (lw | (x << b)) >> nb == 0,
{
}

/// Clearing bit `b` of a word whose bits above `b` are clear preserves
/// the bits below `b` and leaves the bits at and above `b` clear.
/// `nb` stands for `b + 1` where `b < 63`.
proof fn lemma_clear_bit(lw: u64, b: u64, nb: u64)
    by (bit_vector)
    requires
        b < 64,
        b < 63 ==> nb == b + 1,
        b < 63 ==> lw >> nb == 0,
    ensures
        forall|i: u64| i < b ==> ((lw ^ (lw & (1u64 << b))) >> i) & 1 == (lw >> i) & 1,
        (lw ^ (lw & (1u64 << b))) >> b == 0,
        (lw & (1u64 << b) != 0) == ((lw >> b) & 1 == 1),
{
}

/// Appending a bit to a sequence leaves the earlier bits where they
/// were, in order, and places the new bit at the end. Together with the
/// contracts of [`BitString::push`] and [`Iter::next`], pushing bits
/// and then iterating forward yields the same bits in the same order.
pub proof fn lemma_push_keeps_order(s: Seq<bool>, bit: bool)
    ensures
        forall|i: int| 0 <= i < s.len() ==> s.push(bit)[i] == s[i],
        s.push(bit)[s.len() as int] == bit,
{
}

/// Removing the last bit of a non-empty sequence returns the most
/// recently appended bit first. Together with the contracts of
/// [`BitString::push`] and [`BitString::pop`], pushing bits and then
/// popping them yields the same bits in reverse order.
pub proof fn lemma_push_pop_reverse(s: Seq<bool>, bit: bool)
    ensures
        s.push(bit).last() == bit,
        s.push(bit).drop_last() == s,
{
    assert(s.push(bit).drop_last() =~= s);
}

// ----------------------------------------------------------------------------

/// A forward iterator through the bits of a [`BitString`].
pub struct Iter<'a> {
    bs: &'a BitString,
    pos: usize,
}

impl<'a> Iter<'a> {
    /// The bits being iterated through.
    pub closed spec fn bits(self) -> Seq<bool> {
        self.bs@
    }

    /// The position of the next bit to yield.
    pub closed spec fn pos(self) -> int {
        self.pos as int
    }

    /// The underlying bit string is well formed and the position is
    /// within range.
    pub closed spec fn wf(self) -> bool {
        &&& self.bs.wf()
        &&& self.pos <= self.bs@.len()
    }

    /// The next bit, in forward order, if there is one.
    pub fn next(&mut self) -> (r: Option<bool>)
        requires
            old(self).wf(),
        ensures
            final(self).wf(),
            final(self).bits() == old(self).bits(),
            old(self).pos() < old(self).bits().len() ==> r == Some(
                old(self).bits()[old(self).pos()],
            ) && final(self).pos() == old(self).pos() + 1,
            old(self).pos() >= old(self).bits().len() ==> r == Option::<bool>::None
                && final(self).pos() == old(self).pos(),
    {
        if self.pos < self.bs.len() {
            let b = self.bs.bit_at(self.pos);
            self.pos = self.pos + 1;
            Some(b)
        } else {
            None
        }
    }
}

} // verus!
