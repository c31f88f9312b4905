//! A set of letters as a 256-bit bitmap.

use vstd::prelude::*;

verus! {

use crate::Letter;

/// Whether bit `i` of `x` is set.
pub open spec fn bit(x: u128, i: u128) -> bool {
    (x >> i) & 1u128 == 1u128
}

proof fn lemma_bit_mask(x: u128, i: u128)
    requires
        i < 128,
    ensures
        ((x & (1u128 << i)) != 0u128) == bit(x, i),
{
    assert(((x & (1u128 << i)) != 0u128) == ((x >> i) & 1u128 == 1u128)) by (bit_vector)
        requires
            i < 128,
    ;
}

proof fn lemma_bit_or(x: u128, i: u128, j: u128)
    requires
        i < 128,
        j < 128,
    ensures
        bit(x | (1u128 << i), j) == (i == j || bit(x, j)),
{
    assert((((x | (1u128 << i)) >> j) & 1u128 == 1u128) == (i == j || ((x >> j) & 1u128
        == 1u128))) by (bit_vector)
        requires
            i < 128,
            j < 128,
    ;
}

proof fn lemma_bit_zero_max(i: u128)
    requires
        i < 128,
    ensures
        !bit(0u128, i),
        bit(u128::MAX, i),
{
    assert(((0u128 >> i) & 1u128) == 0u128) by (bit_vector);
    assert(((0xffff_ffff_ffff_ffff_ffff_ffff_ffff_ffffu128 >> i) & 1u128) == 1u128) by (bit_vector)
        requires
            i < 128,
    ;
}

/// A word other than zero has a set bit.
proof fn lemma_nonzero_has_bit(x: u128)
    requires
        x != 0,
    ensures
        exists|j: u128| j < 128 && #[trigger] bit(x, j),
    decreases x,
{
    if x & 1u128 == 1u128 {
        assert((x >> 0u128) == x) by (bit_vector);
        assert(bit(x, 0));
    } else {
        let y = x >> 1u128;
        assert(y != 0 && y < x) by (bit_vector)
            requires
                x != 0,
                x & 1u128 != 1u128,
                y == x >> 1u128,
        ;
        lemma_nonzero_has_bit(y);
        let j = choose|j: u128| j < 128 && #[trigger] bit(y, j);
        assert(((y >> 127u128) & 1u128) == 0u128) by (bit_vector)
            requires
                y == x >> 1u128,
        ;
        assert(j < 127);
        let k = (j + 1) as u128;
        assert(((x >> k) & 1u128) == ((y >> j) & 1u128)) by (bit_vector)
            requires
                y == x >> 1u128,
                j < 127,
                k == j + 1,
        ;
        assert(bit(x, k));
    }
}

/// A word whose bits are not all set has a clear bit.
proof fn lemma_not_max_has_clear_bit(x: u128)
    requires
        x != u128::MAX,
    ensures
        exists|j: u128| j < 128 && !#[trigger] bit(x, j),
{
    let y = !x;
    assert(y != 0) by (bit_vector)
        requires
            x != 0xffff_ffff_ffff_ffff_ffff_ffff_ffff_ffffu128,
            y == !x,
    ;
    lemma_nonzero_has_bit(y);
    let j = choose|j: u128| j < 128 && #[trigger] bit(y, j);
    assert(((x >> j) & 1u128) != 1u128) by (bit_vector)
        requires
            y == !x,
            ((y >> j) & 1u128) == 1u128,
    ;
    assert(!bit(x, j));
}

/// The bits of the bytes `a` to `z`, all in the first word.
pub const ALPHABET_BITS: u128 = 0x07ff_fffe_0000_0000_0000_0000_0000_0000u128;

proof fn lemma_alphabet_bits(i: u128)
    requires
        i < 128,
    ensures
        bit(ALPHABET_BITS, i) == (97 <= i <= 122),
{
    assert((((0x07ff_fffe_0000_0000_0000_0000_0000_0000u128 >> i) & 1u128) == 1u128) == (97 <= i
        && i <= 122)) by (bit_vector)
        requires
            i < 128,
    ;
}

/// A set of letters; letter `l` is in it when bit `l % 128` of word `l / 128` is set.
#[derive(Copy, Clone, PartialEq, Eq, Debug)]
pub struct LetterSet {
    accepted: [u128; 2],
}

/// The lower-case letters `a` to `z`.
pub open spec fn alphabet() -> Set<u8> {
    Set::new(|b: u8| 97 <= b <= 122)
}

impl View for LetterSet {
    type V = Set<u8>;

    closed spec fn view(&self) -> Set<u8> {
        Set::new(|b: u8| bit(self.accepted@[(b / 128) as int], (b % 128) as u128))
    }
}

impl LetterSet {
    proof fn lemma_view(&self, b: u8)
        ensures
            self@.contains(b) == bit(self.accepted@[(b / 128) as int], (b % 128) as u128),
    {
    }

    /// A letter set is determined by the letters it holds.
    pub proof fn lemma_view_injective(a: LetterSet, b: LetterSet)
        requires
            a@ == b@,
        ensures
            a == b,
    {
        assert forall|w: int| 0 <= w < 2 implies a.accepted@[w] == b.accepted@[w] by {
            let x = a.accepted@[w];
            let y = b.accepted@[w];
            if x != y {
                let d = x ^ y;
                assert(d != 0) by (bit_vector)
                    requires
                        x != y,
                        d == x ^ y,
                ;
                lemma_nonzero_has_bit(d);
                let j = choose|j: u128| j < 128 && #[trigger] bit(d, j);
                assert(((x >> j) & 1u128 == 1u128) != ((y >> j) & 1u128 == 1u128)) by (bit_vector)
                    requires
                        d == x ^ y,
                        ((d >> j) & 1u128) == 1u128,
                ;
                let l = (w * 128 + j) as u8;
                a.lemma_view(l);
                b.lemma_view(l);
                assert(a@.contains(l) != b@.contains(l));
            }
        }
        assert(a.accepted =~= b.accepted);
    }

    /// The set that holds exactly the lower-case letters.
    pub fn alphabet() -> (r: LetterSet)
        ensures
            r@ == alphabet(),
    {
        let r = LetterSet { accepted: [ALPHABET_BITS, 0u128] };
        proof {
            assert forall|b: u8| r@.contains(b) == alphabet().contains(b) by {
                r.lemma_view(b);
                lemma_alphabet_bits((b % 128) as u128);
                lemma_bit_zero_max((b % 128) as u128);
            }
            assert(r@ =~= alphabet());
        }
        r
    }

    pub fn empty() -> (r: LetterSet)
        ensures
            r@ == Set::<u8>::empty(),
    {
        let r = LetterSet { accepted: [0u128; 2] };
        proof {
            assert forall|b: u8| !r@.contains(b) by {
                r.lemma_view(b);
                lemma_bit_zero_max((b % 128) as u128);
            }
            assert(r@ =~= Set::<u8>::empty());
        }
        r
    }

    pub fn any() -> (r: LetterSet)
        ensures
            r@ == Set::<u8>::full(),
    {
        let r = LetterSet { accepted: [u128::MAX; 2] };
        proof {
            assert forall|b: u8| r@.contains(b) by {
                r.lemma_view(b);
                lemma_bit_zero_max((b % 128) as u128);
            }
            assert(r@ =~= Set::<u8>::full());
        }
        r
    }

    pub fn contains(&self, letter: Letter) -> (r: bool)
        ensures
            r == self@.contains(letter.0),
    {
        let i = letter.0 as usize;
        proof {
            self.lemma_view(letter.0);
            lemma_bit_mask(self.accepted@[(i / 128) as int], (i % 128) as u128);
        }
        (self.accepted[i / 128] & (1u128 << ((i % 128) as u128))) != 0
    }

    pub fn insert(&mut self, letter: Letter)
        ensures
            final(self)@ == old(self)@.insert(letter.0),
    {
        let i = letter.0 as usize;
        let w = i / 128;
        let s = (i % 128) as u128;
        let old_word = self.accepted[w];
        self.accepted[w] = old_word | (1u128 << s);
        proof {
            assert forall|b: u8| final(self)@.contains(b) == old(self)@.insert(letter.0).contains(b) by {
                final(self).lemma_view(b);
                old(self).lemma_view(b);
                lemma_bit_or(old_word, s, (b % 128) as u128);
            }
            assert(final(self)@ =~= old(self)@.insert(letter.0));
        }
    }

    /// The set of the given letters.
    pub fn from_many(letters: &[Letter]) -> (r: LetterSet)
        ensures
            forall|b: u8| #[trigger] r@.contains(b) <==> exists|i: int| 0 <= i < letters@.len() && letters@[i].0 == b,
    {
        let mut tmp = LetterSet::empty();
        let mut k: usize = 0;
        while k < letters.len()
            invariant
                k <= letters@.len(),
                forall|b: u8| #[trigger] tmp@.contains(b) <==> exists|i: int| 0 <= i < k && letters@[i].0 == b,
            decreases letters@.len() - k,
        {
            let ghost before = tmp@;
            tmp.insert(letters[k]);
            proof {
                assert forall|b: u8| #[trigger] tmp@.contains(b) <==> exists|i: int| 0 <= i < k + 1 && letters@[i].0 == b by {
                    if tmp@.contains(b) && b != letters@[k as int].0 {
                        assert(before.contains(b));
                    }
                    if b == letters@[k as int].0 {
                        assert(exists|i: int| 0 <= i < k + 1 && letters@[i].0 == b) by {
                            assert(letters@[k as int].0 == b);
                        }
                    }
                }
            }
            k += 1;
        }
        tmp
    }

    pub fn is_empty(&self) -> (r: bool)
        ensures
            r == (self@ == Set::<u8>::empty()),
    {
        let r = self.accepted[0] == 0 && self.accepted[1] == 0;
        proof {
            if r {
                assert forall|b: u8| !self@.contains(b) by {
                    self.lemma_view(b);
                    lemma_bit_zero_max((b % 128) as u128);
                }
                assert(self@ =~= Set::<u8>::empty());
            } else {
                let w: int = if self.accepted[0] != 0 { 0 } else { 1 };
                lemma_nonzero_has_bit(self.accepted@[w]);
                let j = choose|j: u128| j < 128 && #[trigger] bit(self.accepted@[w], j);
                let b = (w * 128 + j) as u8;
                self.lemma_view(b);
                assert(self@.contains(b));
            }
        }
        r
    }

    pub fn is_any(&self) -> (r: bool)
        ensures
            r == (self@ == Set::<u8>::full()),
    {
        let r = self.accepted[0] == u128::MAX && self.accepted[1] == u128::MAX;
        proof {
            if r {
                assert forall|b: u8| self@.contains(b) by {
                    self.lemma_view(b);
                    lemma_bit_zero_max((b % 128) as u128);
                }
                assert(self@ =~= Set::<u8>::full());
            } else {
                let w: int = if self.accepted[0] != u128::MAX { 0 } else { 1 };
                lemma_not_max_has_clear_bit(self.accepted@[w]);
                let j = choose|j: u128| j < 128 && !#[trigger] bit(self.accepted@[w], j);
                let b = (w * 128 + j) as u8;
                self.lemma_view(b);
                assert(!self@.contains(b));
            }
        }
        r
    }

    /// Whether this is the set of the letters `a` to `z`.
    pub fn is_alphabet(&self) -> (r: bool)
        ensures
            r == (self@ == alphabet()),
    {
        let r = self.accepted[0] == ALPHABET_BITS && self.accepted[1] == 0;
        proof {
            if r {
                assert forall|b: u8| self@.contains(b) == alphabet().contains(b) by {
                    self.lemma_view(b);
                    lemma_alphabet_bits((b % 128) as u128);
                    lemma_bit_zero_max((b % 128) as u128);
                }
                assert(self@ =~= alphabet());
            } else if self.accepted[1] != 0 {
                lemma_nonzero_has_bit(self.accepted@[1]);
                let j = choose|j: u128| j < 128 && #[trigger] bit(self.accepted@[1], j);
                let b = (128 + j) as u8;
                self.lemma_view(b);
                assert(self@.contains(b) && !alphabet().contains(b));
            } else {
                let x = self.accepted@[0];
                let d = x ^ ALPHABET_BITS;
                assert(d != 0) by (bit_vector)
                    requires
                        x != 0x07ff_fffe_0000_0000_0000_0000_0000_0000u128,
                        d == x ^ 0x07ff_fffe_0000_0000_0000_0000_0000_0000u128,
                ;
                lemma_nonzero_has_bit(d);
                let j = choose|j: u128| j < 128 && #[trigger] bit(d, j);
                assert(((x >> j) & 1u128 == 1u128) != ((0x07ff_fffe_0000_0000_0000_0000_0000_0000u128
                    >> j) & 1u128 == 1u128)) by (bit_vector)
                    requires
                        d == x ^ 0x07ff_fffe_0000_0000_0000_0000_0000_0000u128,
                        ((d >> j) & 1u128) == 1u128,
                ;
                lemma_alphabet_bits(j);
                let b = j as u8;
                self.lemma_view(b);
                assert(self@.contains(b) != alphabet().contains(b));
            }
        }
        r
    }
}

} // verus!
