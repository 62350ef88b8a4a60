use vstd::prelude::*;

verus! {

/// Whether bit `pos` of `v` is set, bit 0 being the lowest.
pub open spec fn bit_of(v: i32, pos: u32) -> bool {
    (v >> pos) & 1 == 1
}

/// The number of ones in the binary form of `x`.
pub open spec fn count_ones(x: nat) -> nat
    decreases x,
{
    if x == 0 {
        0
    } else {
        x % 2 + count_ones(x / 2)
    }
}

/// A number has at most as many ones as its value.
pub proof fn lemma_count_ones_bound(x: nat)
    ensures
        count_ones(x) <= x,
    decreases x,
{
    if x != 0 {
        lemma_count_ones_bound(x / 2);
    }
}

/// `x` with its lowest one cleared.
pub open spec fn without_lowest_one(x: i32) -> i32 {
    x & ((x - 1) as i32)
}

/// Clearing the lowest one of a positive number gives a smaller number with
/// one one less.
pub proof fn lemma_clear_lowest_one(x: i32)
    requires
        x > 0,
    ensures
        0 <= without_lowest_one(x),
        without_lowest_one(x) < x,
        count_ones(without_lowest_one(x) as nat) + 1 == count_ones(x as nat),
    decreases x,
{
    let y: i32 = without_lowest_one(x);
    let h: i32 = (x / 2) as i32;
    assert(0 <= without_lowest_one(x) && without_lowest_one(x) < x) by (bit_vector)
        requires
            x > 0,
    ;
    if x % 2 == 1 {
        assert(without_lowest_one(x) == x - 1) by (bit_vector)
            requires
                x > 0,
                x % 2 == 1,
        ;
        assert(count_ones(y as nat) == count_ones(h as nat)) by {
            if y != 0 {
                assert(y as nat / 2 == h as nat);
            }
        }
    } else {
        let z: i32 = without_lowest_one(h);
        assert(without_lowest_one(x) % 2 == 0 && without_lowest_one(x) / 2 == without_lowest_one(
            (x / 2) as i32,
        )) by (bit_vector)
            requires
                x > 0,
                x % 2 == 0,
        ;
        lemma_clear_lowest_one(h);
        assert(count_ones(y as nat) == count_ones(z as nat)) by {
            if y != 0 {
                assert(y as nat / 2 == z as nat);
            }
        }
    }
}

/// A 32-bit word whose bits are read and changed one at a time.
pub struct Bits {
    v: i32,
}

impl Bits {
    /// The word.
    pub closed spec fn value(self) -> i32 {
        self.v
    }

    pub fn new(v: i32) -> (bits: Self)
        ensures
            bits.value() == v,
    {
        Bits { v }
    }

    /// The word as it stands.
    pub fn get(&self) -> (v: i32)
        ensures
            v == self.value(),
    {
        self.v
    }

    /// Sets bit `pos` and leaves the other bits as they are.
    pub fn set_bit(&mut self, pos: i32)
        requires
            0 <= pos < 32,
        ensures
            final(self).value() == old(self).value() | (1i32 << (pos as u32)),
            forall|p: u32|
                0 <= p < 32 ==> #[trigger] bit_of(final(self).value(), p) == (p == pos || bit_of(
                    old(self).value(),
                    p,
                )),
    {
        let ghost before = self.v;
        self.v = self.v | 1 << pos;
        proof {
            let after = self.v;
            let q = pos as u32;
            assert(forall|p: u32|
                0 <= p < 32 ==> #[trigger] bit_of(after, p) == (p == q || bit_of(before, p)))
                by (bit_vector)
                requires
                    0 <= q < 32,
                    after == before | (1i32 << q),
            ;
        }
    }

    /// Clears bit `pos` and leaves the other bits as they are.
    pub fn clear_bit(&mut self, pos: i32)
        requires
            0 <= pos < 32,
        ensures
            final(self).value() == old(self).value() & !(1i32 << (pos as u32)),
            forall|p: u32|
                0 <= p < 32 ==> #[trigger] bit_of(final(self).value(), p) == (p != pos && bit_of(
                    old(self).value(),
                    p,
                )),
    {
        let ghost before = self.v;
        self.v = self.v & !(1 << pos);
        proof {
            let after = self.v;
            let q = pos as u32;
            assert(forall|p: u32|
                0 <= p < 32 ==> #[trigger] bit_of(after, p) == (p != q && bit_of(before, p)))
                by (bit_vector)
                requires
                    0 <= q < 32,
                    after == before & !(1i32 << q),
            ;
        }
    }

    /// Makes bit `pos` what `v` says and leaves the other bits as they are.
    pub fn modify_bit(&mut self, pos: i32, v: bool)
        requires
            0 <= pos < 32,
        ensures
            forall|p: u32|
                0 <= p < 32 ==> #[trigger] bit_of(final(self).value(), p) == (if p == pos {
                    v
                } else {
                    bit_of(old(self).value(), p)
                }),
    {
        let ghost before = self.v;
        let fill: i32 = -(v as i32);
        self.v = self.v & !(1 << pos) | fill & 1 << pos;
        proof {
            let after = self.v;
            let q = pos as u32;
            assert(forall|p: u32|
                0 <= p < 32 ==> #[trigger] bit_of(after, p) == (if p == q {
                    v
                } else {
                    bit_of(before, p)
                })) by (bit_vector)
                requires
                    0 <= q < 32,
                    fill == (if v { -1i32 } else { 0i32 }),
                    after == before & !(1i32 << q) | fill & (1i32 << q),
            ;
        }
    }

    /// Inverts bit `pos` and leaves the other bits as they are.
    pub fn flip_bit(&mut self, pos: i32)
        requires
            0 <= pos < 32,
        ensures
            final(self).value() == old(self).value() ^ (1i32 << (pos as u32)),
            forall|p: u32|
                0 <= p < 32 ==> #[trigger] bit_of(final(self).value(), p) == (if p == pos {
                    !bit_of(old(self).value(), p)
                } else {
                    bit_of(old(self).value(), p)
                }),
    {
        let ghost before = self.v;
        self.v = self.v ^ 1 << pos;
        proof {
            let after = self.v;
            let q = pos as u32;
            assert(forall|p: u32|
                0 <= p < 32 ==> #[trigger] bit_of(after, p) == (if p == q {
                    !bit_of(before, p)
                } else {
                    bit_of(before, p)
                })) by (bit_vector)
                requires
                    0 <= q < 32,
                    after == before ^ (1i32 << q),
            ;
        }
    }

    /// Whether bit `pos` is set.
    pub fn is_bit_set(&self, pos: i32) -> (b: bool)
        requires
            0 <= pos < 32,
        ensures
            b == bit_of(self.value(), pos as u32),
    {
        let v = self.v;
        let ghost q = pos as u32;
        assert(((v >> q) & 1 > 0) == ((v >> q) & 1 == 1)) by (bit_vector);
        (self.v >> pos & 0b1) > 0
    }

    /// Counts the ones of a word that is not negative, by clearing the
    /// lowest one until none is left.
    pub fn count_bit(&self) -> (count: i32)
        requires
            self.value() >= 0,
        ensures
            count == count_ones(self.value() as nat),
    {
        let mut x: i32 = self.v;
        let mut count: i32 = 0;
        proof {
            lemma_count_ones_bound(self.v as nat);
        }
        while x != 0
            invariant
                0 <= x,
                0 <= count,
                count + count_ones(x as nat) == count_ones(self.v as nat),
                count_ones(self.v as nat) <= i32::MAX,
            decreases x,
        {
            proof {
                lemma_clear_lowest_one(x);
            }
            x &= x - 1;
            count += 1;
        }
        count
    }
}

} // verus!
