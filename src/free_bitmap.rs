use vstd::prelude::*;
use vstd::std_specs::bits::axiom_u64_trailing_zeros;

use crate::BOOK_DEPTH;

verus! {

/// Is bit `b` of `w` set?
pub open spec fn bit_set(w: u64, b: u64) -> bool {
    (w >> b) & 1u64 == 1u64
}

proof fn lemma_bit_after_set(w: u64, b: u64, j: u64)
    requires
        b < 64,
        j < 64,
    ensures
        bit_set(w | (1u64 << b), j) == (j == b || bit_set(w, j)),
{
    assert(((w | (1u64 << b)) >> j) & 1u64 == 1u64 <==> (j == b || (w >> j) & 1u64 == 1u64))
        by (bit_vector)
        requires
            b < 64,
            j < 64,
    ;
}

proof fn lemma_bit_after_clear(w: u64, b: u64, j: u64)
    requires
        b < 64,
        j < 64,
    ensures
        bit_set(w & !(1u64 << b), j) == (j != b && bit_set(w, j)),
{
    assert(((w & !(1u64 << b)) >> j) & 1u64 == 1u64 <==> (j != b && (w >> j) & 1u64 == 1u64))
        by (bit_vector)
        requires
            b < 64,
            j < 64,
    ;
}

proof fn lemma_low_mask(d: u64, j: u64)
    requires
        d < 64,
        j < 64,
    ensures
        (1u64 << d) >= 1,
        bit_set(((1u64 << d) - 1) as u64, j) == (j < d),
{
    assert((1u64 << d) >= 1) by (bit_vector)
        requires
            d < 64,
    ;
    assert((((vstd::prelude::sub(1u64 << d, 1u64)) >> j) & 1u64 == 1u64) == (j < d)) by (bit_vector)
        requires
            d < 64,
            j < 64,
    ;
}

proof fn lemma_full_and_empty(j: u64)
    requires
        j < 64,
    ensures
        bit_set(0xffff_ffff_ffff_ffffu64, j),
        !bit_set(0u64, j),
{
    assert((0xffff_ffff_ffff_ffffu64 >> j) & 1u64 == 1u64) by (bit_vector)
        requires
            j < 64,
    ;
    assert((0u64 >> j) & 1u64 == 0u64) by (bit_vector);
}

/// One bit per order slot, set while the slot is free. Slots `0..64` live in
/// `low`, slots `64..128` in `high`.
#[derive(Debug, Clone, Copy, PartialEq, Eq, Structural)]
pub struct FreeBitmap {
    pub low: u64,
    pub high: u64,
}

impl FreeBitmap {
    /// Is slot `i` marked free?
    pub open spec fn is_free(&self, i: int) -> bool {
        if 0 <= i < 64 {
            bit_set(self.low, i as u64)
        } else if 64 <= i < 128 {
            bit_set(self.high, (i - 64) as u64)
        } else {
            false
        }
    }

    /// A bitmap whose free slots are exactly `0..depth`.
    pub fn with_free_prefix(depth: usize) -> (r: FreeBitmap)
        requires
            depth <= BOOK_DEPTH,
        ensures
            forall|i: int| 0 <= i < 128 ==> (#[trigger] r.is_free(i) <==> i < depth),
    {
        let low: u64 = if depth >= 64 {
            0xffff_ffff_ffff_ffffu64
        } else {
            proof {
                lemma_low_mask(depth as u64, 0);
            }
            (1u64 << (depth as u64)) - 1
        };
        let high: u64 = if depth >= 128 {
            0xffff_ffff_ffff_ffffu64
        } else if depth > 64 {
            proof {
                lemma_low_mask((depth - 64) as u64, 0);
            }
            (1u64 << ((depth - 64) as u64)) - 1
        } else {
            0
        };
        let r = FreeBitmap { low, high };
        assert forall|i: int| 0 <= i < 128 implies (#[trigger] r.is_free(i) <==> i < depth) by {
            if i < 64 {
                lemma_full_and_empty(i as u64);
                if depth < 64 {
                    lemma_low_mask(depth as u64, i as u64);
                }
            } else {
                lemma_full_and_empty((i - 64) as u64);
                if 64 < depth < 128 {
                    lemma_low_mask((depth - 64) as u64, (i - 64) as u64);
                }
            }
        }
        r
    }

    /// Marks slot `i` as taken.
    pub fn mark_reserved(&mut self, i: u8)
        requires
            (i as int) < 128,
        ensures
            forall|j: int| #[trigger]
                final(self).is_free(j) == (j != i as int && old(self).is_free(j)),
    {
        if i < 64 {
            let ghost w = self.low;
            self.low = self.low & !(1u64 << (i as u64));
            assert forall|j: int| #[trigger] self.is_free(j) == (j != i as int && old(self).is_free(j)) by {
                if 0 <= j < 64 {
                    lemma_bit_after_clear(w, i as u64, j as u64);
                }
            }
        } else {
            let ghost w = self.high;
            self.high = self.high & !(1u64 << ((i - 64) as u64));
            assert forall|j: int| #[trigger] self.is_free(j) == (j != i as int && old(self).is_free(j)) by {
                if 64 <= j < 128 {
                    lemma_bit_after_clear(w, (i - 64) as u64, (j - 64) as u64);
                }
            }
        }
    }

    /// Marks slot `i` as free.
    pub fn mark_free(&mut self, i: u8)
        requires
            (i as int) < 128,
        ensures
            forall|j: int| #[trigger]
                final(self).is_free(j) == (j == i as int || old(self).is_free(j)),
    {
        if i < 64 {
            let ghost w = self.low;
            self.low = self.low | (1u64 << (i as u64));
            assert forall|j: int| #[trigger] self.is_free(j) == (j == i as int || old(self).is_free(j)) by {
                if 0 <= j < 64 {
                    lemma_bit_after_set(w, i as u64, j as u64);
                }
            }
        } else {
            let ghost w = self.high;
            self.high = self.high | (1u64 << ((i - 64) as u64));
            assert forall|j: int| #[trigger] self.is_free(j) == (j == i as int || old(self).is_free(j)) by {
                if 64 <= j < 128 {
                    lemma_bit_after_set(w, (i - 64) as u64, (j - 64) as u64);
                }
            }
        }
    }

    /// The lowest free slot, if any.
    pub fn get_first_free_chunk(&self) -> (r: Option<usize>)
        ensures
            match r {
                Some(i) => i < 128 && self.is_free(i as int) && forall|j: int|
                    0 <= j < i ==> !#[trigger] self.is_free(j),
                None => forall|j: int| 0 <= j < 128 ==> !#[trigger] self.is_free(j),
            },
    {
        proof {
            axiom_u64_trailing_zeros(self.low);
            axiom_u64_trailing_zeros(self.high);
        }
        let tz_low = self.low.trailing_zeros();
        if tz_low < 64 {
            assert forall|j: int| 0 <= j < tz_low implies !#[trigger] self.is_free(j) by {
                assert((self.low >> (j as u64)) & 1u64 == 0u64);
            }
            return Some(tz_low as usize);
        }
        let tz_high = self.high.trailing_zeros();
        assert forall|j: int| 0 <= j < 64 implies !#[trigger] self.is_free(j) by {
            assert((self.low >> (j as u64)) & 1u64 == 0u64);
        }
        if tz_high < 64 {
            assert forall|j: int| 64 <= j < 64 + tz_high implies !#[trigger] self.is_free(j) by {
                assert((self.high >> ((j - 64) as u64)) & 1u64 == 0u64);
            }
            return Some(64 + tz_high as usize);
        }
        assert forall|j: int| 64 <= j < 128 implies !#[trigger] self.is_free(j) by {
            assert((self.high >> ((j - 64) as u64)) & 1u64 == 0u64);
        }
        None
    }

    /// Is slot `i` marked free?
    pub fn is_slot_free(&self, i: u8) -> (r: bool)
        requires
            (i as int) < 128,
        ensures
            r == self.is_free(i as int),
    {
        if i < 64 {
            (self.low >> (i as u64)) & 1 == 1
        } else {
            (self.high >> ((i - 64) as u64)) & 1 == 1
        }
    }

    /// Is every slot taken?
    pub fn all_taken(&self) -> (r: bool)
        ensures
            r == forall|j: int| 0 <= j < 128 ==> !#[trigger] self.is_free(j),
    {
        self.get_first_free_chunk().is_none()
    }
}

} // verus!
