//! A fixed-width set of bit flags, one per slot index of a generated
//! transition sequence.

use vstd::prelude::*;

verus! {

/// Number of `true` entries in a boolean sequence.
pub open spec fn count_ones(s: Seq<bool>) -> nat
    decreases s.len(),
{
    if s.len() == 0 {
        0
    } else {
        count_ones(s.drop_last()) + if s.last() {
            1nat
        } else {
            0nat
        }
    }
}

pub proof fn lemma_count_ones_le_len(s: Seq<bool>)
    ensures
        count_ones(s) <= s.len(),
    decreases s.len(),
{
    if s.len() > 0 {
        lemma_count_ones_le_len(s.drop_last());
    }
}

pub proof fn lemma_count_ones_take_succ(s: Seq<bool>, i: int)
    requires
        0 <= i < s.len(),
    ensures
        count_ones(s.take(i + 1)) == count_ones(s.take(i)) + if s[i] {
            1nat
        } else {
            0nat
        },
{
    assert(s.take(i + 1).drop_last() =~= s.take(i));
    assert(s.take(i + 1).last() == s[i]);
}

pub proof fn lemma_count_ones_update(s: Seq<bool>, i: int, b: bool)
    requires
        0 <= i < s.len(),
    ensures
        count_ones(s.update(i, b)) == count_ones(s) - (if s[i] {
            1int
        } else {
            0int
        }) + (if b {
            1int
        } else {
            0int
        }),
    decreases s.len(),
{
    if i == s.len() - 1 {
        assert(s.update(i, b).drop_last() =~= s.drop_last());
        assert(s.update(i, b).last() == b);
    } else {
        assert(s.update(i, b).drop_last() =~= s.drop_last().update(i, b));
        assert(s.update(i, b).last() == s.last());
        lemma_count_ones_update(s.drop_last(), i, b);
    }
}

pub proof fn lemma_count_ones_zero(s: Seq<bool>)
    requires
        count_ones(s) == 0,
    ensures
        forall|i: int| 0 <= i < s.len() ==> !s[i],
    decreases s.len(),
{
    if s.len() > 0 {
        lemma_count_ones_zero(s.drop_last());
        assert forall|i: int| 0 <= i < s.len() implies !s[i] by {
            if i < s.len() - 1 {
                assert(s.drop_last()[i] == s[i]);
            } else {
                assert(!s.last());
            }
        }
    }
}

pub proof fn lemma_count_ones_all_true(s: Seq<bool>)
    requires
        forall|i: int| 0 <= i < s.len() ==> s[i],
    ensures
        count_ones(s) == s.len(),
    decreases s.len(),
{
    if s.len() > 0 {
        lemma_count_ones_all_true(s.drop_last());
    }
}

/// A bitset over the fixed slot index space `[0, len)`.
pub struct VarBitSet {
    bits: Vec<bool>,
}

impl View for VarBitSet {
    type V = Seq<bool>;

    closed spec fn view(&self) -> Seq<bool> {
        self.bits@
    }
}

impl VarBitSet {
    /// A bitset of width `len` with every bit set.
    pub fn saturated(len: usize) -> (r: Self)
        ensures
            r@.len() == len,
            forall|i: int| 0 <= i < len ==> r@[i],
    {
        let mut bits: Vec<bool> = Vec::new();
        let mut k: usize = 0;
        while k < len
            invariant
                k <= len,
                bits@.len() == k,
                forall|i: int| 0 <= i < k ==> bits@[i],
            decreases len - k,
        {
            bits.push(true);
            k = k + 1;
        }
        VarBitSet { bits }
    }

    pub fn len(&self) -> (n: usize)
        ensures
            n == self@.len(),
    {
        self.bits.len()
    }

    /// Whether bit `ix` is set.
    pub fn test(&self, ix: usize) -> (b: bool)
        requires
            ix < self@.len(),
        ensures
            b == self@[ix as int],
    {
        self.bits[ix]
    }

    pub fn set(&mut self, ix: usize)
        requires
            ix < old(self)@.len(),
        ensures
            final(self)@ == old(self)@.update(ix as int, true),
    {
        self.bits[ix] = true;
    }

    pub fn clear(&mut self, ix: usize)
        requires
            ix < old(self)@.len(),
        ensures
            final(self)@ == old(self)@.update(ix as int, false),
    {
        self.bits[ix] = false;
    }

    /// Number of set bits.
    pub fn count(&self) -> (n: usize)
        ensures
            n == count_ones(self@),
    {
        let len = self.bits.len();
        let mut n: usize = 0;
        let mut k: usize = 0;
        while k < len
            invariant
                k <= len,
                len == self@.len(),
                n <= k,
                n == count_ones(self@.take(k as int)),
            decreases len - k,
        {
            proof {
                lemma_count_ones_take_succ(self@, k as int);
            }
            if self.bits[k] {
                n = n + 1;
            }
            k = k + 1;
        }
        proof {
            assert(self@.take(len as int) =~= self@);
        }
        n
    }
}

} // verus!
