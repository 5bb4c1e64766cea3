use vstd::prelude::*;

verus! {

/// Whether bit `j` (0 = least significant) of `w` is set.
pub open spec fn word_bit(w: u64, j: int) -> bool {
    (w & (1u64 << (j as u64))) != 0
}

/// Number of 64-bit words needed for `len` bits.
pub open spec fn words_for(len: int) -> int {
    (len + 63) / 64
}

proof fn lemma_set_bit(w: u64, k: u64, j: u64)
    requires
        k < 64,
        j < 64,
    ensures
        ((w | (1u64 << k)) & (1u64 << j)) != 0 <==> (j == k || (w & (1u64 << j)) != 0),
{
    assert(((w | (1u64 << k)) & (1u64 << j)) != 0 <==> (j == k || (w & (1u64 << j)) != 0))
        by (bit_vector)
        requires
            k < 64,
            j < 64,
    ;
}

proof fn lemma_clear_bit(w: u64, k: u64, j: u64)
    requires
        k < 64,
        j < 64,
    ensures
        ((w & !(1u64 << k)) & (1u64 << j)) != 0 <==> (j != k && (w & (1u64 << j)) != 0),
{
    assert(((w & !(1u64 << k)) & (1u64 << j)) != 0 <==> (j != k && (w & (1u64 << j)) != 0))
        by (bit_vector)
        requires
            k < 64,
            j < 64,
    ;
}

proof fn lemma_low_mask(w: u64, u: u64, m: u64, j: u64)
    requires
        0 < u < 64,
        j < 64,
        m as int == (1u64 << u) - 1,
    ensures
        ((w & m) & (1u64 << j)) != 0 <==> (j < u && (w & (1u64 << j)) != 0),
{
    assert(((w & m) & (1u64 << j)) != 0 <==> (j < u && (w & (1u64 << j)) != 0)) by (bit_vector)
        requires
            0 < u < 64,
            j < 64,
            m + 1 == 1u64 << u,
    ;
}

proof fn lemma_shift_positive(u: u64)
    requires
        u < 64,
    ensures
        (1u64 << u) >= 1,
{
    assert((1u64 << u) >= 1) by (bit_vector)
        requires
            u < 64,
    ;
}

proof fn lemma_constant_words(j: u64)
    requires
        j < 64,
    ensures
        (u64::MAX & (1u64 << j)) != 0,
        (0u64 & (1u64 << j)) == 0,
{
    assert((u64::MAX & (1u64 << j)) != 0) by (bit_vector)
        requires
            j < 64,
    ;
    assert((0u64 & (1u64 << j)) == 0) by (bit_vector);
}

/// A fixed-length sequence of booleans packed 64 to a word.
pub struct BitGrid {
    len: usize,
    words: Vec<u64>,
}

impl View for BitGrid {
    type V = Seq<bool>;

    closed spec fn view(&self) -> Seq<bool> {
        Seq::new(self.len as nat, |i: int| word_bit(self.words@[i / 64], i % 64))
    }
}

impl BitGrid {
    /// The packing invariant: exactly enough words, and every bit past
    /// `len` in the last word is clear.
    pub closed spec fn wf(&self) -> bool {
        &&& self.words@.len() == words_for(self.len as int)
        &&& forall|i: int|
            self.len <= i < self.words@.len() * 64 ==> !word_bit(
                #[trigger] self.words@[i / 64],
                i % 64,
            )
    }

    /// A grid of `len` cleared bits.
    pub fn new(len: usize) -> (g: Self)
        ensures
            g.wf(),
            g@ == Seq::new(len as nat, |i: int| false),
    {
        let n = len / 64 + if len % 64 != 0 {
            1
        } else {
            0
        };
        let words = vec![0u64; n];
        let g = BitGrid { len, words };
        proof {
            assert(n == words_for(len as int));
            assert forall|i: int| 0 <= i < g.words@.len() * 64 implies !word_bit(
                #[trigger] g.words@[i / 64],
                i % 64,
            ) by {
                lemma_constant_words((i % 64) as u64);
            }
            assert(g@ =~= Seq::new(len as nat, |i: int| false));
        }
        g
    }

    /// Number of bits.
    pub fn len(&self) -> (n: usize)
        ensures
            n == self@.len(),
    {
        self.len
    }

    /// Sets every bit to `value`.
    pub fn fill(&mut self, value: bool)
        requires
            old(self).wf(),
        ensures
            final(self).wf(),
            final(self)@ == Seq::new(old(self)@.len(), |i: int| value),
    {
        let fill: u64 = if value {
            u64::MAX
        } else {
            0
        };
        let n = self.words.len();
        let mut k: usize = 0;
        while k < n
            invariant
                n == self.words@.len(),
                self.words@.len() == words_for(self.len as int),
                k <= n,
                forall|j: int| 0 <= j < k ==> self.words@[j] == fill,
                forall|j: int| k <= j < n ==> self.words@[j] == old(self).words@[j],
                self.len == old(self).len,
            decreases n - k,
        {
            self.words.set(k, fill);
            k = k + 1;
        }
        if value {
            self.clear_unused_tail_bits();
        } else {
            proof {
                assert forall|i: int| 0 <= i < self.words@.len() * 64 implies !word_bit(
                    #[trigger] self.words@[i / 64],
                    i % 64,
                ) by {
                    lemma_constant_words((i % 64) as u64);
                }
            }
        }
        proof {
            assert forall|i: int| 0 <= i < self.len implies #[trigger] self@[i] == value by {
                lemma_constant_words((i % 64) as u64);
                if value && self.len % 64 != 0 && i / 64 == self.words@.len() - 1 {
                    let u = (self.len % 64) as u64;
                    lemma_shift_positive(u);
                    lemma_low_mask(u64::MAX, u, ((1u64 << u) - 1) as u64, (i % 64) as u64);
                }
            }
            assert(self@ =~= Seq::new(old(self)@.len(), |i: int| value));
        }
    }

    /// Reads bit `idx`.
    pub fn get(&self, idx: usize) -> (b: bool)
        requires
            self.wf(),
            idx < self@.len(),
        ensures
            b == self@[idx as int],
    {
        let word = self.words[idx / 64];
        (word & (1u64 << ((idx % 64) as u64))) != 0
    }

    /// Writes bit `idx`, leaving every other bit unchanged.
    pub fn set(&mut self, idx: usize, value: bool)
        requires
            old(self).wf(),
            idx < old(self)@.len(),
        ensures
            final(self).wf(),
            final(self)@ == old(self)@.update(idx as int, value),
    {
        let k = (idx % 64) as u64;
        let mask = 1u64 << k;
        let wi = idx / 64;
        let word = self.words[wi];
        let new_word = if value {
            word | mask
        } else {
            word & !mask
        };
        self.words.set(wi, new_word);
        proof {
            assert forall|i: int| 0 <= i < self.words@.len() * 64 && i / 64 == wi implies (
            word_bit(#[trigger] self.words@[i / 64], i % 64) <==> (if i == idx {
                value
            } else {
                word_bit(old(self).words@[i / 64], i % 64)
            })) by {
                if value {
                    lemma_set_bit(word, k, (i % 64) as u64);
                } else {
                    lemma_clear_bit(word, k, (i % 64) as u64);
                }
            }
            assert forall|i: int|
                self.len <= i < self.words@.len() * 64 implies !word_bit(
                #[trigger] self.words@[i / 64],
                i % 64,
            ) by {
                if i / 64 == wi {
                    assert(old(self).words@[i / 64] == word);
                }
            }
            assert forall|i: int| 0 <= i < self.len implies #[trigger] self@[i] == old(
                self,
            )@.update(idx as int, value)[i] by {
                if i / 64 == wi {
                    assert(old(self).words@[i / 64] == word);
                }
            }
            assert(self@ =~= old(self)@.update(idx as int, value));
        }
    }

    /// Clears the bits of the last word that lie past `len`.
    fn clear_unused_tail_bits(&mut self)
        requires
            old(self).words@.len() == words_for(old(self).len as int),
        ensures
            final(self).len == old(self).len,
            final(self).words@.len() == old(self).words@.len(),
            forall|i: int|
                0 <= i < final(self).words@.len() * 64 ==> (word_bit(
                    #[trigger] final(self).words@[i / 64],
                    i % 64,
                ) <==> (i < final(self).len && word_bit(old(self).words@[i / 64], i % 64))),
    {
        let used_bits = self.len % 64;
        if used_bits == 0 {
            return;
        }
        let n = self.words.len();
        let last = self.words[n - 1];
        let u = used_bits as u64;
        proof {
            lemma_shift_positive(u);
        }
        let m = (1u64 << u) - 1;
        let cleared = last & m;
        self.words.set(n - 1, cleared);
        proof {
            assert forall|i: int| 0 <= i < self.words@.len() * 64 implies (word_bit(
                #[trigger] self.words@[i / 64],
                i % 64,
            ) <==> (i < self.len && word_bit(old(self).words@[i / 64], i % 64))) by {
                if i / 64 == n - 1 {
                    lemma_low_mask(last, u, m, (i % 64) as u64);
                }
            }
        }
    }
}

/// One call that changes a bit grid: `fill(value)` or `set(idx, value)`.
pub enum BitOp {
    FillAll(bool),
    SetCell(usize, bool),
}

/// The cells after the calls `ops`, in order, starting from `cells`, as the
/// contracts of `fill` and `set` give them.
pub open spec fn after_ops(cells: Seq<bool>, ops: Seq<BitOp>) -> Seq<bool>
    decreases ops.len(),
{
    if ops.len() == 0 {
        cells
    } else {
        let before = after_ops(cells, ops.drop_last());
        match ops.last() {
            BitOp::FillAll(v) => Seq::new(before.len(), |i: int| v),
            BitOp::SetCell(i, v) => before.update(i as int, v),
        }
    }
}

/// Every `set` in `ops` writes a cell below `n`.
pub open spec fn ops_in_range(ops: Seq<BitOp>, n: nat) -> bool {
    forall|k: int| 0 <= k < ops.len() ==> (#[trigger] ops[k] matches BitOp::SetCell(i, _) ==> i < n)
}

/// Any run of `fill` and in-range `set` calls keeps the number of cells.
pub proof fn law_bitgrid_length_kept(cells: Seq<bool>, ops: Seq<BitOp>)
    requires
        ops_in_range(ops, cells.len()),
    ensures
        after_ops(cells, ops).len() == cells.len(),
    decreases ops.len(),
{
    if ops.len() > 0 {
        let rest = ops.drop_last();
        assert forall|k: int| 0 <= k < rest.len() implies (#[trigger] rest[k] matches BitOp::SetCell(
            i,
            _,
        ) ==> i < cells.len()) by {
            assert(rest[k] == ops[k]);
        }
        law_bitgrid_length_kept(cells, rest);
        assert(ops[ops.len() - 1] == ops.last());
    }
}

/// A cell reads back the value last written to it: after `set(idx, value)`,
/// later `set` calls on other cells leave it unchanged.
pub proof fn law_bitgrid_read_after_write(
    cells: Seq<bool>,
    idx: usize,
    value: bool,
    ops: Seq<BitOp>,
)
    requires
        idx < cells.len(),
        forall|k: int|
            0 <= k < ops.len() ==> (#[trigger] ops[k] matches BitOp::SetCell(j, _) && j != idx && j
                < cells.len()),
    ensures
        after_ops(cells.update(idx as int, value), ops).len() == cells.len(),
        after_ops(cells.update(idx as int, value), ops)[idx as int] == value,
    decreases ops.len(),
{
    if ops.len() > 0 {
        let rest = ops.drop_last();
        assert forall|k: int| 0 <= k < rest.len() implies (#[trigger] rest[k] matches BitOp::SetCell(
            j,
            _,
        ) && j != idx && j < cells.len()) by {
            assert(rest[k] == ops[k]);
        }
        law_bitgrid_read_after_write(cells, idx, value, rest);
        assert(ops[ops.len() - 1] == ops.last());
    }
}

} // verus!
