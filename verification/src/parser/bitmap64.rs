//! Arbitrary-size bitmap for multi-symbol ITCH filtering, backed by a
//! vector of 64-bit words.

use vstd::prelude::*;
use crate::parser::bitmap_filter::leading_below;
use crate::parser::bits::{
    collect_positions, count_positions, lemma_bit_and, lemma_bit_or, lemma_bit_single,
    lemma_bit_zero, lemma_positions_agree, lemma_positions_stable, positions_below, seq_bit,
};
use crate::parser::layout::{first_frames, frames, frames_from, read_len_prefix};

verus! {

/// Whether position `i` of `b` is set; positions past the end are clear.
pub open spec fn bit_at(b: Seq<bool>, i: int) -> bool {
    0 <= i < b.len() && b[i]
}

/// The set positions of `b` below `m`, ascending.
pub open spec fn ones_below(b: Seq<bool>, m: nat) -> Seq<usize>
    decreases m,
{
    if m == 0 {
        Seq::empty()
    } else {
        let rest = ones_below(b, (m - 1) as nat);
        if bit_at(b, m - 1) {
            rest.push((m - 1) as usize)
        } else {
            rest
        }
    }
}

/// The set positions of `b`, ascending.
pub open spec fn ones(b: Seq<bool>) -> Seq<usize> {
    ones_below(b, b.len())
}

/// Pointwise AND; as long as the shorter operand.
pub open spec fn and_bits(a: Seq<bool>, b: Seq<bool>) -> Seq<bool> {
    let n = if a.len() <= b.len() {
        a.len()
    } else {
        b.len()
    };
    Seq::new(n, |i: int| a[i] && b[i])
}

/// Pointwise OR; as long as the longer operand.
pub open spec fn or_bits(a: Seq<bool>, b: Seq<bool>) -> Seq<bool> {
    let n = if a.len() >= b.len() {
        a.len()
    } else {
        b.len()
    };
    Seq::new(n, |i: int| bit_at(a, i) || bit_at(b, i))
}

/// A position is set in the AND of two bitmaps exactly when it is set in
/// both, and in the OR exactly when it is set in either; the AND is no
/// longer than either operand, the OR no shorter.
pub proof fn lemma_and_or_bits(a: Seq<bool>, b: Seq<bool>)
    ensures
        forall|i: int| #[trigger] bit_at(and_bits(a, b), i) <==> bit_at(a, i) && bit_at(b, i),
        forall|i: int| #[trigger] bit_at(or_bits(a, b), i) <==> bit_at(a, i) || bit_at(b, i),
        and_bits(a, b).len() <= a.len(),
        and_bits(a, b).len() <= b.len(),
        or_bits(a, b).len() >= a.len(),
        or_bits(a, b).len() >= b.len(),
{
}

/// Setting a position makes it read as set and clearing it makes it read
/// as clear, while every other position keeps its value.
pub proof fn lemma_set_clear_bits(b: Seq<bool>, k: int)
    requires
        0 <= k < b.len(),
    ensures
        bit_at(b.update(k, true), k),
        !bit_at(b.update(k, false), k),
        forall|i: int| i != k ==> #[trigger] bit_at(b.update(k, true), i) == bit_at(b, i),
        forall|i: int| i != k ==> #[trigger] bit_at(b.update(k, false), i) == bit_at(b, i),
{
}

/// Dynamically-sized multi-word bitmap.
#[derive(Clone, Debug)]
pub struct Bitmap64 {
    words: Vec<u64>,
    n_bits: usize,
}

/// Number of 64-bit words that hold `n` bits.
pub open spec fn words_for(n: nat) -> nat {
    ((n + 63) / 64) as nat
}

impl Bitmap64 {
    /// The bits, one per position below [`Self::n_bits`].
    pub closed spec fn bits(&self) -> Seq<bool> {
        Seq::new(self.n_bits as nat, |i: int| seq_bit(self.words@, i))
    }

    /// The words hold exactly the positions below the capacity.
    pub closed spec fn wf(&self) -> bool {
        &&& self.n_bits + 63 <= usize::MAX
        &&& self.words@.len() == words_for(self.n_bits as nat)
        &&& 64 * self.words@.len() <= usize::MAX
        &&& forall|i: int|
            self.n_bits <= i < 64 * self.words@.len() ==> !seq_bit(self.words@, i)
    }

    proof fn lemma_ones(&self)
        requires
            self.wf(),
        ensures
            ones(self.bits()) == positions_below(self.words@, (64 * self.words@.len()) as nat),
            self.n_bits <= 64 * self.words@.len(),
            64 * self.words@.len() <= usize::MAX,
    {
        lemma_ones_positions(self.bits(), self.words@, self.n_bits as nat);
        lemma_positions_stable(
            self.words@,
            self.n_bits as nat,
            (64 * self.words@.len()) as nat,
        );
    }

    /// A zeroed bitmap of `n_bits` positions, rounded up internally to
    /// whole words.
    pub fn new(n_bits: usize) -> (r: Self)
        requires
            n_bits <= usize::MAX - 63,
        ensures
            r.wf(),
            r.bits() == Seq::new(n_bits as nat, |i: int| false),
    {
        let n_words = (n_bits + 63) / 64;
        let words = vec![0u64; n_words];
        proof {
            assert forall|i: int| 0 <= i < 64 * n_words implies !seq_bit(words@, i) by {
                assert(0 <= i / 64 < n_words) by (nonlinear_arith)
                    requires
                        0 <= i < 64 * n_words,
                ;
                lemma_bit_zero(i % 64);
            }
        }
        let r = Bitmap64 { words, n_bits };
        assert(r.bits() =~= Seq::new(n_bits as nat, |i: int| false));
        r
    }

    /// Total bit capacity.
    pub fn n_bits(&self) -> (r: usize)
        requires
            self.wf(),
        ensures
            r == self.bits().len(),
    {
        self.n_bits
    }

    /// Number of underlying 64-bit words.
    pub fn n_words(&self) -> (r: usize)
        requires
            self.wf(),
        ensures
            r == words_for(self.bits().len()),
    {
        self.words.len()
    }

    /// Sets position `bit`.
    #[inline]
    pub fn set(&mut self, bit: usize)
        requires
            old(self).wf(),
            bit < old(self).bits().len(),
        ensures
            final(self).wf(),
            final(self).bits() == old(self).bits().update(bit as int, true),
    {
        let w = bit / 64;
        let j = bit % 64;
        let ghost old_words = self.words@;
        let old_word = self.words[w];
        self.words.set(w, old_word | (1u64 << (j as u64)));
        let ghost words = self.words@;
        proof {
            assert forall|i: int| 0 <= i < 64 * words.len() implies seq_bit(words, i) == (i
                == bit || seq_bit(old_words, i)) by {
                if i / 64 == w as int {
                    lemma_bit_or(old_word, 1u64 << (j as u64), i % 64);
                    lemma_bit_single(j as int, i % 64);
                } else {
                    assert(words[i / 64] == old_words[i / 64]);
                }
            }
        }
        assert(self.bits() =~= old(self).bits().update(bit as int, true));
    }

    /// Clears position `bit`.
    #[inline]
    pub fn clear(&mut self, bit: usize)
        requires
            old(self).wf(),
            bit < old(self).bits().len(),
        ensures
            final(self).wf(),
            final(self).bits() == old(self).bits().update(bit as int, false),
    {
        let w = bit / 64;
        let j = bit % 64;
        let ghost old_words = self.words@;
        let old_word = self.words[w];
        self.words.set(w, old_word & !(1u64 << (j as u64)));
        let ghost words = self.words@;
        proof {
            assert forall|i: int| 0 <= i < 64 * words.len() implies seq_bit(words, i) == (i
                != bit && seq_bit(old_words, i)) by {
                if i / 64 == w as int {
                    lemma_bit_and(old_word, !(1u64 << (j as u64)), i % 64);
                    lemma_bit_single(j as int, i % 64);
                } else {
                    assert(words[i / 64] == old_words[i / 64]);
                }
            }
        }
        assert(self.bits() =~= old(self).bits().update(bit as int, false));
    }

    /// Whether position `bit` is set; `false` past the capacity.
    #[inline]
    pub fn test(&self, bit: usize) -> (r: bool)
        requires
            self.wf(),
        ensures
            r == bit_at(self.bits(), bit as int),
    {
        if bit >= self.n_bits {
            return false;
        }
        proof {
            assert(bit / 64 < self.words@.len()) by (nonlinear_arith)
                requires
                    bit < self.n_bits,
                    self.words@.len() == (self.n_bits + 63) / 64,
            ;
        }
        (self.words[bit / 64] >> ((bit % 64) as u64)) & 1u64 == 1u64
    }

    /// Bitwise AND; the result is as long as the shorter operand.
    pub fn and(&self, other: &Bitmap64) -> (r: Bitmap64)
        requires
            self.wf(),
            other.wf(),
        ensures
            r.wf(),
            r.bits() == and_bits(self.bits(), other.bits()),
    {
        let n = if self.words.len() <= other.words.len() {
            self.words.len()
        } else {
            other.words.len()
        };
        let n_bits = if self.n_bits <= other.n_bits {
            self.n_bits
        } else {
            other.n_bits
        };
        let mut words: Vec<u64> = Vec::with_capacity(n);
        let mut i: usize = 0;
        while i < n
            invariant
                i <= n,
                n <= self.words@.len(),
                n <= other.words@.len(),
                words@.len() == i,
                forall|k: int| 0 <= k < i ==> words@[k] == self.words@[k] & other.words@[k],
            decreases n - i,
        {
            words.push(self.words[i] & other.words[i]);
            i = i + 1;
        }
        proof {
            assert(n == words_for(n_bits as nat));
            assert forall|k: int| 0 <= k < 64 * n implies seq_bit(words@, k) == (seq_bit(
                self.words@,
                k,
            ) && seq_bit(other.words@, k)) by {
                assert(0 <= k / 64 < n) by (nonlinear_arith)
                    requires
                        0 <= k < 64 * n,
                ;
                lemma_bit_and(self.words@[k / 64], other.words@[k / 64], k % 64);
            }
        }
        let r = Bitmap64 { words, n_bits };
        assert(r.bits() =~= and_bits(self.bits(), other.bits()));
        r
    }

    /// Bitwise OR; the result is as long as the longer operand.
    pub fn or(&self, other: &Bitmap64) -> (r: Bitmap64)
        requires
            self.wf(),
            other.wf(),
        ensures
            r.wf(),
            r.bits() == or_bits(self.bits(), other.bits()),
    {
        let self_longer = self.words.len() >= other.words.len();
        let long_len = if self_longer {
            self.words.len()
        } else {
            other.words.len()
        };
        let short_len = if self_longer {
            other.words.len()
        } else {
            self.words.len()
        };
        let n_bits = if self.n_bits >= other.n_bits {
            self.n_bits
        } else {
            other.n_bits
        };
        let mut words: Vec<u64> = Vec::with_capacity(long_len);
        let mut i: usize = 0;
        while i < short_len
            invariant
                i <= short_len,
                short_len <= self.words@.len(),
                short_len <= other.words@.len(),
                words@.len() == i,
                forall|k: int| 0 <= k < i ==> words@[k] == self.words@[k] | other.words@[k],
            decreases short_len - i,
        {
            words.push(self.words[i] | other.words[i]);
            i = i + 1;
        }
        while i < long_len
            invariant
                short_len <= i <= long_len,
                long_len == if self_longer {
                    self.words@.len()
                } else {
                    other.words@.len()
                },
                short_len == if self_longer {
                    other.words@.len()
                } else {
                    self.words@.len()
                },
                words@.len() == i,
                forall|k: int|
                    0 <= k < short_len ==> words@[k] == self.words@[k] | other.words@[k],
                forall|k: int|
                    short_len <= k < i ==> words@[k] == if self_longer {
                        self.words@[k]
                    } else {
                        other.words@[k]
                    },
            decreases long_len - i,
        {
            let wv = if self_longer {
                self.words[i]
            } else {
                other.words[i]
            };
            words.push(wv);
            i = i + 1;
        }
        proof {
            assert(long_len == words_for(n_bits as nat));
            assert forall|k: int| 0 <= k < 64 * long_len implies seq_bit(words@, k) == (bit_at(
                self.bits(),
                k,
            ) || bit_at(other.bits(), k)) by {
                assert(0 <= k / 64 < long_len) by (nonlinear_arith)
                    requires
                        0 <= k < 64 * long_len,
                ;
                if k < 64 * self.words@.len() {
                    assert(seq_bit(self.words@, k) == bit_at(self.bits(), k));
                } else {
                    assert(!bit_at(self.bits(), k));
                }
                if k < 64 * other.words@.len() {
                    assert(seq_bit(other.words@, k) == bit_at(other.bits(), k));
                } else {
                    assert(!bit_at(other.bits(), k));
                }
                if k / 64 < short_len {
                    lemma_bit_or(self.words@[k / 64], other.words@[k / 64], k % 64);
                    assert(k < 64 * short_len) by (nonlinear_arith)
                        requires
                            k / 64 < short_len,
                            0 <= k,
                    ;
                } else {
                    assert(k >= 64 * short_len) by (nonlinear_arith)
                        requires
                            k / 64 >= short_len,
                            0 <= k,
                    ;
                    if self_longer {
                        assert(words@[k / 64] == self.words@[k / 64]);
                    } else {
                        assert(words@[k / 64] == other.words@[k / 64]);
                    }
                }
            }
        }
        let r = Bitmap64 { words, n_bits };
        assert(r.bits() =~= or_bits(self.bits(), other.bits()));
        r
    }

    /// Number of set positions.
    pub fn popcount(&self) -> (c: usize)
        requires
            self.wf(),
        ensures
            c == ones(self.bits()).len(),
    {
        proof {
            self.lemma_ones();
        }
        count_positions(self.words.as_slice())
    }

    /// All set positions in ascending order.
    pub fn iter_set_bits(&self) -> (r: Vec<usize>)
        requires
            self.wf(),
        ensures
            r@ == ones(self.bits()),
    {
        proof {
            self.lemma_ones();
        }
        collect_positions(self.words.as_slice())
    }
}

proof fn lemma_ones_positions(b: Seq<bool>, ws: Seq<u64>, m: nat)
    requires
        m <= b.len(),
        forall|i: int| 0 <= i < b.len() ==> b[i] == seq_bit(ws, i),
    ensures
        ones_below(b, m) == positions_below(ws, m),
    decreases m,
{
    if m > 0 {
        lemma_ones_positions(b, ws, (m - 1) as nat);
    }
}

/// Every set position of `b` is set in `acc`.
pub open spec fn covers(acc: Seq<bool>, b: Seq<bool>) -> bool {
    forall|i: int| 0 <= i < b.len() && b[i] ==> bit_at(acc, i)
}

/// One step of [`filter_multi_symbol`]: `acc` is kept as it is when it
/// already covers `b`, and widened by OR otherwise.
pub open spec fn union_step(acc: Seq<bool>, b: Seq<bool>) -> Seq<bool> {
    if covers(acc, b) {
        acc
    } else {
        or_bits(acc, b)
    }
}

/// [`union_step`] applied, from `init`, to the bitmaps `sets[p]` for each
/// `p` of `ps` in order.
pub open spec fn union_over(sets: Seq<Seq<bool>>, ps: Seq<usize>, init: Seq<bool>) -> Seq<bool>
    decreases ps.len(),
{
    if ps.len() == 0 {
        init
    } else {
        union_step(union_over(sets, ps.drop_last(), init), sets[ps.last() as int])
    }
}

proof fn lemma_ones_below_sub(x: Seq<bool>, y: Seq<bool>, m: nat)
    requires
        forall|i: int| 0 <= i < m && bit_at(x, i) ==> bit_at(y, i),
    ensures
        ones_below(x, m).len() <= ones_below(y, m).len(),
        (exists|i: int| 0 <= i < m && bit_at(y, i) && !bit_at(x, i)) ==> ones_below(x, m).len()
            < ones_below(y, m).len(),
    decreases m,
{
    if m > 0 {
        lemma_ones_below_sub(x, y, (m - 1) as nat);
        if exists|i: int| 0 <= i < m && bit_at(y, i) && !bit_at(x, i) {
            let i = choose|i: int| 0 <= i < m && bit_at(y, i) && !bit_at(x, i);
            if i < m - 1 {
                assert(exists|i: int| 0 <= i < m - 1 && bit_at(y, i) && !bit_at(x, i));
            }
        }
    }
}

proof fn lemma_ones_below_agree(x: Seq<bool>, y: Seq<bool>, m: nat)
    requires
        forall|i: int| 0 <= i < m ==> bit_at(x, i) == bit_at(y, i),
    ensures
        ones_below(x, m) == ones_below(y, m),
    decreases m,
{
    if m > 0 {
        lemma_ones_below_agree(x, y, (m - 1) as nat);
    }
}

proof fn lemma_ones_below_past_end(x: Seq<bool>, m: nat)
    requires
        x.len() <= m,
    ensures
        ones_below(x, m) == ones(x),
    decreases m,
{
    if m > x.len() {
        lemma_ones_below_past_end(x, (m - 1) as nat);
    }
}

/// `b` and its AND with `acc` have equally many set positions exactly when
/// `acc` covers `b`.
proof fn lemma_covers_count(acc: Seq<bool>, b: Seq<bool>)
    ensures
        (ones(and_bits(b, acc)).len() == ones(b).len()) == covers(acc, b),
{
    let x = and_bits(b, acc);
    lemma_ones_below_past_end(x, b.len());
    lemma_ones_below_sub(x, b, b.len());
    if covers(acc, b) {
        lemma_ones_below_agree(x, b, b.len());
    } else {
        let i = choose|i: int| 0 <= i < b.len() && b[i] && !bit_at(acc, i);
        assert(bit_at(b, i) && !bit_at(x, i));
    }
}

proof fn lemma_union_over_membership(
    sets: Seq<Seq<bool>>,
    ps: Seq<usize>,
    init: Seq<bool>,
    i: int,
)
    ensures
        bit_at(union_over(sets, ps, init), i) == (bit_at(init, i) || exists|j: int|
            0 <= j < ps.len() && bit_at(#[trigger] sets[ps[j] as int], i)),
    decreases ps.len(),
{
    if ps.len() > 0 {
        let prev = ps.drop_last();
        lemma_union_over_membership(sets, prev, init, i);
        let acc = union_over(sets, prev, init);
        let b = sets[ps.last() as int];
        if exists|j: int| 0 <= j < prev.len() && bit_at(#[trigger] sets[prev[j] as int], i) {
            let j = choose|j: int| 0 <= j < prev.len() && bit_at(#[trigger] sets[prev[j] as int], i);
            assert(ps[j] == prev[j]);
        }
        if exists|j: int| 0 <= j < ps.len() && bit_at(#[trigger] sets[ps[j] as int], i) {
            let j = choose|j: int| 0 <= j < ps.len() && bit_at(#[trigger] sets[ps[j] as int], i);
            if j < prev.len() {
                assert(ps[j] == prev[j]);
            }
        }
    }
}

/// Scans `buf` and records the range of each of the first `max_messages`
/// messages, reading each non-empty message's stock field through
/// `stock_at`. The returned bitmap has `max_messages` positions, all clear.
pub fn build_stock_bitmap<F>(buf: &[u8], max_messages: usize, stock_at: F) -> (r: (
    Bitmap64,
    Vec<(usize, usize)>,
)) where F: Fn(&[u8]) -> [u8; 8]
    requires
        max_messages + 63 <= usize::MAX,
        forall|s: &[u8]| stock_at.requires((s,)),
    ensures
        r.0.wf(),
        r.0.bits() == Seq::new(max_messages as nat, |i: int| false),
        r.1@ == first_frames(buf@, max_messages as nat),
{
    let bitmap = Bitmap64::new(max_messages);
    let mut offsets: Vec<(usize, usize)> = Vec::new();
    let len = buf.len();
    let mut pos: usize = 0;
    let mut msg_idx: usize = 0;
    while 2 <= len - pos && msg_idx < max_messages
        invariant
            pos <= len,
            len == buf@.len(),
            msg_idx == offsets@.len(),
            msg_idx <= max_messages,
            forall|s: &[u8]| stock_at.requires((s,)),
            offsets@ + frames_from(buf@, pos as int) == frames(buf@),
        ensures
            msg_idx == max_messages || frames_from(buf@, pos as int) == Seq::<
                (usize, usize),
            >::empty(),
        decreases len - pos,
    {
        let msg_len = read_len_prefix(buf, pos);
        let msg_start = pos + 2;
        if msg_len > len - msg_start {
            assert(frames_from(buf@, pos as int) =~= Seq::<(usize, usize)>::empty());
            break;
        }
        let msg_end = msg_start + msg_len;
        let ghost old_offsets = offsets@;
        if msg_len > 0 {
            let _stock = stock_at(&buf[msg_start..msg_end]);
        }
        offsets.push((msg_start, msg_end));
        assert(old_offsets + frames_from(buf@, pos as int) =~= offsets@ + frames_from(
            buf@,
            msg_end as int,
        ));
        pos = msg_end;
        msg_idx = msg_idx + 1;
    }
    proof {
        let fr = frames(buf@);
        if msg_idx == max_messages {
            assert(offsets@ =~= fr.take(max_messages as int));
        } else {
            assert(offsets@ =~= fr);
        }
    }
    (bitmap, offsets)
}

/// Multi-symbol filtering: for each symbol index set in `symbol_filter`
/// (ascending, stopping at the first index with no bitmap), ORs that
/// symbol's message bitmap into the result, skipping the OR when the result
/// already holds all of its messages. The result starts empty, as wide as
/// the first per-symbol bitmap.
pub fn filter_multi_symbol(symbol_filter: &Bitmap64, per_symbol_bitmaps: &[Bitmap64]) -> (r:
    Bitmap64)
    requires
        symbol_filter.wf(),
        forall|k: int| 0 <= k < per_symbol_bitmaps@.len() ==> (#[trigger] per_symbol_bitmaps@[k]).wf(),
    ensures
        r.wf(),
        ({
            let ps = ones(symbol_filter.bits());
            let k = leading_below(ps, per_symbol_bitmaps@.len());
            let sets = per_symbol_bitmaps@.map_values(|b: Bitmap64| b.bits());
            let n0 = if per_symbol_bitmaps@.len() > 0 {
                per_symbol_bitmaps@[0].bits().len()
            } else {
                0
            };
            &&& r.bits() == union_over(sets, ps.take(k as int), Seq::new(n0, |i: int| false))
            &&& forall|i: int|
                bit_at(r.bits(), i) == exists|j: int|
                    0 <= j < k && bit_at(#[trigger] sets[ps[j] as int], i)
        }),
{
    let ghost sets = per_symbol_bitmaps@.map_values(|b: Bitmap64| b.bits());
    let n_bits = if per_symbol_bitmaps.len() > 0 {
        per_symbol_bitmaps[0].n_bits()
    } else {
        0
    };
    let ghost init = Seq::new(n_bits as nat, |i: int| false);
    proof {
        if per_symbol_bitmaps@.len() > 0 {
            assert(per_symbol_bitmaps@[0].wf());
        }
    }
    let mut result = Bitmap64::new(n_bits);
    let ps = symbol_filter.iter_set_bits();
    let n = ps.len();
    let mut i: usize = 0;
    let mut done = false;
    while i < n && !done
        invariant
            i <= n,
            n == ps@.len(),
            done ==> i < n && ps@[i as int] >= per_symbol_bitmaps@.len(),
            ps@ == ones(symbol_filter.bits()),
            sets == per_symbol_bitmaps@.map_values(|b: Bitmap64| b.bits()),
            forall|k: int|
                0 <= k < per_symbol_bitmaps@.len() ==> (#[trigger] per_symbol_bitmaps@[k]).wf(),
            forall|j: int| 0 <= j < i ==> ps@[j] < per_symbol_bitmaps@.len(),
            result.wf(),
            result.bits() == union_over(sets, ps@.take(i as int), init),
        decreases n - i + (if done { 0int } else { 1int }),
    {
        let sym_idx = ps[i];
        if sym_idx >= per_symbol_bitmaps.len() {
            done = true;
        } else {
            let sym = &per_symbol_bitmaps[sym_idx];
            let match_bits = sym.and(&result);
            proof {
                lemma_covers_count(result.bits(), sym.bits());
                assert(ps@.take(i + 1).drop_last() =~= ps@.take(i as int));
                assert(sets[sym_idx as int] == sym.bits());
            }
            if match_bits.popcount() != sym.popcount() {
                result = result.or(sym);
            }
            i = i + 1;
        }
    }
    proof {
        crate::parser::bitmap_filter::lemma_leading_below(
            ps@,
            per_symbol_bitmaps@.len(),
            i as int,
        );
        let k = leading_below(ps@, per_symbol_bitmaps@.len());
        assert forall|x: int|
            bit_at(result.bits(), x) == exists|j: int|
                0 <= j < k && bit_at(#[trigger] sets[ps@[j] as int], x) by {
            lemma_union_over_membership(sets, ps@.take(k as int), init, x);
            if exists|j: int| 0 <= j < k && bit_at(#[trigger] sets[ps@[j] as int], x) {
                let j = choose|j: int| 0 <= j < k && bit_at(#[trigger] sets[ps@[j] as int], x);
                assert(ps@.take(k as int)[j] == ps@[j]);
            }
            if exists|j: int|
                0 <= j < ps@.take(k as int).len() && bit_at(
                    #[trigger] sets[ps@.take(k as int)[j] as int],
                    x,
                ) {
                let j = choose|j: int|
                    0 <= j < ps@.take(k as int).len() && bit_at(
                        #[trigger] sets[ps@.take(k as int)[j] as int],
                        x,
                    );
                assert(ps@.take(k as int)[j] == ps@[j]);
            }
        }
    }
    result
}

} // verus!
