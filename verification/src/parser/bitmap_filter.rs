//! Bitmap-based late materialization for ITCH message filtering.
//!
//! Pass 1 scans the stream and marks, in a 512-bit bitmap, the messages whose
//! type byte matches a target; pass 2 decodes only the marked messages.

use vstd::prelude::*;
use crate::parser::bits::{
    collect_positions, count_positions, lemma_bit_or, lemma_bit_single, lemma_bit_zero,
    lemma_positions_facts, positions_below, seq_bit, word_bit,
};
use crate::parser::layout::{first_frames, frames, frames_from, lemma_frames_in_bounds, read_len_prefix};
use crate::parser::naive::{decode_message, Message};
use crate::parser::optimized::parse_one;

verus! {

/// Number of messages a [`MsgBitmap`] can mark.
pub const MSG_BITMAP_BITS: usize = 512;

/// Fixed-width bitmap for message selection: 8 words of 64 bits.
#[derive(Clone, Debug)]
pub struct MsgBitmap {
    words: [u64; 8],
}

impl MsgBitmap {
    /// Whether bit `i` (0..512) is set.
    pub closed spec fn bit(&self, i: int) -> bool {
        seq_bit(self.words@, i)
    }

    /// The set bits in ascending order.
    pub closed spec fn set_positions(&self) -> Seq<usize> {
        positions_below(self.words@, 512)
    }

    /// The set bits, as a set of positions.
    pub open spec fn set_bits(&self) -> Set<usize> {
        Set::new(|p: usize| p < 512 && self.bit(p as int))
    }

    /// The set positions are listed in ascending order, each exactly once,
    /// and a position is listed exactly when its bit is set; so there are
    /// as many listed positions as set bits.
    pub proof fn lemma_set_positions(&self)
        ensures
            forall|a: int, b: int|
                0 <= a < b < self.set_positions().len() ==> #[trigger] self.set_positions()[a]
                    < #[trigger] self.set_positions()[b],
            forall|p: usize| #[trigger]
                self.set_positions().contains(p) <==> (p < 512 && self.bit(p as int)),
            self.set_bits().finite(),
            self.set_positions().len() == self.set_bits().len(),
    {
        let ps = self.set_positions();
        lemma_positions_facts(self.words@, 512);
        assert forall|p: usize| #[trigger] ps.contains(p) <==> (p < 512 && self.bit(p as int)) by {
            if ps.contains(p) {
                let a = choose|a: int| 0 <= a < ps.len() && ps[a] == p;
                assert(ps[a] < 512 && seq_bit(self.words@, ps[a] as int));
            }
            if p < 512 && self.bit(p as int) {
                assert(ps.contains((p as int) as usize));
            }
        }
        assert(ps.no_duplicates()) by {
            assert forall|a: int, b: int| 0 <= a < ps.len() && 0 <= b < ps.len() && a != b implies ps[a]
                != ps[b] by {
                if a < b {
                    assert(ps[a] < ps[b]);
                } else {
                    assert(ps[b] < ps[a]);
                }
            }
        }
        ps.unique_seq_to_set();
        assert(ps.to_set() =~= self.set_bits());
    }

    /// A bitmap with every bit clear.
    pub fn zeroed() -> (r: Self)
        ensures
            forall|i: int| 0 <= i < 512 ==> !r.bit(i),
    {
        let r = Self { words: [0u64; 8] };
        proof {
            assert forall|i: int| 0 <= i < 512 implies !r.bit(i) by {
                assert(r.words@[i / 64] == 0u64);
                lemma_bit_zero(i % 64);
            }
        }
        r
    }

    /// Sets bit `bit`.
    #[inline]
    pub fn set(&mut self, bit: usize)
        requires
            bit < 512,
        ensures
            forall|i: int| 0 <= i < 512 ==> final(self).bit(i) == (i == bit || old(self).bit(i)),
    {
        let w = bit / 64;
        let j = bit % 64;
        let old_word = self.words[w];
        self.words[w] = old_word | (1u64 << (j as u64));
        proof {
            assert forall|i: int| 0 <= i < 512 implies self.bit(i) == (i == bit || old(self).bit(i)) by {
                if i / 64 == w as int {
                    lemma_bit_or(old_word, 1u64 << (j as u64), i % 64);
                    lemma_bit_single(j as int, i % 64);
                } else {
                    assert(self.words@[i / 64] == old(self).words@[i / 64]);
                }
            }
        }
    }

    /// Whether bit `bit` is set.
    #[inline]
    pub fn get(&self, bit: usize) -> (r: bool)
        requires
            bit < 512,
        ensures
            r == self.bit(bit as int),
    {
        (self.words[bit / 64] >> ((bit % 64) as u64)) & 1u64 == 1u64
    }

    /// Number of set bits.
    pub fn popcount(&self) -> (c: usize)
        ensures
            c == self.set_positions().len(),
    {
        count_positions(self.words.as_slice())
    }

    /// Positions of all set bits, in ascending order.
    pub fn iter_set_bits(&self) -> (r: Vec<usize>)
        ensures
            r@ == self.set_positions(),
    {
        collect_positions(self.words.as_slice())
    }
}

/// Whether the message framed at `f` is non-empty and starts with `target_type`.
pub open spec fn frame_has_type(s: Seq<u8>, f: (usize, usize), target_type: u8) -> bool {
    f.0 < f.1 && s[f.0 as int] == target_type
}

/// The frames that pass 1 records: at most [`MSG_BITMAP_BITS`] of them.
pub open spec fn scanned_frames(s: Seq<u8>) -> Seq<(usize, usize)> {
    first_frames(s, 512)
}

/// First pass: reads only each length prefix and type byte. Returns a bitmap
/// with bit `i` set when message `i` has type `target_type`, and the
/// `(start, end)` range of every scanned message.
pub fn evaluate_msg_type(buf: &[u8], target_type: u8) -> (r: (MsgBitmap, Vec<(usize, usize)>))
    ensures
        r.1@ == scanned_frames(buf@),
        forall|i: int|
            0 <= i < 512 ==> r.0.bit(i) == (i < r.1@.len() && frame_has_type(
                buf@,
                r.1@[i],
                target_type,
            )),
{
    let mut bitmap = MsgBitmap::zeroed();
    let mut offsets: Vec<(usize, usize)> = Vec::new();
    let len = buf.len();
    let mut pos: usize = 0;
    let mut msg_idx: usize = 0;
    while 2 <= len - pos && msg_idx < MSG_BITMAP_BITS
        invariant
            pos <= len,
            len == buf@.len(),
            msg_idx == offsets@.len(),
            msg_idx <= 512,
            offsets@ + frames_from(buf@, pos as int) == frames(buf@),
            forall|i: int|
                0 <= i < 512 ==> bitmap.bit(i) == (i < msg_idx && frame_has_type(
                    buf@,
                    offsets@[i],
                    target_type,
                )),
        ensures
            msg_idx == 512 || frames_from(buf@, pos as int) == Seq::<(usize, usize)>::empty(),
        decreases len - pos,
    {
        let msg_len = read_len_prefix(buf, pos);
        let msg_start = pos + 2;
        if msg_len > len - msg_start {
            assert(frames_from(buf@, pos as int) =~= Seq::<(usize, usize)>::empty());
            break;
        }
        let msg_end = msg_start + msg_len;
        let ghost old_offsets = offsets@;
        let ghost old_bitmap = bitmap;
        if msg_len > 0 && buf[msg_start] == target_type {
            bitmap.set(msg_idx);
        }
        offsets.push((msg_start, msg_end));
        proof {
            assert(old_offsets + frames_from(buf@, pos as int) =~= offsets@ + frames_from(
                buf@,
                msg_end as int,
            ));
            assert forall|i: int|
                0 <= i < 512 implies bitmap.bit(i) == (i < msg_idx + 1 && frame_has_type(
                buf@,
                offsets@[i],
                target_type,
            )) by {
                if i < msg_idx {
                    assert(offsets@[i] == old_offsets[i]);
                }
            }
        }
        pos = msg_end;
        msg_idx = msg_idx + 1;
    }
    proof {
        let fr = frames(buf@);
        if msg_idx == 512 {
            assert(offsets@ =~= fr.take(512));
        } else {
            assert(offsets@ =~= fr);
        }
    }
    (bitmap, offsets)
}

/// Number of leading entries of `ps` that are below `n`.
pub open spec fn leading_below(ps: Seq<usize>, n: nat) -> nat
    decreases ps.len(),
{
    if ps.len() == 0 || ps[0] >= n {
        0
    } else {
        1 + leading_below(ps.drop_first(), n)
    }
}

/// The messages named by the indices `ps` into `offsets`, decoded from
/// `s`, each paired with its start offset; those that do not decode are
/// skipped.
pub open spec fn decode_selected(
    s: Seq<u8>,
    ps: Seq<usize>,
    offsets: Seq<(usize, usize)>,
) -> Seq<(Message, usize)>
    decreases ps.len(),
{
    if ps.len() == 0 {
        Seq::empty()
    } else {
        let rest = decode_selected(s, ps.drop_last(), offsets);
        let f = offsets[ps.last() as int];
        match decode_message(s.subrange(f.0 as int, f.1 as int)) {
            Some((m, _)) => rest.push((m, f.0)),
            None => rest,
        }
    }
}

pub(crate) proof fn lemma_leading_below(ps: Seq<usize>, n: nat, i: int)
    requires
        0 <= i <= ps.len(),
        forall|j: int| 0 <= j < i ==> ps[j] < n,
        i == ps.len() || ps[i] >= n,
    ensures
        leading_below(ps, n) == i,
    decreases ps.len(),
{
    if ps.len() > 0 && i > 0 {
        lemma_leading_below(ps.drop_first(), n, i - 1);
    }
}

/// Second pass: decodes, in ascending bit order, the messages whose bit is
/// set, stopping at the first bit with no recorded range.
pub fn filter_messages(buf: &[u8], bitmap: &MsgBitmap, offsets: &[(usize, usize)]) -> (r: Vec<
    (Message, usize),
>)
    requires
        forall|i: int|
            0 <= i < offsets@.len() ==> #[trigger] offsets@[i].0 <= offsets@[i].1 <= buf@.len(),
    ensures
        r@ == decode_selected(
            buf@,
            bitmap.set_positions().take(
                leading_below(bitmap.set_positions(), offsets@.len()) as int,
            ),
            offsets@,
        ),
{
    let ps = bitmap.iter_set_bits();
    let mut results: Vec<(Message, usize)> = Vec::with_capacity(bitmap.popcount());
    let n = ps.len();
    let mut i: usize = 0;
    while i < n
        invariant
            i <= n,
            n == ps@.len(),
            ps@ == bitmap.set_positions(),
            forall|j: int|
                0 <= j < offsets@.len() ==> #[trigger] offsets@[j].0 <= offsets@[j].1 <= buf@.len(),
            forall|j: int| 0 <= j < i ==> ps@[j] < offsets@.len(),
            results@ == decode_selected(buf@, ps@.take(i as int), offsets@),
        decreases n - i,
    {
        let bit_idx = ps[i];
        if bit_idx >= offsets.len() {
            proof {
                lemma_leading_below(ps@, offsets@.len(), i as int);
            }
            return results;
        }
        let (msg_start, msg_end) = offsets[bit_idx];
        let ghost before = results@;
        match parse_one(&buf[msg_start..msg_end]) {
            Some((msg, _)) => {
                results.push((msg, msg_start));
            },
            None => {},
        }
        proof {
            assert(ps@.take(i + 1).drop_last() =~= ps@.take(i as int));
        }
        i = i + 1;
    }
    proof {
        lemma_leading_below(ps@, offsets@.len(), n as int);
        assert(ps@.take(n as int) =~= ps@);
    }
    results
}

/// The messages among `fr` that have type `target_type` and decode, in
/// order, each paired with its start offset.
pub open spec fn select_frames(s: Seq<u8>, fr: Seq<(usize, usize)>, target_type: u8) -> Seq<
    (Message, usize),
>
    decreases fr.len(),
{
    if fr.len() == 0 {
        Seq::empty()
    } else {
        let rest = select_frames(s, fr.drop_last(), target_type);
        let f = fr.last();
        if frame_has_type(s, f, target_type) {
            match decode_message(s.subrange(f.0 as int, f.1 as int)) {
                Some((m, _)) => rest.push((m, f.0)),
                None => rest,
            }
        } else {
            rest
        }
    }
}

proof fn lemma_select_matches(
    s: Seq<u8>,
    bitmap: MsgBitmap,
    offsets: Seq<(usize, usize)>,
    target_type: u8,
    m: nat,
)
    requires
        offsets.len() <= 512,
        m <= offsets.len(),
        forall|i: int|
            0 <= i < 512 ==> bitmap.bit(i) == (i < offsets.len() && frame_has_type(
                s,
                offsets[i],
                target_type,
            )),
    ensures
        decode_selected(s, positions_below(bitmap.words@, m), offsets) == select_frames(
            s,
            offsets.take(m as int),
            target_type,
        ),
    decreases m,
{
    if m > 0 {
        lemma_select_matches(s, bitmap, offsets, target_type, (m - 1) as nat);
        assert(offsets.take(m as int).drop_last() =~= offsets.take(m - 1));
        let ps = positions_below(bitmap.words@, m);
        assert(bitmap.bit(m - 1) == frame_has_type(s, offsets[m - 1], target_type));
        assert(offsets.take(m as int).last() == offsets[m - 1]);
        if seq_bit(bitmap.words@, m - 1) {
            assert(ps.drop_last() =~= positions_below(bitmap.words@, (m - 1) as nat));
        }
    }
}

/// Both passes in one call: the messages of the first 512 that have type
/// `target_type`, decoded, each with its start offset.
pub fn filter_by_type(buf: &[u8], target_type: u8) -> (r: Vec<(Message, usize)>)
    ensures
        r@ == select_frames(buf@, scanned_frames(buf@), target_type),
{
    let (bitmap, offsets) = evaluate_msg_type(buf, target_type);
    let len = buf.len();
    proof {
        assert(len == buf@.len());
        lemma_frames_in_bounds(buf@, 0);
        let ps = bitmap.set_positions();
        lemma_positions_facts(bitmap.words@, 512);
        assert forall|k: int| 0 <= k < ps.len() implies ps[k] < offsets@.len() by {
            assert(bitmap.bit(ps[k] as int));
        }
        lemma_leading_below(ps, offsets@.len(), ps.len() as int);
        assert(ps.take(ps.len() as int) =~= ps);
        lemma_select_matches(buf@, bitmap, offsets@, target_type, offsets@.len());
        lemma_positions_facts(bitmap.words@, offsets@.len());
        assert forall|i: int| offsets@.len() <= i < 512 implies !seq_bit(bitmap.words@, i) by {
            assert(!bitmap.bit(i));
        }
        crate::parser::bits::lemma_positions_stable(bitmap.words@, offsets@.len(), 512);
        assert(offsets@.take(offsets@.len() as int) =~= offsets@);
    }
    filter_messages(buf, &bitmap, offsets.as_slice())
}

} // verus!
