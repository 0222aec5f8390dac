//! Byte-level layout of an ITCH stream: big-endian fields and the
//! two-byte length prefix that frames every message.

use vstd::prelude::*;

verus! {

/// Value of the `n` bytes of `s` that start at `start`, read big-endian.
pub open spec fn be(s: Seq<u8>, start: int, n: nat) -> nat
    decreases n,
{
    if n == 0 {
        0
    } else {
        be(s, start, (n - 1) as nat) * 256 + s[start + n - 1] as nat
    }
}

/// `256` raised to `n`.
pub open spec fn pow256(n: nat) -> nat
    decreases n,
{
    if n == 0 {
        1
    } else {
        256 * pow256((n - 1) as nat)
    }
}

/// A big-endian value of `n` bytes is below `256^n`.
pub proof fn lemma_be_bound(s: Seq<u8>, start: int, n: nat)
    ensures
        be(s, start, n) < pow256(n),
    decreases n,
{
    if n > 0 {
        lemma_be_bound(s, start, (n - 1) as nat);
        let prev = be(s, start, (n - 1) as nat);
        let b = s[start + n - 1] as nat;
        let p = pow256((n - 1) as nat);
        assert(prev * 256 + b < 256 * p) by (nonlinear_arith)
            requires
                prev < p,
                b < 256,
        ;
    }
}

pub proof fn lemma_pow256_values()
    ensures
        pow256(2) == 0x1_0000,
        pow256(4) == 0x1_0000_0000,
        pow256(6) == 0x1_0000_0000_0000,
        pow256(8) == 0x1_0000_0000_0000_0000,
{
    reveal_with_fuel(pow256, 9);
}

/// Reads `n` bytes of `buf` at `start` as a big-endian integer, one byte at a time.
pub fn read_be(buf: &[u8], start: usize, n: usize) -> (v: u64)
    requires
        n <= 8,
        start + n <= buf@.len(),
    ensures
        v == be(buf@, start as int, n as nat),
{
    let len = buf.len();
    let mut val: u64 = 0;
    let mut i: usize = 0;
    while i < n
        invariant
            len == buf@.len(),
            i <= n,
            n <= 8,
            start + n <= buf@.len(),
            val == be(buf@, start as int, i as nat),
        decreases n - i,
    {
        proof {
            lemma_be_bound(buf@, start as int, i as nat);
            lemma_pow256_values();
            lemma_pow256_mono(i as nat, 7);
        }
        val = val * 256 + buf[start + i] as u64;
        i = i + 1;
    }
    val
}

pub proof fn lemma_pow256_mono(a: nat, b: nat)
    requires
        a <= b,
    ensures
        pow256(a) <= pow256(b),
    decreases b,
{
    if a < b {
        lemma_pow256_mono(a, (b - 1) as nat);
    }
}

/// The `(start, end)` byte ranges of the length-prefixed messages found in
/// `s` when scanning from `pos`: each message is preceded by a two-byte
/// big-endian length, and the scan stops at the first prefix or body that
/// does not fit in the buffer.
pub open spec fn frames_from(s: Seq<u8>, pos: int) -> Seq<(usize, usize)>
    decreases s.len() - pos,
{
    if pos < 0 || pos + 2 > s.len() {
        Seq::empty()
    } else {
        let end = pos + 2 + be(s, pos, 2);
        if end > s.len() {
            Seq::empty()
        } else {
            seq![((pos + 2) as usize, end as usize)] + frames_from(s, end)
        }
    }
}

/// All message ranges of a stream.
pub open spec fn frames(s: Seq<u8>) -> Seq<(usize, usize)> {
    frames_from(s, 0)
}

/// The first `cap` message ranges of a stream (all of them when there are
/// fewer).
pub open spec fn first_frames(s: Seq<u8>, cap: nat) -> Seq<(usize, usize)> {
    if frames(s).len() <= cap {
        frames(s)
    } else {
        frames(s).take(cap as int)
    }
}

/// Every range produced by the scan lies inside the buffer, in order.
pub proof fn lemma_frames_in_bounds(s: Seq<u8>, pos: int)
    requires
        0 <= pos,
        s.len() <= usize::MAX,
    ensures
        forall|i: int|
            0 <= i < frames_from(s, pos).len() ==> {
                let f = #[trigger] frames_from(s, pos)[i];
                pos + 2 <= f.0 <= f.1 <= s.len()
            },
    decreases s.len() - pos,
{
    if pos + 2 <= s.len() {
        let end = pos + 2 + be(s, pos, 2);
        if end <= s.len() {
            lemma_frames_in_bounds(s, end);
            let rest = frames_from(s, end);
            let all = frames_from(s, pos);
            assert forall|i: int| 0 <= i < all.len() implies {
                let f = #[trigger] all[i];
                pos + 2 <= f.0 <= f.1 <= s.len()
            } by {
                if i > 0 {
                    assert(all[i] == rest[i - 1]);
                }
            }
        }
    }
}

/// Reads the two-byte big-endian length prefix at `pos`.
pub fn read_len_prefix(buf: &[u8], pos: usize) -> (v: usize)
    requires
        pos + 2 <= buf@.len(),
    ensures
        v == be(buf@, pos as int, 2),
        v <= 0xffff,
{
    let hi = buf[pos] as usize;
    let lo = buf[pos + 1] as usize;
    proof {
        reveal_with_fuel(be, 3);
    }
    hi * 256 + lo
}

/// The array of width 8 whose contents are the bytes of `s` at `start..start + 8`.
pub open spec fn arr8(s: Seq<u8>, start: int) -> [u8; 8] {
    choose|a: [u8; 8]| a@ == s.subrange(start, start + 8)
}

/// The array of width 4 whose contents are the bytes of `s` at `start..start + 4`.
pub open spec fn arr4(s: Seq<u8>, start: int) -> [u8; 4] {
    choose|a: [u8; 4]| a@ == s.subrange(start, start + 4)
}

pub proof fn lemma_arr8(a: [u8; 8], s: Seq<u8>, start: int)
    requires
        a@ == s.subrange(start, start + 8),
    ensures
        a == arr8(s, start),
{
    broadcast use vstd::array::group_array_axioms;
    let c = arr8(s, start);
    assert(c@ == s.subrange(start, start + 8));
    assert(c =~= a);
}

pub proof fn lemma_arr4(a: [u8; 4], s: Seq<u8>, start: int)
    requires
        a@ == s.subrange(start, start + 4),
    ensures
        a == arr4(s, start),
{
    broadcast use vstd::array::group_array_axioms;
    let c = arr4(s, start);
    assert(c@ == s.subrange(start, start + 4));
    assert(c =~= a);
}

} // verus!
