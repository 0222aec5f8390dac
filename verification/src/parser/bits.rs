//! Bit-level view of a run of 64-bit words: bit `i` lives in word `i / 64`
//! at position `i % 64`.

use vstd::prelude::*;

verus! {

/// Bit `j` (0..64) of `w`.
pub open spec fn word_bit(w: u64, j: int) -> bool {
    (w >> (j as u64)) & 1u64 == 1u64
}

/// Bit `i` of the word run `ws`.
pub open spec fn seq_bit(ws: Seq<u64>, i: int) -> bool {
    word_bit(ws[i / 64], i % 64)
}

/// The positions below `m` whose bit is set in `ws`, in ascending order.
pub open spec fn positions_below(ws: Seq<u64>, m: nat) -> Seq<usize>
    decreases m,
{
    if m == 0 {
        Seq::empty()
    } else {
        let rest = positions_below(ws, (m - 1) as nat);
        if seq_bit(ws, m - 1) {
            rest.push((m - 1) as usize)
        } else {
            rest
        }
    }
}

pub proof fn lemma_bit_or(a: u64, b: u64, k: int)
    requires
        0 <= k < 64,
    ensures
        word_bit(a | b, k) == (word_bit(a, k) || word_bit(b, k)),
{
    let kk = k as u64;
    assert(((a | b) >> kk) & 1u64 == 1u64 <==> ((a >> kk) & 1u64 == 1u64 || (b >> kk) & 1u64
        == 1u64)) by (bit_vector);
}

pub proof fn lemma_bit_and(a: u64, b: u64, k: int)
    requires
        0 <= k < 64,
    ensures
        word_bit(a & b, k) == (word_bit(a, k) && word_bit(b, k)),
{
    let kk = k as u64;
    assert(((a & b) >> kk) & 1u64 == 1u64 <==> ((a >> kk) & 1u64 == 1u64 && (b >> kk) & 1u64
        == 1u64)) by (bit_vector);
}

pub proof fn lemma_bit_single(j: int, k: int)
    requires
        0 <= j < 64,
        0 <= k < 64,
    ensures
        word_bit(1u64 << (j as u64), k) == (j == k),
        word_bit(!(1u64 << (j as u64)), k) == (j != k),
{
    let jj = j as u64;
    let kk = k as u64;
    assert(jj < 64 && kk < 64 ==> ((((1u64 << jj) >> kk) & 1u64 == 1u64) <==> jj == kk))
        by (bit_vector);
    assert(jj < 64 && kk < 64 ==> ((((!(1u64 << jj)) >> kk) & 1u64 == 1u64) <==> jj != kk))
        by (bit_vector);
}

pub proof fn lemma_bit_zero(k: int)
    requires
        0 <= k < 64,
    ensures
        !word_bit(0u64, k),
{
    let kk = k as u64;
    assert((0u64 >> kk) & 1u64 == 0u64) by (bit_vector);
}

/// Bits of `ws` below `m` are those of `vs` when the two agree there.
pub proof fn lemma_positions_agree(ws: Seq<u64>, vs: Seq<u64>, m: nat)
    requires
        forall|i: int| 0 <= i < m ==> seq_bit(ws, i) == seq_bit(vs, i),
    ensures
        positions_below(ws, m) == positions_below(vs, m),
    decreases m,
{
    if m > 0 {
        lemma_positions_agree(ws, vs, (m - 1) as nat);
    }
}

/// No position at or above `n` is set: the positions below any `m >= n`
/// are those below `n`.
pub proof fn lemma_positions_stable(ws: Seq<u64>, n: nat, m: nat)
    requires
        n <= m,
        forall|i: int| n <= i < m ==> !seq_bit(ws, i),
    ensures
        positions_below(ws, m) == positions_below(ws, n),
    decreases m,
{
    if m > n {
        lemma_positions_stable(ws, n, (m - 1) as nat);
    }
}

/// The positions are strictly increasing, below `m`, set, and every set
/// position below `m` is among them.
pub proof fn lemma_positions_facts(ws: Seq<u64>, m: nat)
    requires
        m <= usize::MAX,
    ensures
        forall|a: int, b: int|
            0 <= a < b < positions_below(ws, m).len() ==> positions_below(ws, m)[a]
                < positions_below(ws, m)[b],
        forall|a: int|
            0 <= a < positions_below(ws, m).len() ==> positions_below(ws, m)[a] < m && seq_bit(
                ws,
                positions_below(ws, m)[a] as int,
            ),
        forall|i: int|
            0 <= i < m && seq_bit(ws, i) ==> #[trigger] positions_below(ws, m).contains(
                i as usize,
            ),
        positions_below(ws, m).len() <= m,
    decreases m,
{
    if m > 0 {
        lemma_positions_facts(ws, (m - 1) as nat);
        let rest = positions_below(ws, (m - 1) as nat);
        let all = positions_below(ws, m);
        assert forall|a: int|
            0 <= a < all.len() implies all[a] < m && seq_bit(ws, all[a] as int) by {
            if a < rest.len() {
                assert(all[a] == rest[a]);
            }
        }
        assert forall|a: int, b: int| 0 <= a < b < all.len() implies all[a] < all[b] by {
            if b < rest.len() {
                assert(all[a] == rest[a]);
                assert(all[b] == rest[b]);
            } else {
                assert(all[a] == rest[a]);
            }
        }
        assert forall|i: int| 0 <= i < m && seq_bit(ws, i) implies #[trigger] all.contains(
            i as usize,
        ) by {
            if i < m - 1 {
                assert(rest.contains(i as usize));
                let k = choose|k: int| 0 <= k < rest.len() && rest[k] == i as usize;
                assert(all[k] == i as usize);
            } else {
                assert(all[all.len() - 1] == i as usize);
            }
        }
    }
}

/// Positions of the set bits among the first `64 * ws.len()` bits.
pub fn collect_positions(ws: &[u64]) -> (r: Vec<usize>)
    requires
        64 * ws@.len() <= usize::MAX,
    ensures
        r@ == positions_below(ws@, (64 * ws@.len()) as nat),
{
    let n = ws.len();
    let mut r: Vec<usize> = Vec::new();
    let mut w: usize = 0;
    while w < n
        invariant
            w <= n,
            n == ws@.len(),
            64 * n <= usize::MAX,
            r@ == positions_below(ws@, (64 * w) as nat),
        decreases n - w,
    {
        let word = ws[w];
        let base = w * 64;
        if word != 0 {
            let mut j: usize = 0;
            while j < 64
                invariant
                    j <= 64,
                    w < n,
                    n == ws@.len(),
                    64 * n <= usize::MAX,
                    base == 64 * w,
                    word == ws@[w as int],
                    r@ == positions_below(ws@, (64 * w + j) as nat),
                decreases 64 - j,
            {
                let bit = (word >> (j as u64)) & 1u64;
                proof {
                    assert((64 * w + j) / 64 == w as int) by (nonlinear_arith)
                        requires
                            j < 64,
                    ;
                    assert((64 * w + j) % 64 == j as int) by (nonlinear_arith)
                        requires
                            j < 64,
                    ;
                }
                if bit == 1u64 {
                    r.push(base + j);
                }
                j = j + 1;
            }
        } else {
            proof {
                assert forall|i: int| 64 * w <= i < 64 * w + 64 implies !seq_bit(ws@, i) by {
                    assert(i / 64 == w as int) by (nonlinear_arith)
                        requires
                            64 * w <= i < 64 * w + 64,
                    ;
                    lemma_bit_zero(i % 64);
                }
                lemma_positions_stable(ws@, (64 * w) as nat, (64 * w + 64) as nat);
            }
        }
        w = w + 1;
    }
    r
}

/// Number of set bits among the first `64 * ws.len()` bits.
pub fn count_positions(ws: &[u64]) -> (c: usize)
    requires
        64 * ws@.len() <= usize::MAX,
    ensures
        c == positions_below(ws@, (64 * ws@.len()) as nat).len(),
{
    let n = ws.len();
    let mut c: usize = 0;
    let mut w: usize = 0;
    while w < n
        invariant
            w <= n,
            n == ws@.len(),
            64 * n <= usize::MAX,
            c == positions_below(ws@, (64 * w) as nat).len(),
        decreases n - w,
    {
        let word = ws[w];
        let mut j: usize = 0;
        while j < 64
            invariant
                j <= 64,
                w < n,
                n == ws@.len(),
                64 * n <= usize::MAX,
                word == ws@[w as int],
                c == positions_below(ws@, (64 * w + j) as nat).len(),
            decreases 64 - j,
        {
            let bit = (word >> (j as u64)) & 1u64;
            proof {
                assert((64 * w + j) / 64 == w as int) by (nonlinear_arith)
                    requires
                        j < 64,
                ;
                assert((64 * w + j) % 64 == j as int) by (nonlinear_arith)
                    requires
                        j < 64,
                ;
                lemma_positions_facts(ws@, (64 * w + j) as nat);
            }
            if bit == 1u64 {
                c = c + 1;
            }
            j = j + 1;
        }
        w = w + 1;
    }
    c
}

} // verus!
