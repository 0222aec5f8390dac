//! Whether the machine stayed quiet during a measurement: the process's
//! context-switch counters, read from its status text before and after.

use vstd::prelude::*;

verus! {

/// Voluntary and involuntary context switches of the process at one moment.
pub struct EnvSnapshot {
    pub vol: u64,
    pub nonvol: u64,
}

// ---------------------------------------------------------------------------
// The status text
// ---------------------------------------------------------------------------

/// `c` is white space in the sense of `char::is_whitespace`.
pub open spec fn is_space(c: char) -> bool {
    ||| '\t' <= c <= '\r'
    ||| c == ' '
    ||| c == '\u{85}'
    ||| c == '\u{a0}'
    ||| c == '\u{1680}'
    ||| '\u{2000}' <= c <= '\u{200a}'
    ||| c == '\u{2028}'
    ||| c == '\u{2029}'
    ||| c == '\u{202f}'
    ||| c == '\u{205f}'
    ||| c == '\u{3000}'
}

/// `t` without its leading white space.
pub open spec fn trim_start(t: Seq<char>) -> Seq<char>
    decreases t.len(),
{
    if t.len() > 0 && is_space(t[0]) {
        trim_start(t.drop_first())
    } else {
        t
    }
}

/// `t` without its trailing white space.
pub open spec fn trim_end(t: Seq<char>) -> Seq<char>
    decreases t.len(),
{
    if t.len() > 0 && is_space(t.last()) {
        trim_end(t.drop_last())
    } else {
        t
    }
}

/// `t` without leading and trailing white space.
pub open spec fn trim(t: Seq<char>) -> Seq<char> {
    trim_end(trim_start(t))
}

/// Every character of `d` is an ASCII digit.
pub open spec fn all_digits(d: Seq<char>) -> bool {
    forall|i: int| 0 <= i < d.len() ==> '0' <= #[trigger] d[i] <= '9'
}

/// The number written by the digits `d`.
pub open spec fn digits_value(d: Seq<char>) -> nat
    decreases d.len(),
{
    if d.len() == 0 {
        0
    } else {
        digits_value(d.drop_last()) * 10 + (d.last() as nat - '0' as nat) as nat
    }
}

/// The value of the digit string `d`, if it is one and fits in 64 bits.
pub open spec fn digits_u64(d: Seq<char>) -> Option<u64> {
    if d.len() > 0 && all_digits(d) && digits_value(d) <= u64::MAX {
        Some(digits_value(d) as u64)
    } else {
        None
    }
}

/// What `str::parse::<u64>` gives for `t`: an optional `+`, then one or
/// more ASCII digits whose value fits in 64 bits.
pub open spec fn parse_u64(t: Seq<char>) -> Option<u64> {
    if t.len() > 0 && t[0] == '+' {
        digits_u64(t.drop_first())
    } else {
        digits_u64(t)
    }
}

/// The pieces of `s` between line feeds, in order.
pub open spec fn split_lines(s: Seq<char>) -> Seq<Seq<char>>
    decreases s.len(),
{
    if s.len() == 0 {
        seq![Seq::empty()]
    } else {
        let p = split_lines(s.drop_last());
        if s.last() == '\n' {
            p.push(Seq::empty())
        } else {
            p.update(p.len() - 1, p.last().push(s.last()))
        }
    }
}

/// `"voluntary_ctxt_switches:"`.
pub open spec fn vol_key() -> Seq<char> {
    seq![
        'v', 'o', 'l', 'u', 'n', 't', 'a', 'r', 'y', '_', 'c', 't', 'x', 't', '_', 's', 'w', 'i',
        't', 'c', 'h', 'e', 's', ':',
    ]
}

/// `"nonvoluntary_ctxt_switches:"`.
pub open spec fn nonvol_key() -> Seq<char> {
    seq!['n', 'o', 'n'] + vol_key()
}

/// `line` begins with `key`.
pub open spec fn has_key(line: Seq<char>, key: Seq<char>) -> bool {
    key.len() <= line.len() && line.take(key.len() as int) == key
}

/// The counter a line after `key` holds, zero when it does not parse.
pub open spec fn value_after(line: Seq<char>, key: Seq<char>) -> u64 {
    match parse_u64(trim(line.skip(key.len() as int))) {
        Some(v) => v,
        None => 0,
    }
}

/// The counters after reading `lines` in order: a later line of a kind
/// overrides an earlier one, and a counter no line gives is zero.
pub open spec fn counters(lines: Seq<Seq<char>>) -> (u64, u64)
    decreases lines.len(),
{
    if lines.len() == 0 {
        (0, 0)
    } else {
        let (vol, nonvol) = counters(lines.drop_last());
        let line = lines.last();
        if has_key(line, vol_key()) {
            (value_after(line, vol_key()), nonvol)
        } else if has_key(line, nonvol_key()) {
            (vol, value_after(line, nonvol_key()))
        } else {
            (vol, nonvol)
        }
    }
}

/// The voluntary and involuntary context-switch counts that a process
/// status text gives.
pub open spec fn ctxt_switches(status: Seq<char>) -> (u64, u64) {
    counters(split_lines(status))
}

fn vol_key_chars() -> (r: Vec<char>)
    ensures
        r@ == vol_key(),
{
    let r = vec![
        'v', 'o', 'l', 'u', 'n', 't', 'a', 'r', 'y', '_', 'c', 't', 'x', 't', '_', 's', 'w', 'i',
        't', 'c', 'h', 'e', 's', ':',
    ];
    assert(r@ =~= vol_key());
    r
}

fn nonvol_key_chars() -> (r: Vec<char>)
    ensures
        r@ == nonvol_key(),
{
    let r = vec![
        'n', 'o', 'n', 'v', 'o', 'l', 'u', 'n', 't', 'a', 'r', 'y', '_', 'c', 't', 'x', 't', '_',
        's', 'w', 'i', 't', 'c', 'h', 'e', 's', ':',
    ];
    assert(r@ =~= nonvol_key());
    r
}

fn starts_with(line: &Vec<char>, key: &Vec<char>) -> (r: bool)
    ensures
        r == has_key(line@, key@),
{
    if key.len() > line.len() {
        return false;
    }
    let mut i: usize = 0;
    while i < key.len()
        invariant
            key@.len() <= line@.len(),
            i <= key@.len(),
            forall|j: int| 0 <= j < i ==> line@[j] == key@[j],
        decreases key@.len() - i,
    {
        if line[i] != key[i] {
            assert(line@.take(key@.len() as int)[i as int] != key@[i as int]);
            return false;
        }
        i = i + 1;
    }
    assert(line@.take(key@.len() as int) =~= key@);
    true
}

fn char_is_space(c: char) -> (r: bool)
    ensures
        r == is_space(c),
{
    ('\t' <= c && c <= '\r') || c == ' ' || c == '\u{85}' || c == '\u{a0}' || c == '\u{1680}'
        || ('\u{2000}' <= c && c <= '\u{200a}') || c == '\u{2028}' || c == '\u{2029}' || c
        == '\u{202f}' || c == '\u{205f}' || c == '\u{3000}'
}

proof fn lemma_trim_start_skip(t: Seq<char>, k: int)
    requires
        0 <= k <= t.len(),
        forall|j: int| 0 <= j < k ==> is_space(#[trigger] t[j]),
    ensures
        trim_start(t) == trim_start(t.skip(k)),
    decreases k,
{
    if k > 0 {
        assert(is_space(t[0]));
        assert(t.skip(1) =~= t.drop_first());
        assert forall|j: int| 0 <= j < k - 1 implies is_space(#[trigger] t.drop_first()[j]) by {
            assert(t.drop_first()[j] == t[j + 1]);
        }
        lemma_trim_start_skip(t.drop_first(), k - 1);
        assert(t.drop_first().skip(k - 1) =~= t.skip(k));
    } else {
        assert(t.skip(0) =~= t);
    }
}

proof fn lemma_trim_end_take(t: Seq<char>, k: int)
    requires
        0 <= k <= t.len(),
        forall|j: int| k <= j < t.len() ==> is_space(#[trigger] t[j]),
    ensures
        trim_end(t) == trim_end(t.take(k)),
    decreases t.len() - k,
{
    if k < t.len() {
        assert(is_space(t[t.len() - 1]));
        assert forall|j: int| k <= j < t.len() - 1 implies is_space(#[trigger] t.drop_last()[j]) by {
            assert(t.drop_last()[j] == t[j]);
        }
        lemma_trim_end_take(t.drop_last(), k);
        assert(t.drop_last().take(k) =~= t.take(k));
    } else {
        assert(t.take(k) =~= t);
    }
}

/// The counter value written after `from` in `line`, zero when it does not
/// parse.
fn parse_value(line: &Vec<char>, from: usize) -> (r: u64)
    requires
        from <= line@.len(),
    ensures
        r == match parse_u64(trim(line@.skip(from as int))) {
            Some(v) => v,
            None => 0,
        },
{
    let ghost t = line@.skip(from as int);
    let n = line.len();
    // leading white space
    let mut lo = from;
    while lo < n && char_is_space(line[lo])
        invariant
            from <= lo <= n,
            n == line@.len(),
            forall|j: int| from <= j < lo ==> is_space(#[trigger] line@[j]),
        decreases n - lo,
    {
        lo = lo + 1;
    }
    proof {
        assert forall|j: int| 0 <= j < lo - from implies is_space(#[trigger] t[j]) by {
            assert(t[j] == line@[from + j]);
        }
        lemma_trim_start_skip(t, lo - from);
        if lo < n {
            assert(t.skip(lo - from)[0] == line@[lo as int]);
        }
        assert(trim_start(t.skip(lo - from)) == t.skip(lo - from));
    }
    let ghost ts = t.skip(lo - from);
    // trailing white space
    let mut hi = n;
    while hi > lo && char_is_space(line[hi - 1])
        invariant
            lo <= hi <= n,
            n == line@.len(),
            forall|j: int| hi <= j < n ==> is_space(#[trigger] line@[j]),
        decreases hi - lo,
    {
        hi = hi - 1;
    }
    let ghost body = line@.subrange(lo as int, hi as int);
    proof {
        assert forall|j: int| hi - lo <= j < ts.len() implies is_space(#[trigger] ts[j]) by {
            assert(ts[j] == line@[lo + j]);
        }
        lemma_trim_end_take(ts, hi - lo);
        assert(ts.take(hi - lo) =~= body);
        if hi > lo {
            assert(body.last() == line@[hi - 1]);
        }
        assert(trim_end(body) == body);
        assert(trim(t) == body);
    }
    // optional plus sign
    let mut start = lo;
    if lo < hi && line[lo] == '+' {
        start = lo + 1;
    }
    let ghost d = line@.subrange(start as int, hi as int);
    proof {
        if lo < hi && line@[lo as int] == '+' {
            assert(body.drop_first() =~= d);
        } else {
            assert(body =~= d);
        }
        assert(parse_u64(trim(line@.skip(from as int))) == digits_u64(d));
    }
    if start >= hi {
        return 0;
    }
    // digits
    let mut value: u64 = 0;
    let mut i = start;
    while i < hi
        invariant
            start <= i <= hi <= n,
            n == line@.len(),
            d == line@.subrange(start as int, hi as int),
            parse_u64(trim(line@.skip(from as int))) == digits_u64(d),
            all_digits(line@.subrange(start as int, i as int)),
            value == digits_value(line@.subrange(start as int, i as int)),
        decreases hi - i,
    {
        let c = line[i];
        let ghost prefix = line@.subrange(start as int, i as int);
        let ghost next = line@.subrange(start as int, i + 1);
        assert(next.drop_last() =~= prefix);
        assert(next.last() == c);
        if !('0' <= c && c <= '9') {
            proof {
                assert(d[i - start] == c);
            }
            return 0;
        }
        let digit = (c as u32 - '0' as u32) as u64;
        if value > (u64::MAX - digit) / 10 {
            proof {
                assert(d.take(i + 1 - start) =~= next);
                if all_digits(d) {
                    lemma_digits_grow(d, (i + 1 - start) as nat);
                }
                assert(value * 10 + digit > u64::MAX) by (nonlinear_arith)
                    requires
                        value > (u64::MAX - digit) / 10,
                        digit <= 9,
                ;
            }
            return 0;
        }
        value = value * 10 + digit;
        i = i + 1;
        assert(all_digits(line@.subrange(start as int, i as int))) by {
            assert forall|j: int| 0 <= j < next.len() implies '0' <= #[trigger] next[j] <= '9' by {
                if j < prefix.len() {
                    assert(next[j] == prefix[j]);
                }
            }
        }
    }
    value
}

/// A prefix of a digit string never writes more than the whole string.
proof fn lemma_digits_grow(d: Seq<char>, k: nat)
    requires
        k <= d.len(),
        all_digits(d),
    ensures
        digits_value(d.take(k as int)) <= digits_value(d),
    decreases d.len(),
{
    if k < d.len() {
        let dl = d.drop_last();
        assert(dl.take(k as int) =~= d.take(k as int));
        assert forall|i: int| 0 <= i < dl.len() implies '0' <= #[trigger] dl[i] <= '9' by {
            assert(dl[i] == d[i]);
        }
        lemma_digits_grow(dl, k);
    } else {
        assert(d.take(k as int) =~= d);
    }
}

/// The counters after the lines so far and one more line.
fn apply_line(line: &Vec<char>, vol_key_v: &Vec<char>, nonvol_key_v: &Vec<char>, vol: u64, nonvol: u64) -> (r: (u64, u64))
    requires
        vol_key_v@ == vol_key(),
        nonvol_key_v@ == nonvol_key(),
    ensures
        r == if has_key(line@, vol_key()) {
            (value_after(line@, vol_key()), nonvol)
        } else if has_key(line@, nonvol_key()) {
            (vol, value_after(line@, nonvol_key()))
        } else {
            (vol, nonvol)
        },
{
    if starts_with(line, vol_key_v) {
        (parse_value(line, vol_key_v.len()), nonvol)
    } else if starts_with(line, nonvol_key_v) {
        (vol, parse_value(line, nonvol_key_v.len()))
    } else {
        (vol, nonvol)
    }
}

/// Voluntary and involuntary context switches as a process status text
/// (`/proc/self/status`) gives them; a counter that no line gives, or whose
/// value does not parse, is zero.
pub fn parse_ctxt_switches(status: &str) -> (r: (u64, u64))
    ensures
        r == ctxt_switches(status@),
{
    let vk = vol_key_chars();
    let nk = nonvol_key_chars();
    let mut vol: u64 = 0;
    let mut nonvol: u64 = 0;
    let mut line: Vec<char> = Vec::new();
    let ghost mut done: Seq<Seq<char>> = Seq::empty();
    for c in it: status.chars()
        invariant
            it.seq() == status@,
            vk@ == vol_key(),
            nk@ == nonvol_key(),
            split_lines(status@.take(it.index() as int)) == done.push(line@),
            (vol, nonvol) == counters(done),
    {
        let ghost before = status@.take(it.index() as int);
        let ghost after = status@.take(it.index() + 1);
        proof {
            assert(after.drop_last() =~= before);
            assert(after.last() == c);
        }
        if c == '\n' {
            let (v, n) = apply_line(&line, &vk, &nk, vol, nonvol);
            vol = v;
            nonvol = n;
            proof {
                let d2 = done.push(line@);
                assert(d2.drop_last() =~= done);
                assert(d2.last() == line@);
                done = d2;
            }
            line = Vec::new();
            assert(split_lines(after) =~= done.push(line@));
        } else {
            let ghost old_line = line@;
            line.push(c);
            assert(split_lines(after) =~= done.push(line@));
        }
    }
    assert(status@.take(status@.len() as int) =~= status@);
    let (v, n) = apply_line(&line, &vk, &nk, vol, nonvol);
    proof {
        let d2 = done.push(line@);
        assert(d2.drop_last() =~= done);
        assert(d2.last() == line@);
    }
    (v, n)
}

impl EnvSnapshot {
    /// The counters that a process status text gives.
    pub fn take(status: &str) -> (r: Self)
        ensures
            (r.vol, r.nonvol) == ctxt_switches(status@),
    {
        let (vol, nonvol) = parse_ctxt_switches(status);
        EnvSnapshot { vol, nonvol }
    }

    /// True when no involuntary preemption happened between this snapshot
    /// and `after`.
    pub fn isolation_clean(&self, after: &EnvSnapshot) -> (r: bool)
        requires
            after.nonvol >= self.nonvol,
        ensures
            r == (after.nonvol == self.nonvol),
    {
        after.nonvol - self.nonvol == 0
    }
}

} // verus!
