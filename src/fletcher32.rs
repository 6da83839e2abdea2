//! Fletcher-32 over little-endian 16-bit words.
use vstd::prelude::*;

verus! {

/// The number of words summed between two reductions; with sums that start
/// at most `0x1FFFE` no sum of a block passes `u32::MAX`.
pub const BLOCK_WORDS: u32 = 359;

/// Adds the carry above bit 16 back into the low 16 bits.
pub open spec fn fold16(x: int) -> int {
    x % 0x10000 + x / 0x10000
}

/// The little-endian 16-bit word at byte `idx`.
pub open spec fn word_at(data: Seq<u8>, idx: int) -> int {
    data[idx] as int + 256 * data[idx + 1] as int
}

/// The two running sums after adding `n` words from byte `idx` on.
pub open spec fn run_words(data: Seq<u8>, idx: int, n: nat, s1: int, s2: int) -> (int, int)
    decreases n,
{
    if n == 0 {
        (s1, s2)
    } else {
        let a = s1 + word_at(data, idx);
        run_words(data, idx + 2, (n - 1) as nat, a, s2 + a)
    }
}

/// The two sums after `words` words from byte `idx` on, taken in blocks of
/// at most `BLOCK_WORDS` words, both sums folded after each block.
pub open spec fn run_blocks(data: Seq<u8>, idx: int, words: nat, s1: int, s2: int) -> (int, int)
    decreases words,
{
    if words == 0 {
        (s1, s2)
    } else {
        let t: nat = if words < BLOCK_WORDS {
            words
        } else {
            BLOCK_WORDS as nat
        };
        let (a, b) = run_words(data, idx, t, s1, s2);
        run_blocks(data, idx + 2 * t, (words - t) as nat, fold16(a), fold16(b))
    }
}

/// The checksum of `words` words of `data` from byte `start` on.
pub open spec fn fletcher32_spec(data: Seq<u8>, start: int, words: nat) -> int {
    let (a, b) = run_blocks(data, start, words, 0xffff, 0xffff);
    fold16(b) * 0x10000 + fold16(a)
}

proof fn lemma_fold_small(x: int)
    requires
        0 <= x <= 0x1FFFE,
    ensures
        0 <= fold16(x) <= 0xFFFF,
{
}

proof fn lemma_fold_u32(x: int)
    requires
        0 <= x < 0x1_0000_0000,
    ensures
        0 <= fold16(x) <= 0x1FFFE,
{
}

proof fn lemma_tri_bound(k: int)
    requires
        0 <= k <= 359,
    ensures
        0 <= k * (k + 1) / 2 <= 64620,
{
    assert(0 <= k * (k + 1) <= 359 * 360) by (nonlinear_arith)
        requires
            0 <= k <= 359,
    ;
}

proof fn lemma_tri_step(k: int)
    requires
        0 <= k,
    ensures
        (k + 1) * (k + 2) / 2 == k * (k + 1) / 2 + (k + 1),
{
    assert((k + 1) * (k + 2) == k * (k + 1) + 2 * (k + 1)) by (nonlinear_arith);
}

proof fn lemma_run_words_bounds(data: Seq<u8>, idx: int, n: nat, s1: int, s2: int)
    requires
        0 <= s1,
        0 <= s2,
    ensures
        ({
            let (a, b) = run_words(data, idx, n, s1, s2);
            0 <= a <= s1 + n * 0xFFFF && 0 <= b <= s2 + n * s1 + (n * (n + 1) / 2) * 0xFFFF
        }),
    decreases n,
{
    if n > 0 {
        let w = word_at(data, idx);
        assert(0 <= w <= 0xFFFF);
        let m = (n - 1) as nat;
        lemma_run_words_bounds(data, idx + 2, m, s1 + w, s2 + s1 + w);
        lemma_tri_step(m as int);
        assert(m * (s1 + w) <= m * s1 + m * 0xFFFF) by (nonlinear_arith)
            requires
                0 <= w <= 0xFFFF,
                0 <= m,
        ;
        assert(n * s1 == m * s1 + s1) by (nonlinear_arith)
            requires
                n == m + 1,
        ;
        assert(n * 0xFFFF == m * 0xFFFF + 0xFFFF);
        assert((n * (n + 1) / 2) * 0xFFFF == (m * (m + 1) / 2) * 0xFFFF + n * 0xFFFF) by {
            assert(n * (n + 1) / 2 == m * (m + 1) / 2 + n);
        }
    }
}

proof fn lemma_run_blocks_bounds(data: Seq<u8>, idx: int, words: nat, s1: int, s2: int)
    requires
        0 <= s1 <= 0x1FFFE,
        0 <= s2 <= 0x1FFFE,
    ensures
        ({
            let (a, b) = run_blocks(data, idx, words, s1, s2);
            0 <= a <= 0x1FFFE && 0 <= b <= 0x1FFFE
        }),
    decreases words,
{
    if words > 0 {
        let t: nat = if words < BLOCK_WORDS {
            words
        } else {
            BLOCK_WORDS as nat
        };
        lemma_run_words_bounds(data, idx, t, s1, s2);
        lemma_tri_bound(t as int);
        let (a, b) = run_words(data, idx, t, s1, s2);
        assert(t * s1 <= 359 * 0x1FFFE) by (nonlinear_arith)
            requires
                t <= 359,
                0 <= s1 <= 0x1FFFE,
        ;
        lemma_fold_u32(a);
        lemma_fold_u32(b);
        lemma_run_blocks_bounds(data, idx + 2 * t, (words - t) as nat, fold16(a), fold16(b));
    }
}

/// The low half of the checksum: the first sum, reduced.
pub open spec fn fletcher_low(data: Seq<u8>, start: int, words: nat) -> int {
    fold16(run_blocks(data, start, words, 0xffff, 0xffff).0)
}

/// Both halves of the checksum fit 16 bits, so the checksum fits 32.
pub proof fn lemma_fletcher_bounds(data: Seq<u8>, start: int, words: nat)
    ensures
        0 <= fletcher_low(data, start, words) <= 0xFFFF,
        0 <= fletcher32_spec(data, start, words) < 0x1_0000_0000,
        fletcher32_spec(data, start, words) % 0x10000 == fletcher_low(data, start, words),
{
    lemma_run_blocks_bounds(data, start, words, 0xffff, 0xffff);
    let (a, b) = run_blocks(data, start, words, 0xffff, 0xffff);
    lemma_fold_small(a);
    lemma_fold_small(b);
}

/// Whether `a` from `ia` on and `b` from `ib` on hold the same `n` bytes.
pub open spec fn same_window(a: Seq<u8>, ia: int, b: Seq<u8>, ib: int, n: int) -> bool {
    0 <= ia && ia + n <= a.len() && 0 <= ib && ib + n <= b.len() && a.subrange(ia, ia + n)
        == b.subrange(ib, ib + n)
}

proof fn lemma_same_window_shift(a: Seq<u8>, ia: int, b: Seq<u8>, ib: int, n: int, d: int)
    requires
        same_window(a, ia, b, ib, n),
        0 <= d <= n,
    ensures
        same_window(a, ia + d, b, ib + d, n - d),
        d >= 2 ==> a[ia] == b[ib] && a[ia + 1] == b[ib + 1],
{
    assert(a.subrange(ia + d, ia + n) =~= a.subrange(ia, ia + n).subrange(d, n));
    assert(b.subrange(ib + d, ib + n) =~= b.subrange(ib, ib + n).subrange(d, n));
    if d >= 2 {
        assert(a[ia] == a.subrange(ia, ia + n)[0]);
        assert(b[ib] == b.subrange(ib, ib + n)[0]);
        assert(a[ia + 1] == a.subrange(ia, ia + n)[1]);
        assert(b[ib + 1] == b.subrange(ib, ib + n)[1]);
    }
}

proof fn lemma_run_words_window(a: Seq<u8>, ia: int, b: Seq<u8>, ib: int, n: nat, s1: int, s2: int)
    requires
        same_window(a, ia, b, ib, 2 * n as int),
    ensures
        run_words(a, ia, n, s1, s2) == run_words(b, ib, n, s1, s2),
    decreases n,
{
    if n > 0 {
        lemma_same_window_shift(a, ia, b, ib, 2 * n as int, 2);
        lemma_run_words_window(
            a,
            ia + 2,
            b,
            ib + 2,
            (n - 1) as nat,
            s1 + word_at(a, ia),
            s2 + s1 + word_at(a, ia),
        );
    }
}

proof fn lemma_run_blocks_window(
    a: Seq<u8>,
    ia: int,
    b: Seq<u8>,
    ib: int,
    words: nat,
    s1: int,
    s2: int,
)
    requires
        same_window(a, ia, b, ib, 2 * words as int),
    ensures
        run_blocks(a, ia, words, s1, s2) == run_blocks(b, ib, words, s1, s2),
    decreases words,
{
    if words > 0 {
        let t: nat = if words < BLOCK_WORDS {
            words
        } else {
            BLOCK_WORDS as nat
        };
        lemma_same_window_shift(a, ia, b, ib, 2 * words as int, 2 * t as int);
        assert(a.subrange(ia, ia + 2 * t) =~= a.subrange(ia, ia + 2 * words).subrange(0, 2 * t as int));
        assert(b.subrange(ib, ib + 2 * t) =~= b.subrange(ib, ib + 2 * words).subrange(0, 2 * t as int));
        lemma_run_words_window(a, ia, b, ib, t, s1, s2);
        let (x, y) = run_words(a, ia, t, s1, s2);
        lemma_run_blocks_window(
            a,
            ia + 2 * t,
            b,
            ib + 2 * t,
            (words - t) as nat,
            fold16(x),
            fold16(y),
        );
    }
}

/// The checksum depends on the summed bytes alone, not on where they lie.
pub proof fn lemma_fletcher_window(a: Seq<u8>, ia: int, b: Seq<u8>, ib: int, words: nat)
    requires
        same_window(a, ia, b, ib, 2 * words as int),
    ensures
        fletcher32_spec(a, ia, words) == fletcher32_spec(b, ib, words),
        fletcher_low(a, ia, words) == fletcher_low(b, ib, words),
{
    lemma_run_blocks_window(a, ia, b, ib, words, 0xffff, 0xffff);
}

/// The plain sum of `n` words from byte `idx` on.
pub open spec fn sum_words(data: Seq<u8>, idx: int, n: nat) -> int
    decreases n,
{
    if n == 0 {
        0
    } else {
        word_at(data, idx) + sum_words(data, idx + 2, (n - 1) as nat)
    }
}

proof fn lemma_run_words_sum(data: Seq<u8>, idx: int, n: nat, s1: int, s2: int)
    ensures
        run_words(data, idx, n, s1, s2).0 == s1 + sum_words(data, idx, n),
    decreases n,
{
    if n > 0 {
        let a = s1 + word_at(data, idx);
        lemma_run_words_sum(data, idx + 2, (n - 1) as nat, a, s2 + a);
    }
}

proof fn lemma_sum_split(data: Seq<u8>, idx: int, a: nat, b: nat)
    ensures
        sum_words(data, idx, a + b) == sum_words(data, idx, a) + sum_words(data, idx + 2 * a, b),
    decreases a,
{
    if a > 0 {
        lemma_sum_split(data, idx + 2, (a - 1) as nat, b);
        assert((a + b - 1) as nat == ((a - 1) as nat + b) as nat);
    }
}

proof fn lemma_fold_mod(x: int)
    requires
        0 <= x,
    ensures
        fold16(x) % 0xFFFF == x % 0xFFFF,
{
    let q = x / 0x10000;
    let r = x % 0x10000;
    vstd::arithmetic::div_mod::lemma_fundamental_div_mod(x, 0x10000);
    assert(x == 0xFFFF * q + (q + r));
    vstd::arithmetic::div_mod::lemma_mod_multiples_vanish(q, q + r, 0xFFFF);
}

proof fn lemma_run_blocks_mod(data: Seq<u8>, idx: int, words: nat, s1: int, s2: int)
    requires
        0 <= s1,
        0 <= s2,
    ensures
        run_blocks(data, idx, words, s1, s2).0 % 0xFFFF == (s1 + sum_words(data, idx, words))
            % 0xFFFF,
    decreases words,
{
    if words > 0 {
        let t: nat = if words < BLOCK_WORDS {
            words
        } else {
            BLOCK_WORDS as nat
        };
        let rest = (words - t) as nat;
        lemma_run_words_sum(data, idx, t, s1, s2);
        lemma_run_words_bounds(data, idx, t, s1, s2);
        let (a, b) = run_words(data, idx, t, s1, s2);
        lemma_run_blocks_mod(data, idx + 2 * t, rest, fold16(a), fold16(b));
        lemma_fold_mod(a);
        lemma_sum_split(data, idx, t, rest);
        assert(t + rest == words);
        let y = sum_words(data, idx + 2 * t, rest);
        vstd::arithmetic::div_mod::lemma_add_mod_noop(fold16(a), y, 0xFFFF);
        vstd::arithmetic::div_mod::lemma_add_mod_noop(a, y, 0xFFFF);
    }
}

proof fn lemma_sum_outside(data: Seq<u8>, idx: int, n: nat, k: int, v: u8)
    requires
        0 <= k < data.len(),
        0 <= idx,
        idx + 2 * n <= data.len(),
        k < idx || idx + 2 * n <= k,
    ensures
        sum_words(data.update(k, v), idx, n) == sum_words(data, idx, n),
    decreases n,
{
    if n > 0 {
        lemma_sum_outside(data, idx + 2, (n - 1) as nat, k, v);
    }
}

proof fn lemma_sum_update(data: Seq<u8>, idx: int, n: nat, k: int, v: u8)
    requires
        0 <= idx <= k < idx + 2 * n,
        idx + 2 * n <= data.len(),
        idx % 2 == 0,
    ensures
        sum_words(data.update(k, v), idx, n) == sum_words(data, idx, n) + (v - data[k]) * (if k
            % 2 == 0 {
            1int
        } else {
            256int
        }),
    decreases n,
{
    if k < idx + 2 {
        lemma_sum_outside(data, idx + 2, (n - 1) as nat, k, v);
    } else {
        lemma_sum_update(data, idx + 2, (n - 1) as nat, k, v);
    }
}

/// Changing one of the summed bytes changes the low half of the checksum.
pub proof fn lemma_fletcher_detects_change(data: Seq<u8>, words: nat, k: int, v: u8)
    requires
        0 <= k < 2 * words <= data.len(),
        v != data[k],
    ensures
        fletcher32_spec(data.update(k, v), 0, words) != fletcher32_spec(data, 0, words),
{
    let d2 = data.update(k, v);
    let m: int = if k % 2 == 0 {
        1
    } else {
        256
    };
    let delta = (v - data[k]) * m;
    lemma_sum_update(data, 0, words, k, v);
    lemma_run_blocks_mod(data, 0, words, 0xffff, 0xffff);
    lemma_run_blocks_mod(d2, 0, words, 0xffff, 0xffff);
    lemma_run_blocks_bounds(data, 0, words, 0xffff, 0xffff);
    lemma_run_blocks_bounds(d2, 0, words, 0xffff, 0xffff);
    let a1 = run_blocks(data, 0, words, 0xffff, 0xffff).0;
    let a2 = run_blocks(d2, 0, words, 0xffff, 0xffff).0;
    lemma_fold_mod(a1);
    lemma_fold_mod(a2);
    lemma_fletcher_bounds(data, 0, words);
    lemma_fletcher_bounds(d2, 0, words);
    let x = 0xffff + sum_words(data, 0, words);
    assert(delta != 0) by (nonlinear_arith)
        requires
            delta == (v - data[k]) * m,
            v != data[k],
            m == 1 || m == 256,
    ;
    assert(-0xFFFF < delta < 0xFFFF) by {
        assert(-255 <= v - data[k] <= 255);
        if k % 2 == 0 {
        } else {
            assert(-255 * 256 <= (v - data[k]) * 256 <= 255 * 256) by (nonlinear_arith)
                requires
                    -255 <= v - data[k] <= 255,
            ;
        }
    }
    if fletcher_low(d2, 0, words) == fletcher_low(data, 0, words) {
        assert((x + delta) % 0xFFFF == x % 0xFFFF);
        vstd::arithmetic::div_mod::lemma_fundamental_div_mod(x, 0xFFFF);
        vstd::arithmetic::div_mod::lemma_fundamental_div_mod(x + delta, 0xFFFF);
        let qx = x / 0xFFFF;
        let qy = (x + delta) / 0xFFFF;
        assert(delta == 0xFFFF * (qy - qx));
        assert(false) by (nonlinear_arith)
            requires
                delta == 0xFFFF * (qy - qx),
                -0xFFFF < delta < 0xFFFF,
                delta != 0,
        ;
    }
}

/// Calculates the Fletcher-32 checksum of the first `words` 16-bit words of
/// `data` starting at `start_index`.
pub fn fletcher32(data: &[u8], start_index: usize, words: u32) -> (r: u32)
    requires
        start_index + 2 * words <= data@.len(),
    ensures
        r == fletcher32_spec(data@, start_index as int, words as nat),
{
    let mut sum1: u32 = 0xffff;
    let mut sum2: u32 = 0xffff;
    let mut idx: usize = start_index;
    let mut left: u32 = words;
    while left > 0
        invariant
            idx + 2 * left <= data@.len(),
            sum1 <= 0x1FFFE,
            sum2 <= 0x1FFFE,
            run_blocks(data@, idx as int, left as nat, sum1 as int, sum2 as int) == run_blocks(
                data@,
                start_index as int,
                words as nat,
                0xffff,
                0xffff,
            ),
        decreases left,
    {
        let tlen: u32 = if left < BLOCK_WORDS {
            left
        } else {
            BLOCK_WORDS
        };
        left = left - tlen;
        let ghost b1 = sum1 as int;
        let ghost b2 = sum2 as int;
        let ghost bidx = idx as int;
        let mut k: u32 = 0;
        while k < tlen
            invariant
                k <= tlen <= BLOCK_WORDS,
                bidx + 2 * tlen <= data@.len(),
                idx == bidx + 2 * k,
                b1 <= 0x1FFFE,
                b2 <= 0x1FFFE,
                sum1 <= b1 + k * 0xFFFF,
                sum2 <= b2 + k * 0x1FFFE + (k * (k + 1) / 2) * 0xFFFF,
                run_words(data@, bidx, tlen as nat, b1, b2) == run_words(
                    data@,
                    idx as int,
                    (tlen - k) as nat,
                    sum1 as int,
                    sum2 as int,
                ),
            decreases tlen - k,
        {
            proof {
                lemma_tri_bound(k as int);
                lemma_tri_step(k as int);
                lemma_tri_bound(k + 1);
            }
            let word: u32 = data[idx] as u32 + 256 * data[idx + 1] as u32;
            sum1 = sum1 + word;
            sum2 = sum2 + sum1;
            idx = idx + 2;
            k = k + 1;
        }
        proof {
            lemma_tri_bound(k as int);
            lemma_fold_u32(sum1 as int);
            lemma_fold_u32(sum2 as int);
        }
        sum1 = sum1 % 0x10000 + sum1 / 0x10000;
        sum2 = sum2 % 0x10000 + sum2 / 0x10000;
    }
    proof {
        lemma_fold_small(sum1 as int);
        lemma_fold_small(sum2 as int);
    }
    sum1 = sum1 % 0x10000 + sum1 / 0x10000;
    sum2 = sum2 % 0x10000 + sum2 / 0x10000;
    sum2 * 0x10000 + sum1
}

} // verus!
