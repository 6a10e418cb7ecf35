//! Shannon entropy over an accumulated character-frequency table.
//!
//! Entropy is reported in millibits (thousandths of a bit) so that the
//! whole computation stays in integers.  Internally a Q16 fixed-point
//! base-2 logarithm is computed by the classic shift-and-square method;
//! it is exact on powers of two, which pins the entropy of the uniform
//! distributions exactly (for example two equally frequent characters
//! give exactly 1000 millibits).

use vstd::prelude::*;
use crate::textnorm::lower_char;
use crate::textnorm::normalize_seq;
use crate::textnorm::char_is_alnum;
use crate::textnorm::to_lower_char;
use crate::textnorm::str_to_chars;
use crate::textnorm::lemma_normalize_len_le;
use vstd::arithmetic::power2::pow2;
use vstd::arithmetic::power2::lemma_pow2_adds;
use vstd::arithmetic::power2::lemma_pow2_subtracts;
use vstd::arithmetic::power2::lemma_pow2_strictly_increases;
use vstd::arithmetic::power2::lemma_pow2_unfold;
use vstd::arithmetic::power2::lemma_pow2_pos;
use vstd::arithmetic::power2::lemma2_to64;
use vstd::arithmetic::div_mod::lemma_div_denominator;
use vstd::arithmetic::div_mod::lemma_div_is_ordered;

verus! {

/// Floor of the base-2 logarithm.
pub open spec fn floor_log2(n: nat) -> nat
    decreases n,
{
    if n < 2 {
        0
    } else {
        1 + floor_log2(n / 2)
    }
}

/// The first `k` binary fraction digits of `log2(y / 2^32)`, for a
/// mantissa `y` in `[2^32, 2^33)`, by repeated squaring with truncation
/// to 32 fraction bits.
pub open spec fn frac_bits(y: nat, k: nat) -> nat
    decreases k,
{
    if k == 0 {
        0
    } else {
        let y2 = (y * y) / 0x1_0000_0000;
        if y2 >= 0x2_0000_0000 {
            pow2((k - 1) as nat) + frac_bits(y2 / 2, (k - 1) as nat)
        } else {
            frac_bits(y2, (k - 1) as nat)
        }
    }
}

/// The mantissa of `n`: `n` scaled into `[2^32, 2^33)`.
pub open spec fn mantissa(n: nat) -> nat {
    (n * 0x1_0000_0000) / pow2(floor_log2(n))
}

/// Base-2 logarithm of `n` in Q16 fixed point (16 binary fraction
/// digits, truncated).  Zero when `n` is zero or one.
pub open spec fn lg16(n: nat) -> nat {
    floor_log2(n) * 65536 + frac_bits(mantissa(n), 16)
}

pub proof fn lemma_floor_log2_bounds(n: nat)
    requires
        n >= 1,
    ensures
        pow2(floor_log2(n)) <= n < pow2(floor_log2(n) + 1),
    decreases n,
{
    if n < 2 {
        lemma2_to64();
    } else {
        lemma_floor_log2_bounds(n / 2);
        let f = floor_log2(n / 2);
        lemma_pow2_unfold(f + 1);
        lemma_pow2_unfold(f + 2);
        assert(pow2(f) <= n / 2 < pow2(f + 1));
        assert(n / 2 * 2 <= n < (n / 2 + 1) * 2);
    }
}

pub proof fn lemma_floor_log2_le63(n: nat)
    requires
        1 <= n <= u64::MAX,
    ensures
        floor_log2(n) <= 63,
{
    lemma_floor_log2_bounds(n);
    if floor_log2(n) > 63 {
        if floor_log2(n) > 64 {
            lemma_pow2_strictly_increases(64, floor_log2(n));
        }
        vstd::arithmetic::power2::lemma2_to64_rest();
        assert(pow2(64) <= pow2(floor_log2(n)));
        assert(false);
    }
}

pub proof fn lemma_frac_bits_bound(y: nat, k: nat)
    ensures
        frac_bits(y, k) < pow2(k),
    decreases k,
{
    lemma_pow2_pos(k);
    if k == 0 {
        lemma2_to64();
    } else {
        let y2 = (y * y) / 0x1_0000_0000;
        lemma_pow2_unfold(k);
        if y2 >= 0x2_0000_0000 {
            lemma_frac_bits_bound(y2 / 2, (k - 1) as nat);
        } else {
            lemma_frac_bits_bound(y2, (k - 1) as nat);
        }
    }
}

/// The mantissa of an exact power of two is exactly one, so all its
/// fraction digits are zero.
pub proof fn lemma_frac_bits_one(k: nat)
    ensures
        frac_bits(0x1_0000_0000, k) == 0,
    decreases k,
{
    if k > 0 {
        assert((0x1_0000_0000 * 0x1_0000_0000) / 0x1_0000_0000 == 0x1_0000_0000) by (nonlinear_arith);
        lemma_frac_bits_one((k - 1) as nat);
    }
}

pub proof fn lemma_floor_log2_pow2(e: nat)
    ensures
        floor_log2(pow2(e)) == e,
    decreases e,
{
    if e == 0 {
        lemma2_to64();
    } else {
        lemma_pow2_unfold(e);
        lemma_pow2_pos((e - 1) as nat);
        lemma_floor_log2_pow2((e - 1) as nat);
        assert(pow2(e) / 2 == pow2((e - 1) as nat));
    }
}

/// The Q16 logarithm is exact on powers of two.
pub proof fn lemma_lg16_pow2(e: nat)
    ensures
        lg16(pow2(e)) == e * 65536,
{
    lemma_floor_log2_pow2(e);
    lemma_pow2_pos(e);
    assert(0x1_0000_0000 == pow2(32)) by {
        lemma2_to64();
    }
    lemma_pow2_adds(e, 32);
    lemma_pow2_subtracts(e, e + 32);
    assert(mantissa(pow2(e)) == pow2(e) * pow2(32) / pow2(e));
    assert(pow2(e) * pow2(32) == pow2(e + 32));
    assert(pow2(e + 32) / pow2(e) == pow2(32));
    lemma_frac_bits_one(16);
}

pub proof fn lemma_lg16_bound(n: nat)
    requires
        n <= u64::MAX,
    ensures
        lg16(n) <= 63 * 65536 + 65535,
{
    lemma_frac_bits_bound(mantissa(n), 16);
    assert(pow2(16) == 65536) by {
        lemma2_to64();
    }
    if n >= 1 {
        lemma_floor_log2_le63(n);
    }
}

/// Base-2 logarithm of `n`, truncated to Q16 fixed point.
pub fn log2_q16(n: u64) -> (r: u64)
    requires
        n >= 1,
    ensures
        r as nat == lg16(n as nat),
        r <= 63 * 65536 + 65535,
{
    proof {
        lemma_lg16_bound(n as nat);
    }
    // Integer part: divide down to one.
    let mut e: u64 = 0;
    let mut t: u64 = n;
    proof {
        lemma2_to64();
        assert(pow2(0) == 1);
    }
    while t >= 2
        invariant
            1 <= t,
            t as nat == n as nat / pow2(e as nat),
            floor_log2(n as nat) == e as nat + floor_log2(t as nat),
            pow2(e as nat) <= n as nat,
            e <= 63,
        decreases t,
    {
        proof {
            lemma_pow2_pos(e as nat);
            lemma_pow2_pos(e as nat + 1);
            lemma_div_denominator(n as int, pow2(e as nat) as int, 2);
            lemma_pow2_adds(e as nat, 1);
            assert(pow2(1) == 2) by {
                lemma2_to64();
            }
            assert(pow2(e as nat) * 2 == pow2(e as nat + 1));
            // t >= 2, so n / pow2(e + 1) = t / 2 >= 1.
            assert(n as nat / pow2(e as nat + 1) >= 1);
            // Hence pow2(e + 1) <= n, which keeps e below 64.
            if (n as nat) < pow2(e as nat + 1) {
                vstd::arithmetic::div_mod::lemma_basic_div(n as int, pow2(e as nat + 1) as int);
                assert(false);
            }
            if e as nat + 1 > 63 {
                if e as nat + 1 > 64 {
                    lemma_pow2_strictly_increases(64, e as nat + 1);
                }
                vstd::arithmetic::power2::lemma2_to64_rest();
                assert(false);
            }
        }
        t = t / 2;
        e = e + 1;
    }
    proof {
        assert(floor_log2(t as nat) == 0);
        assert(e as nat == floor_log2(n as nat));
    }
    // Mantissa: n * 2^32 / 2^e.
    let mut m: u128 = (n as u128) * 0x1_0000_0000;
    let mut j: u64 = 0;
    proof {
        lemma2_to64();
        assert(m as nat == (n as nat * 0x1_0000_0000) / pow2(0)) by {
            assert(pow2(0) == 1);
        }
    }
    while j < e
        invariant
            j <= e,
            m as nat == (n as nat * 0x1_0000_0000) / pow2(j as nat),
        decreases e - j,
    {
        proof {
            lemma_pow2_pos(j as nat);
            lemma_div_denominator((n as nat * 0x1_0000_0000) as int, pow2(j as nat) as int, 2);
            lemma_pow2_adds(j as nat, 1);
            lemma2_to64();
            assert(pow2(j as nat) * 2 == pow2(j as nat + 1));
        }
        m = m / 2;
        j = j + 1;
    }
    proof {
        assert(m as nat == mantissa(n as nat));
        // m < 2^33 because n < 2^(e+1).
        lemma_floor_log2_bounds(n as nat);
        lemma_pow2_pos(e as nat);
        assert((n as nat) * 0x1_0000_0000 < pow2(e as nat + 1) * 0x1_0000_0000) by {
            vstd::arithmetic::mul::lemma_mul_strict_inequality(
                n as int,
                pow2(e as nat + 1) as int,
                0x1_0000_0000,
            );
        }
        assert(pow2(e as nat + 1) * 0x1_0000_0000 == pow2(e as nat) * 0x2_0000_0000) by {
            lemma_pow2_unfold(e as nat + 1);
            vstd::arithmetic::mul::lemma_mul_is_associative(2, pow2(e as nat) as int, 0x1_0000_0000);
            vstd::arithmetic::mul::lemma_mul_is_commutative(2, pow2(e as nat) as int);
            vstd::arithmetic::mul::lemma_mul_is_associative(pow2(e as nat) as int, 2, 0x1_0000_0000);
        }
        assert((m as nat) < 0x2_0000_0000) by {
            assert((n as nat) * 0x1_0000_0000 < pow2(e as nat) * 0x2_0000_0000);
            vstd::arithmetic::div_mod::lemma_multiply_divide_lt(
                (n as nat * 0x1_0000_0000) as int,
                pow2(e as nat) as int,
                0x2_0000_0000,
            );
        }
    }
    // Fraction digits by shift-and-square.
    let ghost m0 = m as nat;
    let mut y: u128 = m;
    let mut r: u64 = 0;
    let mut k: u64 = 0;
    while k < 16
        invariant
            k <= 16,
            y < 0x2_0000_0000,
            r as nat * pow2((16 - k) as nat) + frac_bits(y as nat, (16 - k) as nat) == frac_bits(
                m0,
                16,
            ),
            r < pow2(k as nat),
        decreases 16 - k,
    {
        proof {
            assert((y as nat) * (y as nat) < 0x2_0000_0000 * 0x2_0000_0000) by (nonlinear_arith)
                requires
                    (y as nat) < 0x2_0000_0000,
            ;
        }
        let y2: u128 = (y * y) / 0x1_0000_0000;
        proof {
            let kk = (16 - k) as nat;
            assert(frac_bits(y as nat, kk) == if y2 as nat >= 0x2_0000_0000 {
                pow2((kk - 1) as nat) + frac_bits(y2 as nat / 2, (kk - 1) as nat)
            } else {
                frac_bits(y2 as nat, (kk - 1) as nat)
            });
            assert((y2 as nat) < 0x4_0000_0000) by {
                vstd::arithmetic::div_mod::lemma_multiply_divide_lt(
                    (y as nat * y as nat) as int,
                    0x1_0000_0000,
                    0x4_0000_0000,
                );
            }
            // The next result digit keeps the accumulator below pow2(k + 1).
            lemma_pow2_unfold((16 - k) as nat);
            lemma_pow2_unfold(k as nat + 1);
            assert(pow2(16) == 65536 && pow2(15) == 32768 && pow2(0) == 1) by {
                lemma2_to64();
            }
            if k as nat + 1 < 16 {
                lemma_pow2_strictly_increases(k as nat + 1, 16);
            }
            let rr = r as nat;
            let p = pow2((16 - k - 1) as nat);
            assert((2 * rr + 1) * p == 2 * (rr * p) + p) by (nonlinear_arith);
            assert((2 * rr) * p == 2 * (rr * p)) by (nonlinear_arith);
            assert(rr * (2 * p) == 2 * (rr * p)) by (nonlinear_arith);
        }
        if y2 >= 0x2_0000_0000 {
            r = r * 2 + 1;
            y = y2 / 2;
        } else {
            r = r * 2;
            y = y2;
        }
        k = k + 1;
    }
    proof {
        lemma2_to64();
        assert(frac_bits(y as nat, (16 - k) as nat) == 0);
        assert(r as nat * pow2(0) == r as nat);
        assert(r as nat == frac_bits(m0, 16));
    }
    e * 65536 + r
}

// ---------------------------------------------------------------------
// Character-frequency table.
//
// The table is a vector of (character, count) pairs with pairwise
// distinct characters, in first-seen order.  Its ghost image uses
// unbounded integers for the counts.
// ---------------------------------------------------------------------

/// Ghost image of a count table: counts widened to `int`.
pub open spec fn cc_view(v: Seq<(char, u64)>) -> Seq<(char, int)> {
    v.map_values(|e: (char, u64)| (e.0, e.1 as int))
}

/// Pairwise distinct characters.
pub open spec fn cc_distinct(es: Seq<(char, int)>) -> bool {
    forall|i: int, j: int| 0 <= i < j < es.len() ==> es[i].0 != es[j].0
}

/// A well-formed table: distinct characters, every count at least one.
pub open spec fn cc_wf(es: Seq<(char, int)>) -> bool {
    cc_distinct(es) && forall|i: int| 0 <= i < es.len() ==> es[i].1 >= 1
}

/// Index of a character in the table, or -1.
pub open spec fn cc_find(es: Seq<(char, int)>, c: char) -> int
    decreases es.len(),
{
    if es.len() == 0 {
        -1
    } else if es[0].0 == c {
        0
    } else {
        let r = cc_find(es.drop_first(), c);
        if r < 0 {
            -1
        } else {
            r + 1
        }
    }
}

/// Counting one more occurrence of `c`.
pub open spec fn cc_add(es: Seq<(char, int)>, c: char) -> Seq<(char, int)> {
    let i = cc_find(es, c);
    if i < 0 {
        es.push((c, 1))
    } else {
        es.update(i, (c, es[i].1 + 1))
    }
}

/// The count table of a sequence of already-normalized characters.
pub open spec fn cc_fold_from(es: Seq<(char, int)>, s: Seq<char>) -> Seq<(char, int)>
    decreases s.len(),
{
    if s.len() == 0 {
        es
    } else {
        cc_add(cc_fold_from(es, s.drop_last()), s.last())
    }
}

/// The count table of a sequence of normalized characters, from empty.
pub open spec fn cc_fold(s: Seq<char>) -> Seq<(char, int)> {
    cc_fold_from(Seq::<(char, int)>::empty(), s)
}

/// Sum of all counts.
pub open spec fn cc_total(es: Seq<(char, int)>) -> int
    decreases es.len(),
{
    if es.len() == 0 {
        0
    } else {
        cc_total(es.drop_last()) + es.last().1
    }
}

/// Weighted sum of `count * lg16(count)` over the table.
pub open spec fn cc_wsum(es: Seq<(char, int)>) -> int
    decreases es.len(),
{
    if es.len() == 0 {
        0
    } else {
        cc_wsum(es.drop_last()) + es.last().1 * lg16(es.last().1 as nat) as int
    }
}

/// Shannon entropy of the distribution described by the table, in Q16
/// fixed point: `lg16(N) - (sum count_i * lg16(count_i)) / N`, clamped
/// below at zero; zero for an empty table.
pub open spec fn entropy_q16_of(es: Seq<(char, int)>) -> int {
    let n = cc_total(es);
    if n <= 0 {
        0
    } else {
        let t = lg16(n as nat) as int;
        let s = cc_wsum(es) / n;
        if s >= t {
            0
        } else {
            t - s
        }
    }
}

/// The entropy of the table in millibits.
pub open spec fn entropy_millibits_of(es: Seq<(char, int)>) -> int {
    entropy_q16_of(es) * 1000 / 65536
}

pub proof fn lemma_cc_find_range(es: Seq<(char, int)>, c: char)
    ensures
        cc_find(es, c) < es.len(),
        cc_find(es, c) >= 0 ==> es[cc_find(es, c)].0 == c,
        cc_find(es, c) < 0 ==> cc_find(es, c) == -1 && forall|j: int|
            0 <= j < es.len() ==> es[j].0 != c,
    decreases es.len(),
{
    if es.len() > 0 && es[0].0 != c {
        lemma_cc_find_range(es.drop_first(), c);
        if cc_find(es, c) < 0 {
            assert forall|j: int| 0 <= j < es.len() implies es[j].0 != c by {
                if j >= 1 {
                    assert(es.drop_first()[j - 1] == es[j]);
                }
            }
        } else {
            assert(es.drop_first()[cc_find(es, c) - 1] == es[cc_find(es, c)]);
        }
    }
}

/// A scan that stops at the first occurrence finds the same index as
/// `cc_find`.
pub proof fn lemma_cc_find_at(es: Seq<(char, int)>, c: char, i: int)
    requires
        0 <= i < es.len(),
        es[i].0 == c,
        forall|j: int| 0 <= j < i ==> es[j].0 != c,
    ensures
        cc_find(es, c) == i,
    decreases es.len(),
{
    if es[0].0 != c {
        assert(i >= 1);
        lemma_cc_find_at(es.drop_first(), c, i - 1);
    }
}

pub proof fn lemma_cc_total_update(es: Seq<(char, int)>, i: int, v: (char, int))
    requires
        0 <= i < es.len(),
    ensures
        cc_total(es.update(i, v)) == cc_total(es) - es[i].1 + v.1,
    decreases es.len(),
{
    let es2 = es.update(i, v);
    if i == es.len() - 1 {
        assert(es2.drop_last() == es.drop_last());
        assert(es2.last() == v);
    } else {
        lemma_cc_total_update(es.drop_last(), i, v);
        assert(es2.drop_last() == es.drop_last().update(i, v));
        assert(es2.last() == es.last());
    }
}

pub proof fn lemma_cc_total_push(es: Seq<(char, int)>, v: (char, int))
    ensures
        cc_total(es.push(v)) == cc_total(es) + v.1,
{
    assert(es.push(v).drop_last() == es);
    assert(es.push(v).last() == v);
}

/// Adding one character raises the total by exactly one.
pub proof fn lemma_cc_add_total(es: Seq<(char, int)>, c: char)
    ensures
        cc_total(cc_add(es, c)) == cc_total(es) + 1,
{
    lemma_cc_find_range(es, c);
    let i = cc_find(es, c);
    if i < 0 {
        lemma_cc_total_push(es, (c, 1));
    } else {
        lemma_cc_total_update(es, i, (c, es[i].1 + 1));
    }
}

/// Adding one character keeps the table well formed.
pub proof fn lemma_cc_add_wf(es: Seq<(char, int)>, c: char)
    requires
        cc_wf(es),
    ensures
        cc_wf(cc_add(es, c)),
{
    lemma_cc_find_range(es, c);
}

/// Folding a sequence of characters raises the total by its length and
/// keeps the table well formed.
pub proof fn lemma_cc_fold_from_total(es: Seq<(char, int)>, s: Seq<char>)
    requires
        cc_wf(es),
    ensures
        cc_wf(cc_fold_from(es, s)),
        cc_total(cc_fold_from(es, s)) == cc_total(es) + s.len(),
    decreases s.len(),
{
    if s.len() > 0 {
        lemma_cc_fold_from_total(es, s.drop_last());
        lemma_cc_add_total(cc_fold_from(es, s.drop_last()), s.last());
        lemma_cc_add_wf(cc_fold_from(es, s.drop_last()), s.last());
    }
}

/// Folds compose over concatenation.
pub proof fn lemma_cc_fold_from_concat(es: Seq<(char, int)>, a: Seq<char>, b: Seq<char>)
    ensures
        cc_fold_from(es, a + b) == cc_fold_from(cc_fold_from(es, a), b),
    decreases b.len(),
{
    if b.len() == 0 {
        assert(a + b == a);
    } else {
        lemma_cc_fold_from_concat(es, a, b.drop_last());
        assert((a + b).drop_last() == a + b.drop_last());
        assert((a + b).last() == b.last());
    }
}

/// In a table of nonnegative counts every count is at most the total.
pub proof fn lemma_cc_count_le_total(es: Seq<(char, int)>, i: int)
    requires
        forall|j: int| 0 <= j < es.len() ==> es[j].1 >= 0,
        0 <= i < es.len(),
    ensures
        es[i].1 <= cc_total(es),
        cc_total(es) >= 0,
    decreases es.len(),
{
    lemma_cc_total_nonneg(es.drop_last());
    if i == es.len() - 1 {
    } else {
        lemma_cc_count_le_total(es.drop_last(), i);
    }
}

pub proof fn lemma_cc_total_nonneg(es: Seq<(char, int)>)
    requires
        forall|j: int| 0 <= j < es.len() ==> es[j].1 >= 0,
    ensures
        cc_total(es) >= 0,
    decreases es.len(),
{
    if es.len() > 0 {
        lemma_cc_total_nonneg(es.drop_last());
    }
}

/// Splitting a table splits its total.
pub proof fn lemma_cc_total_split(es: Seq<(char, int)>, i: int)
    requires
        0 <= i <= es.len(),
    ensures
        cc_total(es) == cc_total(es.subrange(0, i)) + cc_total(es.subrange(i, es.len() as int)),
    decreases es.len() - i,
{
    if i == es.len() {
        assert(es.subrange(0, i) == es);
    } else {
        lemma_cc_total_split(es, i + 1);
        let pre1 = es.subrange(0, i + 1);
        assert(pre1.drop_last() == es.subrange(0, i));
        assert(pre1.last() == es[i]);
        // Join es[i] from the left part onto the right part.
        let rest = es.subrange(i, es.len() as int);
        let rest1 = es.subrange(i + 1, es.len() as int);
        lemma_cc_total_head(rest);
        assert(rest.drop_first() == rest1);
        assert(rest[0] == es[i]);
    }
}

/// Total of a nonempty table, split at the head.
pub proof fn lemma_cc_total_head(es: Seq<(char, int)>)
    requires
        es.len() > 0,
    ensures
        cc_total(es) == es[0].1 + cc_total(es.drop_first()),
    decreases es.len(),
{
    if es.len() == 1 {
        assert(es.drop_first().len() == 0);
        assert(cc_total(es) == cc_total(es.drop_last()) + es.last().1);
        assert(cc_total(es.drop_last()) == 0);
        assert(cc_total(es.drop_first()) == 0);
        assert(es.last() == es[0]);
    } else {
        lemma_cc_total_head(es.drop_last());
        assert(cc_total(es) == cc_total(es.drop_last()) + es.last().1);
        assert(es.drop_last().drop_first() =~= es.drop_first().drop_last());
        assert(es.drop_first().last() == es.last());
        assert(es.drop_last()[0] == es[0]);
        assert(cc_total(es.drop_last()) == es[0].1 + cc_total(es.drop_last().drop_first()));
        assert(cc_total(es.drop_last().drop_first()) == cc_total(es.drop_first().drop_last()));
        assert(es.drop_first().len() > 0);
        assert(cc_total(es.drop_first()) == cc_total(es.drop_first().drop_last())
            + es.drop_first().last().1);
        assert(cc_total(es) == es[0].1 + cc_total(es.drop_first()));
    }
}

/// Adds one occurrence of character `c` to the table.
pub fn cc_bump(tab: &mut Vec<(char, u64)>, c: char)
    requires
        cc_wf(cc_view(old(tab)@)),
        cc_total(cc_view(old(tab)@)) < u64::MAX,
    ensures
        cc_view(final(tab)@) == cc_add(cc_view(old(tab)@), c),
        cc_wf(cc_view(final(tab)@)),
{
    let ghost es = cc_view(tab@);
    proof {
        lemma_cc_add_wf(es, c);
    }
    let n = tab.len();
    let mut i: usize = 0;
    while i < n
        invariant
            n == tab.len(),
            tab@ == old(tab)@,
            es == cc_view(old(tab)@),
            cc_wf(es),
            cc_total(es) < u64::MAX,
            forall|j: int| 0 <= j < i ==> es[j].0 != c,
            i <= n,
        decreases n - i,
    {
        if tab[i].0 == c {
            proof {
                lemma_cc_find_at(es, c, i as int);
                lemma_cc_count_le_total(es, i as int);
            }
            let cnt = tab[i].1;
            tab.set(i, (c, cnt + 1));
            proof {
                assert(cc_view(tab@) =~= cc_add(es, c));
            }
            return ;
        }
        i += 1;
    }
    proof {
        lemma_cc_find_range(es, c);
    }
    tab.push((c, 1));
    proof {
        assert(cc_view(tab@) =~= cc_add(es, c));
    }
}

/// Folds every normalized character of `chars` into the table: each
/// alphanumeric character is lower-cased and counted, everything else
/// is skipped.
pub fn cc_accumulate(tab: &mut Vec<(char, u64)>, chars: &Vec<char>)
    requires
        cc_wf(cc_view(old(tab)@)),
        cc_total(cc_view(old(tab)@)) + chars@.len() <= u64::MAX,
    ensures
        cc_view(final(tab)@) == cc_fold_from(cc_view(old(tab)@), normalize_seq(chars@)),
        cc_wf(cc_view(final(tab)@)),
{
    let ghost es0 = cc_view(tab@);
    let mut i: usize = 0;
    proof {
        lemma_normalize_len_le(chars@);
    }
    while i < chars.len()
        invariant
            i <= chars@.len(),
            cc_wf(cc_view(tab@)),
            cc_view(tab@) == cc_fold_from(es0, normalize_seq(chars@.subrange(0, i as int))),
            cc_wf(es0),
            cc_total(es0) + chars@.len() <= u64::MAX,
        decreases chars@.len() - i,
    {
        let c = chars[i];
        proof {
            let pre = chars@.subrange(0, i as int);
            let pre1 = chars@.subrange(0, i + 1);
            assert(pre1.drop_last() == pre);
            assert(pre1.last() == chars@[i as int]);
            lemma_normalize_len_le(pre1);
            lemma_cc_fold_from_total(es0, normalize_seq(pre));
            lemma_cc_fold_from_total(es0, normalize_seq(pre1));
            lemma_cc_total_nonneg(es0);
        }
        if char_is_alnum(c) {
            let lc = to_lower_char(c);
            cc_bump(tab, lc);
            proof {
                let pre = chars@.subrange(0, i as int);
                let pre1 = chars@.subrange(0, i + 1);
                assert(normalize_seq(pre1) == normalize_seq(pre) + seq![lower_char(chars@[i as int])]);
                assert(normalize_seq(pre1).drop_last() == normalize_seq(pre));
                assert(normalize_seq(pre1).last() == lower_char(chars@[i as int]));
            }
        } else {
            proof {
                let pre = chars@.subrange(0, i as int);
                let pre1 = chars@.subrange(0, i + 1);
                assert(normalize_seq(pre1) == normalize_seq(pre) + Seq::<char>::empty());
                assert(normalize_seq(pre1) == normalize_seq(pre));
            }
        }
        i += 1;
    }
    proof {
        assert(chars@.subrange(0, chars@.len() as int) == chars@);
    }
}

/// Shannon entropy of the accumulated table, in millibits.
pub fn entropy_millibits(tab: &Vec<(char, u64)>) -> (r: u64)
    requires
        cc_wf(cc_view(tab@)),
        cc_total(cc_view(tab@)) <= u64::MAX,
    ensures
        r as int == entropy_millibits_of(cc_view(tab@)),
        r <= 63 * 1000 + 1000,
{
    let ghost es = cc_view(tab@);
    let n = tab.len();
    // Total character count.
    let mut total: u64 = 0;
    let mut i: usize = 0;
    while i < n
        invariant
            i <= n,
            n == tab.len(),
            es == cc_view(tab@),
            cc_wf(es),
            cc_total(es) <= u64::MAX,
            total as int == cc_total(es.subrange(0, i as int)),
        decreases n - i,
    {
        proof {
            let pre1 = es.subrange(0, i + 1);
            assert(pre1.drop_last() == es.subrange(0, i as int));
            assert(pre1.last() == es[i as int]);
            lemma_cc_total_split(es, i + 1);
            lemma_cc_total_nonneg(es.subrange(i + 1, es.len() as int));
            lemma_cc_total_nonneg(es.subrange(0, i + 1));
        }
        total = total + tab[i].1;
        i += 1;
    }
    proof {
        assert(es.subrange(0, es.len() as int) == es);
    }
    if total == 0 {
        return 0;
    }
    let t = log2_q16(total);
    // Weighted sum of count * lg16(count).
    let mut ws: u128 = 0;
    i = 0;
    while i < n
        invariant
            i <= n,
            n == tab.len(),
            es == cc_view(tab@),
            cc_wf(es),
            total as int == cc_total(es),
            ws as int == cc_wsum(es.subrange(0, i as int)),
            ws as int <= cc_total(es.subrange(0, i as int)) * 0x800000,
        decreases n - i,
    {
        proof {
            let pre = es.subrange(0, i as int);
            let pre1 = es.subrange(0, i + 1);
            assert(pre1.drop_last() == pre);
            assert(pre1.last() == es[i as int]);
            lemma_cc_count_le_total(es, i as int);
            lemma_cc_total_split(es, i + 1);
            lemma_cc_total_nonneg(es.subrange(i + 1, es.len() as int));
            lemma_cc_total_nonneg(pre);
            lemma_lg16_bound(tab@[i as int].1 as nat);
            vstd::arithmetic::mul::lemma_mul_inequality(
                lg16(tab@[i as int].1 as nat) as int,
                0x800000,
                tab@[i as int].1 as int,
            );
            vstd::arithmetic::mul::lemma_mul_is_commutative(
                lg16(tab@[i as int].1 as nat) as int,
                tab@[i as int].1 as int,
            );
            vstd::arithmetic::mul::lemma_mul_is_commutative(0x800000, tab@[i as int].1 as int);
            vstd::arithmetic::mul::lemma_mul_is_distributive_add(
                0x800000,
                cc_total(pre),
                tab@[i as int].1 as int,
            );
            vstd::arithmetic::mul::lemma_mul_is_commutative(
                0x800000,
                cc_total(pre) + tab@[i as int].1 as int,
            );
            vstd::arithmetic::mul::lemma_mul_is_commutative(0x800000, cc_total(pre));
            vstd::arithmetic::mul::lemma_mul_inequality(
                cc_total(pre1),
                cc_total(es),
                0x800000,
            );
            vstd::arithmetic::mul::lemma_mul_is_commutative(cc_total(es), 0x800000);
        }
        let cnt = tab[i].1;
        let l = log2_q16(cnt);
        ws = ws + (cnt as u128) * (l as u128);
        i += 1;
    }
    proof {
        assert(es.subrange(0, es.len() as int) == es);
        // ws / total stays below 2^23.
        vstd::arithmetic::div_mod::lemma_div_is_ordered(
            ws as int,
            cc_total(es) * 0x800000,
            total as int,
        );
        vstd::arithmetic::div_mod::lemma_multiply_divide_lt(
            ws as int,
            total as int,
            0x800001,
        );
        assert(cc_total(es) * 0x800000 < total as int * 0x800001) by (nonlinear_arith)
            requires
                cc_total(es) == total as int,
                total >= 1,
        ;
        vstd::arithmetic::div_mod::lemma_div_pos_is_pos(ws as int, total as int);
    }
    let s128 = ws / (total as u128);
    let s = s128 as u64;
    let h: u64 = if s >= t {
        0
    } else {
        t - s
    };
    let milli = (((h as u128) * 1000) / 65536) as u64;
    proof {
        assert(entropy_q16_of(es) == h as int);
        assert(milli as int == entropy_millibits_of(es));
        assert((h as int) * 1000 <= (63 * 65536 + 65535) * 1000) by (nonlinear_arith)
            requires
                h as int <= 63 * 65536 + 65535,
        ;
        vstd::arithmetic::div_mod::lemma_div_is_ordered(
            (h as int) * 1000,
            ((63 * 65536 + 65535) * 1000) as int,
            65536,
        );
    }
    milli
}

/// Shannon entropy of one text, in millibits: the entropy of the
/// character distribution of the normalized text (lower-cased,
/// non-alphanumeric characters dropped).  Zero when nothing remains
/// after normalization.
pub fn calculate_shannon_entropy(text: &str) -> (r: u64)
    ensures
        r as int == entropy_millibits_of(cc_fold(normalize_seq(text@))),
{
    let chars = str_to_chars(text);
    let mut tab: Vec<(char, u64)> = Vec::new();
    let n = chars.len();
    proof {
        assert(cc_view(tab@) =~= Seq::<(char, int)>::empty());
        assert(cc_total(cc_view(tab@)) == 0);
        assert(chars@.len() <= u64::MAX);
        lemma_normalize_len_le(chars@);
    }
    cc_accumulate(&mut tab, &chars);
    proof {
        lemma_cc_fold_from_total(Seq::<(char, int)>::empty(), normalize_seq(chars@));
    }
    entropy_millibits(&tab)
}

} // verus!
