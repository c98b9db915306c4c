//! Hamming codec over ordered bit sequences.
//!
//! Codeword positions are 1-indexed: position `p` holds a parity bit iff
//! `p` is a power of two, and every other position holds the next payload
//! bit in order. Check `k` is the XOR of all codeword bits whose 1-indexed
//! position has binary bit `k` set; the sum of the failing checks' positions
//! (the syndrome) names the single faulty position, if any.

use vstd::prelude::*;
use vstd::arithmetic::power2::{
    pow2, lemma_pow2_unfold, lemma_pow2_adds, lemma_pow2_subtracts, lemma_pow2_strictly_increases,
    lemma_pow2_pos,
};

verus! {

/// Does 1-indexed codeword position `p` hold a parity bit, i.e. is `p` a
/// power of two?
pub open spec fn parity_position(p: int) -> bool
    decreases p,
{
    if p <= 0 {
        false
    } else if p == 1 {
        true
    } else {
        p % 2 == 0 && parity_position(p / 2)
    }
}

/// Floor of the base-two logarithm.
pub open spec fn lg(n: int) -> nat
    decreases n,
{
    if n <= 1 {
        0
    } else {
        lg(n / 2) + 1
    }
}

/// How many of the 1-indexed positions `1..=n` hold payload (data) bits.
pub open spec fn data_count(n: int) -> nat
    decreases n,
{
    if n <= 0 {
        0
    } else {
        data_count(n - 1) + (if parity_position(n) {
            0nat
        } else {
            1nat
        })
    }
}

/// How many of the 1-indexed positions `1..=n` hold parity bits.
pub open spec fn parity_count_upto(n: int) -> nat
    decreases n,
{
    if n <= 0 {
        0
    } else {
        parity_count_upto(n - 1) + (if parity_position(n) {
            1nat
        } else {
            0nat
        })
    }
}

/// The first position at or after `n` that holds a data bit. Parity
/// positions are powers of two, so at most two in a row (1 and 2) ever
/// touch; two steps always suffice.
pub open spec fn next_data_position(n: nat) -> nat {
    if !parity_position(n as int) {
        n
    } else if !parity_position(n as int + 1) {
        n + 1
    } else {
        n + 2
    }
}

/// Length of the codeword that carries `d` payload bits: the 1-indexed
/// position of the `d`-th data bit.
pub open spec fn code_len(d: nat) -> nat
    decreases d,
{
    if d == 0 {
        0
    } else {
        next_data_position(code_len((d - 1) as nat) + 1)
    }
}

/// Exclusive or.
pub open spec fn xorb(a: bool, b: bool) -> bool {
    a != b
}

/// Bit `k` of the binary representation of `n`.
pub open spec fn bit_of(n: int, k: nat) -> bool {
    (n / pow2(k) as int) % 2 == 1
}

/// Parity check `k` over codeword `c`: the XOR of all bits whose 1-indexed
/// position has binary bit `k` set.
pub open spec fn check_xor(c: Seq<bool>, k: nat) -> bool
    decreases c.len(),
{
    if c.len() == 0 {
        false
    } else {
        xorb(check_xor(c.drop_last(), k), bit_of(c.len() as int, k) && c.last())
    }
}

/// The payload carried by codeword `c`: all bits at non-parity positions,
/// in order.
pub open spec fn strip_parity(c: Seq<bool>) -> Seq<bool>
    decreases c.len(),
{
    if c.len() == 0 {
        Seq::<bool>::empty()
    } else if parity_position(c.len() as int) {
        strip_parity(c.drop_last())
    } else {
        strip_parity(c.drop_last()).push(c.last())
    }
}

/// Payload `p` spread over codeword positions, with `false` placeholders at
/// every parity position.
pub open spec fn skeleton(p: Seq<bool>) -> Seq<bool> {
    Seq::new(
        code_len(p.len()),
        |i: int|
            if parity_position(i + 1) {
                false
            } else {
                p[data_count(i) as int]
            },
    )
}

/// The full Hamming codeword for payload `p`: the skeleton with every
/// parity position overwritten by its check value, computed over the
/// skeleton.
pub open spec fn encoded(p: Seq<bool>) -> Seq<bool> {
    Seq::new(
        code_len(p.len()),
        |i: int|
            if parity_position(i + 1) {
                check_xor(skeleton(p), lg(i + 1))
            } else {
                p[data_count(i) as int]
            },
    )
}

/// Sum of `pow2(j)` over the failing checks `j < k` that the codeword is
/// long enough to contain.
pub open spec fn syndrome_upto(c: Seq<bool>, k: nat) -> nat
    decreases k,
{
    if k == 0 {
        0
    } else {
        syndrome_upto(c, (k - 1) as nat) + (if pow2((k - 1) as nat) <= c.len() && check_xor(
            c,
            (k - 1) as nat,
        ) {
            pow2((k - 1) as nat)
        } else {
            0nat
        })
    }
}

/// The syndrome of codeword `c`: the sum of the 1-indexed positions of all
/// failing parity checks, which names the faulty position when exactly one
/// bit is wrong.
pub open spec fn syndrome(c: Seq<bool>) -> nat {
    syndrome_upto(c, c.len() + 1)
}

/// What decoding a codeword yields: the payload, and the 0-indexed position
/// that was corrected, if any.
pub open spec fn decoded(c: Seq<bool>) -> (Seq<bool>, Option<int>) {
    if syndrome(c) == 0 {
        (strip_parity(c), Option::<int>::None)
    } else {
        let s = syndrome(c) as int - 1;
        (strip_parity(c.update(s, !c[s])), Option::<int>::Some(s))
    }
}

/// The number of parity bits a payload of length `len` needs, sought upward
/// from candidate `r`.
pub open spec fn parity_bits_from(len: nat, r: nat) -> nat
    decreases len + 2 - r,
{
    if pow2(r) >= len + r + 1 {
        r
    } else {
        proof {
            if r >= 1 {
                lemma_pow2_ge_twice(r);
            }
        }
        parity_bits_from(len, r + 1)
    }
}

/// The number of parity bits a payload of length `len` needs: the smallest
/// `r` with `pow2(r) >= len + r + 1`.
pub open spec fn spec_parity_bits_count(len: nat) -> nat {
    parity_bits_from(len, 0)
}

/// Every power of two is a parity position.
pub proof fn lemma_parity_position_pow2(k: nat)
    ensures
        parity_position(pow2(k) as int),
    decreases k,
{
    if k == 0 {
        vstd::arithmetic::power2::lemma2_to64();
    } else {
        lemma_pow2_unfold(k);
        lemma_pow2_pos((k - 1) as nat);
        lemma_parity_position_pow2((k - 1) as nat);
    }
}

/// Every parity position is the power of two given by its logarithm.
pub proof fn lemma_parity_position_as_pow2(p: int)
    requires
        parity_position(p),
    ensures
        p >= 1,
        p == pow2(lg(p)),
    decreases p,
{
    if p == 1 {
        vstd::arithmetic::power2::lemma2_to64();
    } else {
        lemma_parity_position_as_pow2(p / 2);
        lemma_pow2_unfold((lg(p / 2) + 1) as nat);
    }
}

/// The logarithm inverts the power of two.
pub proof fn lemma_lg_pow2(k: nat)
    ensures
        lg(pow2(k) as int) == k,
    decreases k,
{
    if k == 0 {
        vstd::arithmetic::power2::lemma2_to64();
    } else {
        lemma_pow2_unfold(k);
        lemma_pow2_pos((k - 1) as nat);
        lemma_lg_pow2((k - 1) as nat);
    }
}

/// Two consecutive parity positions only occur at 1 and 2.
pub proof fn lemma_parity_adjacent(p: int)
    requires
        p >= 2,
        parity_position(p),
    ensures
        !parity_position(p + 1),
{
}

/// `next_data_position` lands on the first data position at or after `n`.
pub proof fn lemma_next_data(n: nat)
    requires
        n >= 1,
    ensures
        !parity_position(next_data_position(n) as int),
        n <= next_data_position(n) <= n + 2,
        forall|j: int| n <= j < next_data_position(n) ==> parity_position(j),
        n >= 3 ==> next_data_position(n) <= n + 1,
{
    if parity_position(n as int) && parity_position(n as int + 1) {
        if n >= 2 {
            lemma_parity_adjacent(n as int);
        }
        assert(n == 1);
        assert(!parity_position(3));
    }
}

/// `data_count` grows by at most one per position.
pub proof fn lemma_data_count_mono(a: int, b: int)
    requires
        a <= b,
    ensures
        data_count(a) <= data_count(b) <= data_count(a) + (b - a),
    decreases b - a,
{
    if a < b {
        lemma_data_count_mono(a, b - 1);
    }
}

/// `data_count` is flat across a run of parity positions.
pub proof fn lemma_data_count_parity_run(a: int, b: int)
    requires
        a <= b,
        forall|j: int| a < j <= b ==> parity_position(j),
    ensures
        data_count(b) == data_count(a),
    decreases b - a,
{
    if a < b {
        lemma_data_count_parity_run(a, b - 1);
    }
}

/// The codeword for `d` payload bits ends on its `d`-th data position.
pub proof fn lemma_code_len(d: nat)
    ensures
        data_count(code_len(d) as int) == d,
        d >= 1 ==> !parity_position(code_len(d) as int),
        d >= 1 ==> 3 <= code_len(d) <= 2 * d + 1,
        d >= 1 ==> code_len(d) >= code_len((d - 1) as nat) + 1,
    decreases d,
{
    if d >= 1 {
        lemma_code_len((d - 1) as nat);
        let prev = code_len((d - 1) as nat);
        let next = next_data_position(prev + 1);
        lemma_next_data(prev + 1);
        lemma_data_count_parity_run(prev as int, next - 1);
        if d == 1 {
            assert(next == 3) by {
                reveal_with_fuel(parity_position, 3);
            }
        } else {
            assert(prev >= 3);
        }
    }
}

/// A data position whose data count is `d` is exactly `code_len(d)`.
pub proof fn lemma_code_len_unique(d: nat, n: int)
    requires
        d >= 1,
        n >= 1,
        !parity_position(n),
        data_count(n) == d,
    ensures
        n == code_len(d),
{
    lemma_code_len(d);
    let l = code_len(d) as int;
    if n < l {
        lemma_data_count_mono(n, l - 1);
        assert(data_count(l) == data_count(l - 1) + 1);
    } else if n > l {
        lemma_data_count_mono(l, n - 1);
        assert(data_count(n) == data_count(n - 1) + 1);
    }
}

/// Data and parity positions together fill the prefix.
pub proof fn lemma_counts_sum(n: int)
    requires
        n >= 0,
    ensures
        data_count(n) + parity_count_upto(n) == n,
    decreases n,
{
    if n > 0 {
        lemma_counts_sum(n - 1);
    }
}

/// No parity position lies strictly between consecutive powers of two.
pub proof fn lemma_no_parity_between(k: nat, j: int)
    requires
        pow2(k) < j < pow2(k + 1),
    ensures
        !parity_position(j),
{
    if parity_position(j) {
        lemma_parity_position_as_pow2(j);
        if lg(j) < k {
            lemma_pow2_strictly_increases(lg(j), k);
        } else if lg(j) > k + 1 {
            lemma_pow2_strictly_increases(k + 1, lg(j));
        }
    }
}

/// `parity_count_upto` is flat across a run of data positions.
pub proof fn lemma_parity_count_data_run(a: int, b: int)
    requires
        a <= b,
        forall|j: int| a < j <= b ==> !parity_position(j),
    ensures
        parity_count_upto(b) == parity_count_upto(a),
    decreases b - a,
{
    if a < b {
        lemma_parity_count_data_run(a, b - 1);
    }
}

/// `parity_count_upto` grows by at most one per position.
pub proof fn lemma_parity_count_mono(a: int, b: int)
    requires
        a <= b,
    ensures
        parity_count_upto(a) <= parity_count_upto(b) <= parity_count_upto(a) + (b - a),
    decreases b - a,
{
    if a < b {
        lemma_parity_count_mono(a, b - 1);
    }
}

/// Exactly `k` parity positions precede the `k`-th power of two.
pub proof fn lemma_parity_count_pow2(k: nat)
    ensures
        parity_count_upto(pow2(k) as int - 1) == k,
        parity_count_upto(pow2(k) as int) == k + 1,
    decreases k,
{
    lemma_pow2_pos(k);
    lemma_parity_position_pow2(k);
    if k == 0 {
        vstd::arithmetic::power2::lemma2_to64();
    } else {
        lemma_parity_count_pow2((k - 1) as nat);
        lemma_pow2_strictly_increases((k - 1) as nat, k);
        assert forall|j: int| pow2((k - 1) as nat) < j <= pow2(k) - 1 implies !parity_position(
            j,
        ) by {
            lemma_pow2_unfold(k);
            lemma_no_parity_between((k - 1) as nat, j);
        }
        lemma_parity_count_data_run(pow2((k - 1) as nat) as int, pow2(k) as int - 1);
    }
}

/// A power of two at least doubles its exponent.
pub proof fn lemma_pow2_ge_twice(r: nat)
    requires
        r >= 1,
    ensures
        pow2(r) >= 2 * r,
    decreases r,
{
    lemma_pow2_unfold(r);
    if r == 1 {
        vstd::arithmetic::power2::lemma2_to64();
    } else {
        lemma_pow2_ge_twice((r - 1) as nat);
    }
}

/// A power of two exceeds its exponent.
pub proof fn lemma_pow2_gt_exp(k: nat)
    ensures
        pow2(k) > k,
    decreases k,
{
    if k == 0 {
        vstd::arithmetic::power2::lemma2_to64();
    } else {
        lemma_pow2_gt_exp((k - 1) as nat);
        lemma_pow2_unfold(k);
    }
}

/// Two raised to the logarithm stays below its argument.
pub proof fn lemma_pow2_lg_le(n: int)
    requires
        n >= 1,
    ensures
        pow2(lg(n)) <= n,
    decreases n,
{
    if n == 1 {
        vstd::arithmetic::power2::lemma2_to64();
    } else {
        lemma_pow2_lg_le(n / 2);
        lemma_pow2_unfold(lg(n / 2) + 1);
    }
}

/// The logarithm of any machine-word value fits well below the word size.
pub proof fn lemma_lg_bound(n: int)
    requires
        1 <= n <= usize::MAX,
    ensures
        lg(n) < 64,
{
    lemma_pow2_lg_le(n);
    if lg(n) >= 64 {
        if lg(n) > 64 {
            lemma_pow2_strictly_increases(64, lg(n));
        }
        vstd::arithmetic::power2::lemma2_to64_rest();
    }
}

/// `parity_bits_from` finds the least sufficient count at or above its
/// starting candidate.
pub proof fn lemma_parity_bits_from_props(len: nat, r: nat)
    ensures
        r <= parity_bits_from(len, r),
        pow2(parity_bits_from(len, r)) >= len + parity_bits_from(len, r) + 1,
        forall|j: nat| r <= j < parity_bits_from(len, r) ==> pow2(j) < len + j + 1,
    decreases len + 2 - r,
{
    if pow2(r) >= len + r + 1 {
    } else {
        if r >= 1 {
            lemma_pow2_ge_twice(r);
        }
        lemma_parity_bits_from_props(len, r + 1);
    }
}

/// A search that failed below `r` and succeeds at `r` ends at `r`.
pub proof fn lemma_parity_bits_from_reaches(len: nat, r0: nat, r: nat)
    requires
        r0 <= r,
        pow2(r) >= len + r + 1,
        forall|j: nat| r0 <= j < r ==> pow2(j) < len + j + 1,
    ensures
        parity_bits_from(len, r0) == r,
    decreases r - r0,
{
    if r0 < r {
        assert(pow2(r0) < len + r0 + 1);
        lemma_parity_bits_from_reaches(len, r0 + 1, r);
    }
}

/// A codeword never needs more parity bits than data bits, plus two.
pub proof fn lemma_parity_bits_count_le(len: nat)
    ensures
        spec_parity_bits_count(len) <= len + 2,
{
    lemma_parity_bits_from_props(len, 0);
    if spec_parity_bits_count(len) > len + 2 {
        assert(pow2(len + 2) < len + (len + 2) + 1);
        lemma_pow2_gt_exp(len);
        lemma_pow2_unfold(len + 1);
        lemma_pow2_unfold(len + 2);
    }
}

/// Two distinct data positions carry distinct payload bits, in order.
pub proof fn lemma_data_cell_injective(i: int, j: int)
    requires
        0 <= i < j,
        !parity_position(i + 1),
        !parity_position(j + 1),
    ensures
        data_count(i) < data_count(j),
{
    assert(data_count(i + 1) == data_count(i) + 1);
    lemma_data_count_mono(i + 1, j);
}

/// A parity position's logarithm counts the parity positions before it.
pub proof fn lemma_parity_count_at(p: int)
    requires
        parity_position(p),
    ensures
        parity_count_upto(p - 1) == lg(p),
        parity_count_upto(p) == lg(p) + 1,
{
    lemma_parity_position_as_pow2(p);
    lemma_parity_count_pow2(lg(p));
}

/// The codeword for `d` payload bits is exactly `d` data positions plus
/// the parity bits the Hamming bound demands.
pub proof fn lemma_code_len_parity(d: nat)
    ensures
        code_len(d) == d + spec_parity_bits_count(d),
        parity_count_upto(code_len(d) as int) == spec_parity_bits_count(d),
{
    if d == 0 {
        lemma_parity_bits_from_props(0, 0);
        vstd::arithmetic::power2::lemma2_to64();
        lemma_parity_bits_from_reaches(0, 0, 0);
    } else {
        lemma_code_len(d);
        let l = code_len(d) as int;
        let r = parity_count_upto(l);
        lemma_counts_sum(l);
        // The bound holds at r: every parity position up to the next power
        // of two is already inside the codeword.
        assert(pow2(r) >= d + r + 1) by {
            if pow2(r) <= l {
                lemma_parity_count_pow2(r);
                lemma_parity_count_mono(pow2(r) as int, l);
            }
        }
        // Every smaller count fails the bound: position pow2(j) lies
        // within the codeword and carries j + 1 parity positions.
        assert forall|j: nat| j < r implies pow2(j) < d + j + 1 by {
            lemma_parity_count_pow2(j);
            if pow2(j) > l {
                lemma_parity_count_mono(l, pow2(j) as int - 1);
            }
            assert(pow2(j) <= l);
            lemma_counts_sum(pow2(j) as int);
            if pow2(j) == l {
                lemma_parity_position_pow2(j);
            }
            lemma_data_count_mono(pow2(j) as int, l - 1);
            assert(data_count(l) == data_count(l - 1) + 1);
        }
        lemma_parity_bits_from_reaches(d, 0, r as nat);
    }
}

/// Inside the codeword for `d` payload bits, parity positions map to
/// parity-disk indices and data positions to payload indices, in range.
pub proof fn lemma_codeword_position(d: nat, i: int)
    requires
        1 <= d,
        0 <= i < code_len(d),
    ensures
        parity_position(i + 1) ==> lg(i + 1) < spec_parity_bits_count(d),
        !parity_position(i + 1) ==> data_count(i) < d,
{
    lemma_code_len(d);
    lemma_code_len_parity(d);
    if parity_position(i + 1) {
        lemma_parity_count_at(i + 1);
        lemma_parity_count_mono(i + 1, code_len(d) as int);
    } else {
        assert(data_count(i + 1) == data_count(i) + 1);
        lemma_data_count_mono(i + 1, code_len(d) as int);
    }
}

/// The parity-bit count satisfies the Hamming bound
/// `pow2(r) >= len + r + 1`.
pub proof fn lemma_parity_bits_count_bound(len: nat)
    ensures
        pow2(spec_parity_bits_count(len)) >= len + spec_parity_bits_count(len) + 1,
{
    lemma_parity_bits_from_props(len, 0);
}

/// The parity-bit count never decreases as the payload grows.
pub proof fn lemma_parity_bits_count_monotonic(a: nat, b: nat)
    requires
        a <= b,
    ensures
        spec_parity_bits_count(a) <= spec_parity_bits_count(b),
{
    lemma_parity_bits_from_props(a, 0);
    lemma_parity_bits_from_props(b, 0);
    if spec_parity_bits_count(a) > spec_parity_bits_count(b) {
        assert(pow2(spec_parity_bits_count(b)) < a + spec_parity_bits_count(b) + 1);
    }
}

/// A power of two has exactly one binary bit set: its own.
pub proof fn lemma_bit_of_pow2(j: nat, k: nat)
    ensures
        bit_of(pow2(j) as int, k) == (j == k),
{
    if j == k {
        lemma_pow2_pos(j);
        vstd::arithmetic::div_mod::lemma_div_by_self(pow2(j) as int);
    } else if j > k {
        lemma_pow2_subtracts(k, j);
        lemma_pow2_pos(k);
        lemma_pow2_pos((j - k) as nat);
        lemma_pow2_unfold((j - k) as nat);
        assert(pow2(j) as int / pow2(k) as int == pow2((j - k) as nat) as int) by {
            vstd::arithmetic::div_mod::lemma_div_by_multiple(
                pow2((j - k) as nat) as int,
                pow2(k) as int,
            );
        }
        assert(pow2((j - k) as nat) as int % 2 == 0) by {
            vstd::arithmetic::div_mod::lemma_mod_multiples_basic(
                pow2((j - k - 1) as nat) as int,
                2,
            );
        }
    } else {
        lemma_pow2_strictly_increases(j, k);
        lemma_pow2_pos(k);
        vstd::arithmetic::div_mod::lemma_basic_div(pow2(j) as int, pow2(k) as int);
    }
}

/// Numbers below a power of two have no bit at or above it.
pub proof fn lemma_bit_of_small(n: int, k: nat)
    requires
        0 <= n < pow2(k),
    ensures
        !bit_of(n, k),
{
    lemma_pow2_pos(k);
    vstd::arithmetic::div_mod::lemma_basic_div(n, pow2(k) as int);
}

/// Updating one codeword bit toggles exactly the checks whose binary bit
/// is set in that bit's 1-indexed position.
pub proof fn lemma_check_update(c: Seq<bool>, i: int, v: bool, k: nat)
    requires
        0 <= i < c.len(),
    ensures
        check_xor(c.update(i, v), k) == xorb(check_xor(c, k), bit_of(i + 1, k) && xorb(c[i], v)),
    decreases c.len(),
{
    let u = c.update(i, v);
    if i == c.len() - 1 {
        assert(u.drop_last() =~= c.drop_last());
    } else {
        assert(u.drop_last() =~= c.drop_last().update(i, v));
        lemma_check_update(c.drop_last(), i, v, k);
    }
}

/// Two codewords that agree on every data position differ in each check by
/// exactly that check's own parity bit.
pub proof fn lemma_check_diff(a: Seq<bool>, b: Seq<bool>, k: nat)
    requires
        a.len() == b.len(),
        forall|i: int| 0 <= i < a.len() && !parity_position(i + 1) ==> a[i] == b[i],
    ensures
        check_xor(a, k) == xorb(
            check_xor(b, k),
            pow2(k) <= a.len() && xorb(a[pow2(k) as int - 1], b[pow2(k) as int - 1]),
        ),
    decreases a.len(),
{
    lemma_pow2_pos(k);
    if a.len() == 0 {
    } else {
        let n = a.len() as int;
        assert(a.drop_last() =~= a.take(n - 1));
        assert(b.drop_last() =~= b.take(n - 1));
        lemma_check_diff(a.drop_last(), b.drop_last(), k);
        if parity_position(n) {
            lemma_parity_position_as_pow2(n);
            lemma_bit_of_pow2(lg(n), k);
            if lg(n) == k {
                assert(pow2(k) == n);
            } else {
                lemma_parity_position_pow2(k);
                if pow2(k) == n {
                    lemma_lg_pow2(k);
                }
            }
        } else {
            lemma_parity_position_pow2(k);
            assert(pow2(k) != n);
        }
    }
}

/// Every parity check of a freshly encoded codeword passes.
pub proof fn lemma_encoded_checks(p: Seq<bool>, k: nat)
    requires
        pow2(k) <= encoded(p).len(),
    ensures
        !check_xor(encoded(p), k),
{
    let e = encoded(p);
    let s = skeleton(p);
    lemma_check_diff(e, s, k);
    lemma_pow2_pos(k);
    lemma_parity_position_pow2(k);
    lemma_lg_pow2(k);
    assert(e[pow2(k) as int - 1] == check_xor(s, k));
    assert(s[pow2(k) as int - 1] == false);
}

/// A codeword whose checks all pass has syndrome contribution zero up to
/// any bound.
proof fn lemma_syndrome_upto_zero(c: Seq<bool>, m: nat)
    requires
        forall|k: nat| pow2(k) <= c.len() ==> !check_xor(c, k),
    ensures
        syndrome_upto(c, m) == 0,
    decreases m,
{
    if m > 0 {
        lemma_syndrome_upto_zero(c, (m - 1) as nat);
    }
}

/// A codeword whose checks all pass has syndrome zero.
pub proof fn lemma_checks_zero_syndrome(c: Seq<bool>)
    requires
        forall|k: nat| pow2(k) <= c.len() ==> !check_xor(c, k),
    ensures
        syndrome(c) == 0,
{
    lemma_syndrome_upto_zero(c, c.len() + 1);
}

/// The syndrome accumulated over the first `m` checks stays below
/// `pow2(m)`.
pub proof fn lemma_syndrome_upto_bound(c: Seq<bool>, m: nat)
    ensures
        syndrome_upto(c, m) < pow2(m),
    decreases m,
{
    if m == 0 {
        vstd::arithmetic::power2::lemma2_to64();
    } else {
        lemma_syndrome_upto_bound(c, (m - 1) as nat);
        lemma_pow2_unfold(m);
    }
}

/// Splitting a remainder at a doubled divisor isolates one binary digit.
proof fn lemma_mod_split(x: int, d: int)
    requires
        x >= 0,
        d >= 1,
    ensures
        x % (2 * d) == x % d + d * ((x / d) % 2),
{
    let q = x / d;
    let r = x % d;
    vstd::arithmetic::div_mod::lemma_fundamental_div_mod(x, d);
    vstd::arithmetic::div_mod::lemma_fundamental_div_mod(q, 2);
    assert(x == (q / 2) * (2 * d) + ((q % 2) * d + r)) by (nonlinear_arith)
        requires
            x == d * q + r,
            q == 2 * (q / 2) + q % 2,
    ;
    assert(0 <= (q % 2) * d + r < 2 * d) by (nonlinear_arith)
        requires
            d >= 1,
            0 <= r < d,
            0 <= q % 2 < 2,
    ;
    vstd::arithmetic::div_mod::lemma_fundamental_div_mod_converse(
        x,
        2 * d,
        q / 2,
        (q % 2) * d + r,
    );
}

/// Adding a multiple of `pow2(m)` to a value below `pow2(m)` leaves the
/// low bits alone and writes the multiplier's parity at bit `m`.
proof fn lemma_bit_add_high(a: int, b: int, m: nat, k: nat)
    requires
        0 <= a < pow2(m),
        b == 0 || b == 1,
    ensures
        k < m ==> bit_of(a + b * pow2(m), k) == bit_of(a, k),
        bit_of(a + b * pow2(m), m) == (b == 1),
{
    lemma_pow2_pos(m);
    if k < m {
        lemma_pow2_pos(k);
        lemma_pow2_adds(k, (m - k) as nat);
        assert(b * pow2(m) == (b * pow2((m - k) as nat)) * pow2(k) as int) by (nonlinear_arith)
            requires
                pow2(m) == pow2(k) * pow2((m - k) as nat),
        ;
        vstd::arithmetic::div_mod::lemma_hoist_over_denominator(
            a,
            b * pow2((m - k) as nat) as int,
            pow2(k),
        );
        lemma_pow2_unfold((m - k) as nat);
        assert(b * pow2((m - k) as nat) == 2 * (b * pow2((m - k - 1) as nat))) by (nonlinear_arith)
            requires
                pow2((m - k) as nat) == 2 * pow2((m - k - 1) as nat),
        ;
        vstd::arithmetic::div_mod::lemma_mod_multiples_vanish(
            b * pow2((m - k - 1) as nat) as int,
            a / pow2(k) as int,
            2,
        );
    }
    vstd::arithmetic::div_mod::lemma_hoist_over_denominator(a, b, pow2(m));
    vstd::arithmetic::div_mod::lemma_basic_div(a, pow2(m) as int);
}

/// Bit `k` of the accumulated syndrome is exactly check `k`, for checks
/// the codeword is long enough to contain.
proof fn lemma_syndrome_upto_bits(c: Seq<bool>, m: nat, k: nat)
    requires
        k < m,
    ensures
        bit_of(syndrome_upto(c, m) as int, k) == (pow2(k) <= c.len() && check_xor(c, k)),
    decreases m,
{
    let prev = syndrome_upto(c, (m - 1) as nat);
    lemma_syndrome_upto_bound(c, (m - 1) as nat);
    let g: int = if pow2((m - 1) as nat) <= c.len() && check_xor(c, (m - 1) as nat) {
        1
    } else {
        0
    };
    assert(syndrome_upto(c, m) == prev + g * pow2((m - 1) as nat));
    lemma_bit_add_high(prev as int, g, (m - 1) as nat, k);
    if k < m - 1 {
        lemma_syndrome_upto_bits(c, (m - 1) as nat, k);
    }
}

/// Bit `k` of the syndrome is exactly check `k`.
pub proof fn lemma_syndrome_bits(c: Seq<bool>, k: nat)
    ensures
        bit_of(syndrome(c) as int, k) == (pow2(k) <= c.len() && check_xor(c, k)),
{
    if k < c.len() + 1 {
        lemma_syndrome_upto_bits(c, c.len() + 1, k);
    } else {
        lemma_pow2_gt_exp(c.len() + 1);
        if k > c.len() + 1 {
            lemma_pow2_strictly_increases(c.len() + 1, k);
        }
        lemma_syndrome_upto_bound(c, c.len() + 1);
        lemma_bit_of_small(syndrome(c) as int, k);
    }
}

/// Flipping the bit the syndrome names clears every check.
pub proof fn lemma_flip_clean(c: Seq<bool>)
    requires
        1 <= syndrome(c) <= c.len(),
    ensures
        syndrome(c.update(syndrome(c) as int - 1, !c[syndrome(c) as int - 1])) == 0,
{
    let s = syndrome(c) as int;
    let fixed = c.update(s - 1, !c[s - 1]);
    assert forall|k: nat| pow2(k) <= fixed.len() implies !check_xor(fixed, k) by {
        lemma_check_update(c, s - 1, !c[s - 1], k);
        lemma_syndrome_bits(c, k);
    }
    lemma_checks_zero_syndrome(fixed);
}

/// A codeword at distance one from satisfying every check has the flipped
/// position's 1-indexed number as its syndrome.
proof fn lemma_syn_upto_flip(c: Seq<bool>, i: int, m: nat)
    requires
        0 <= i < c.len(),
        forall|k: nat| pow2(k) <= c.len() ==> check_xor(c, k) == bit_of(i + 1, k),
    ensures
        syndrome_upto(c, m) == (i + 1) % pow2(m) as int,
    decreases m,
{
    lemma_pow2_pos(m);
    if m == 0 {
        vstd::arithmetic::power2::lemma2_to64();
        assert((i + 1) % 1int == 0) by {
            vstd::arithmetic::div_mod::lemma_mod_self_0(1);
            vstd::arithmetic::div_mod::lemma_mod_multiples_vanish(i + 1, 0, 1);
        }
    } else {
        lemma_syn_upto_flip(c, i, (m - 1) as nat);
        lemma_pow2_pos((m - 1) as nat);
        lemma_pow2_unfold(m);
        let d = pow2((m - 1) as nat) as int;
        lemma_mod_split(i + 1, d);
        let g: int = if pow2((m - 1) as nat) <= c.len() && check_xor(c, (m - 1) as nat) {
            1
        } else {
            0
        };
        if pow2((m - 1) as nat) > c.len() {
            lemma_bit_of_small(i + 1, (m - 1) as nat);
        }
        assert(g == if bit_of(i + 1, (m - 1) as nat) {
            1int
        } else {
            0int
        });
        assert(((i + 1) / d) % 2 == (if bit_of(i + 1, (m - 1) as nat) {
            1int
        } else {
            0int
        }));
        assert(syndrome_upto(c, m) == syndrome_upto(c, (m - 1) as nat) + g * d);
        assert((i + 1) % (2 * d) == (i + 1) % d + d * (((i + 1) / d) % 2));
        assert(2 * d == pow2(m));
        assert(syndrome_upto(c, (m - 1) as nat) == (i + 1) % d);
        assert(d * (((i + 1) / d) % 2) == g * d) by (nonlinear_arith)
            requires
                ((i + 1) / d) % 2 == g,
        ;
        assert(syndrome_upto(c, m) == (i + 1) % (2 * d));
        assert(syndrome_upto(c, m) == (i + 1) % pow2(m) as int);
    }
}

/// Flipping one bit of a clean codeword sets the syndrome to that bit's
/// 1-indexed position.
pub proof fn lemma_syndrome_of_flip(c: Seq<bool>, i: int)
    requires
        0 <= i < c.len(),
        forall|k: nat| pow2(k) <= c.len() ==> !check_xor(c, k),
    ensures
        syndrome(c.update(i, !c[i])) == i + 1,
{
    let flipped = c.update(i, !c[i]);
    assert forall|k: nat| pow2(k) <= flipped.len() implies check_xor(flipped, k) == bit_of(
        i + 1,
        k,
    ) by {
        lemma_check_update(c, i, !c[i], k);
    }
    lemma_syn_upto_flip(flipped, i, c.len() + 1);
    lemma_pow2_gt_exp(c.len() + 1);
    vstd::arithmetic::div_mod::lemma_small_mod((i + 1) as nat, pow2(c.len() + 1));
}

/// Stripping the parity positions from a codeword whose data positions
/// spell out `p` recovers `p` itself, prefix by prefix.
proof fn lemma_strip_take(c: Seq<bool>, p: Seq<bool>, n: int)
    requires
        0 <= n <= c.len(),
        data_count(n) <= p.len(),
        forall|i: int| 0 <= i < n && !parity_position(i + 1) ==> c[i] == p[data_count(i) as int],
    ensures
        strip_parity(c.take(n)) == p.take(data_count(n) as int),
    decreases n,
{
    if n == 0 {
        assert(strip_parity(c.take(0)) =~= p.take(0));
    } else {
        lemma_data_count_mono(n - 1, n);
        lemma_strip_take(c, p, n - 1);
        assert(c.take(n).drop_last() =~= c.take(n - 1));
        if !parity_position(n) {
            assert(p.take(data_count(n - 1) as int).push(p[data_count(n - 1) as int]) =~= p.take(
                data_count(n) as int,
            ));
        }
    }
}

/// Stripping an encoded codeword recovers the payload.
pub proof fn lemma_strip_encoded(p: Seq<bool>)
    ensures
        strip_parity(encoded(p)) == p,
{
    let e = encoded(p);
    lemma_code_len(p.len());
    lemma_strip_take(e, p, e.len() as int);
    assert(e.take(e.len() as int) =~= e);
    assert(p.take(p.len() as int) =~= p);
}

/// Maps a numeric sequence to bits: `1` becomes `true`, anything else
/// `false`.
pub fn num_to_bool(values: &[i32]) -> (r: Vec<bool>)
    ensures
        r@.len() == values@.len(),
        forall|i: int| 0 <= i < values@.len() ==> r@[i] == (values@[i] == 1),
{
    let mut bits: Vec<bool> = Vec::new();
    let mut idx: usize = 0;
    while idx < values.len()
        invariant
            idx <= values@.len(),
            bits@.len() == idx,
            forall|i: int| 0 <= i < idx ==> bits@[i] == (values@[i] == 1),
        decreases values@.len() - idx,
    {
        bits.push(values[idx] == 1);
        idx += 1;
    }
    bits
}

/// Is `num` a parity position? Zero also answers true, as a degenerate
/// case no codeword position ever takes.
pub fn is_power_of_two(num: usize) -> (r: bool)
    ensures
        r == (num == 0 || parity_position(num as int)),
{
    if num == 0 {
        true
    } else {
        let mut n = num;
        while n % 2 == 0
            invariant
                1 <= n <= num,
                parity_position(num as int) == parity_position(n as int),
            decreases n,
        {
            n = n / 2;
        }
        n == 1
    }
}

/// How many of the 1-indexed positions `1..=n` hold data bits.
pub fn count_data_positions(n: usize) -> (r: usize)
    ensures
        r == data_count(n as int),
{
    let mut count: usize = 0;
    let mut p: usize = 0;
    while p < n
        invariant
            p <= n,
            count <= p,
            count == data_count(p as int),
        decreases n - p,
    {
        if !is_power_of_two(p + 1) {
            count += 1;
        }
        p += 1;
    }
    count
}

/// Bit `shift` of `number`, as `0` or `1`.
pub fn bit_from_right(number: usize, shift: u32) -> (r: usize)
    ensures
        r == if bit_of(number as int, shift as nat) {
            1usize
        } else {
            0usize
        },
{
    let mut n = number;
    let mut s: u32 = 0;
    proof {
        vstd::arithmetic::power2::lemma2_to64();
    }
    while s < shift
        invariant
            s <= shift,
            n as nat == number as nat / pow2(s as nat),
        decreases shift - s,
    {
        proof {
            lemma_pow2_pos(s as nat);
            lemma_pow2_adds(s as nat, 1);
            vstd::arithmetic::power2::lemma2_to64();
            vstd::arithmetic::div_mod::lemma_div_denominator(
                number as int,
                pow2(s as nat) as int,
                2,
            );
        }
        n = n / 2;
        s = s + 1;
    }
    n % 2
}

/// Floor of the base-two logarithm, computed by halving.
fn floor_log2(num: usize) -> (r: u32)
    requires
        num >= 1,
    ensures
        r as nat == lg(num as int),
{
    let mut result = num;
    let mut count: u32 = 0;
    proof {
        lemma_lg_bound(num as int);
    }
    while result > 1
        invariant
            1 <= result <= num,
            lg(num as int) == lg(result as int) + count,
            count <= lg(num as int),
            lg(num as int) < 64,
        decreases result,
    {
        result = result / 2;
        count = count + 1;
    }
    count
}

/// Spreads the payload over codeword positions, inserting a `false`
/// placeholder at every power-of-two position.
pub fn add_parity_bits(bits: &[bool]) -> (r: Vec<bool>)
    requires
        bits@.len() <= usize::MAX / 2 - 1,
    ensures
        r@ == skeleton(bits@),
{
    let ghost d = bits@.len();
    let mut encoded_bits: Vec<bool> = Vec::new();
    let mut index: usize = 0;
    let mut total_index: usize = 0;
    while index != bits.len()
        invariant
            d == bits@.len(),
            d <= usize::MAX / 2 - 1,
            index <= d,
            index == data_count(total_index as int),
            encoded_bits@.len() == total_index,
            forall|i: int|
                0 <= i < total_index ==> encoded_bits@[i] == (if parity_position(i + 1) {
                    false
                } else {
                    bits@[data_count(i) as int]
                }),
            index == d ==> total_index == code_len(d),
        decreases code_len(d) - total_index,
    {
        proof {
            lemma_code_len(d);
            if total_index >= code_len(d) {
                lemma_data_count_mono(code_len(d) as int, total_index as int);
                assert(false);
            }
        }
        if is_power_of_two(total_index + 1) {
            encoded_bits.push(false);
        } else {
            encoded_bits.push(bits[index]);
            index += 1;
            proof {
                if index == d {
                    lemma_code_len_unique(d, total_index + 1);
                }
            }
        }
        total_index += 1;
    }
    proof {
        assert(encoded_bits@ =~= skeleton(bits@));
    }
    encoded_bits
}

/// Drops every power-of-two position, recovering the payload in order.
pub fn remove_parity_bits(bits: &[bool]) -> (r: Vec<bool>)
    ensures
        r@ == strip_parity(bits@),
{
    let mut decoded_bits: Vec<bool> = Vec::new();
    let mut index: usize = 0;
    while index < bits.len()
        invariant
            index <= bits@.len(),
            decoded_bits@ == strip_parity(bits@.take(index as int)),
        decreases bits@.len() - index,
    {
        proof {
            assert(bits@.take(index as int + 1).drop_last() =~= bits@.take(index as int));
        }
        if !is_power_of_two(index + 1) {
            decoded_bits.push(bits[index]);
        }
        index += 1;
    }
    proof {
        assert(bits@.take(bits@.len() as int) =~= bits@);
    }
    decoded_bits
}

/// Parity check for 1-indexed codeword position `position` (a power of
/// two): XOR over all bits whose position has the check's binary bit set.
fn calculate_bit_at(bits: &[bool], position: usize) -> (b: bool)
    requires
        position >= 1,
    ensures
        b == check_xor(bits@, lg(position as int)),
{
    let mut bit = false;
    let shift = floor_log2(position);
    let mut index: usize = 0;
    while index < bits.len()
        invariant
            index <= bits@.len(),
            shift as nat == lg(position as int),
            bit == check_xor(bits@.take(index as int), lg(position as int)),
        decreases bits@.len() - index,
    {
        proof {
            assert(bits@.take(index as int + 1).drop_last() =~= bits@.take(index as int));
        }
        if bit_from_right(index + 1, shift) == 1 {
            bit = bit != bits[index];
        }
        index += 1;
    }
    proof {
        assert(bits@.take(bits@.len() as int) =~= bits@);
    }
    bit
}

/// The check values of a codeword: one entry per power-of-two position
/// within it, in increasing order, paired with its 0-indexed position.
pub fn calculate_parity_bits(bits: &[bool]) -> (r: Vec<(usize, bool)>)
    ensures
        r@.len() == parity_count_upto(bits@.len() as int),
        forall|j: int|
            0 <= j < r@.len() ==> (#[trigger] r@[j]).0 + 1 == pow2(j as nat) && r@[j].1
                == check_xor(bits@, j as nat) && r@[j].0 < bits@.len(),
        pow2(r@.len() as nat) > bits@.len(),
{
    let mut parity_bits: Vec<(usize, bool)> = Vec::new();
    let mut index: usize = 0;
    proof {
        vstd::arithmetic::power2::lemma2_to64();
    }
    while index < bits.len()
        invariant
            index <= bits@.len(),
            parity_bits@.len() == parity_count_upto(index as int),
            forall|j: int|
                0 <= j < parity_bits@.len() ==> (#[trigger] parity_bits@[j]).0 + 1 == pow2(j as nat)
                    && parity_bits@[j].1 == check_xor(bits@, j as nat) && parity_bits@[j].0
                    < bits@.len(),
            pow2(parity_bits@.len() as nat) > index,
        decreases bits@.len() - index,
    {
        if is_power_of_two(index + 1) {
            proof {
                lemma_parity_position_as_pow2(index as int + 1);
                lemma_parity_count_pow2(lg(index as int + 1));
            }
            let b = calculate_bit_at(bits, index + 1);
            parity_bits.push((index, b));
            proof {
                lemma_pow2_unfold(parity_bits@.len() as nat);
            }
        } else {
            proof {
                lemma_parity_position_pow2(parity_bits@.len() as nat);
            }
        }
        index += 1;
    }
    parity_bits
}

/// Builds the full Hamming codeword for a payload: the skeleton with each
/// parity position overwritten by its computed check value.
pub fn encode(bits: &[bool]) -> (r: Vec<bool>)
    requires
        bits@.len() <= usize::MAX / 2 - 1,
    ensures
        r@ == encoded(bits@),
{
    let mut encoded_bits = add_parity_bits(bits);
    let ghost s = skeleton(bits@);
    let ghost l = s.len() as int;
    let parity_bits = calculate_parity_bits(encoded_bits.as_slice());
    let mut j: usize = 0;
    while j < parity_bits.len()
        invariant
            s == skeleton(bits@),
            l == s.len(),
            j <= parity_bits@.len(),
            parity_bits@.len() == parity_count_upto(l),
            forall|t: int|
                0 <= t < parity_bits@.len() ==> (#[trigger] parity_bits@[t]).0 + 1 == pow2(t as nat)
                    && parity_bits@[t].1 == check_xor(s, t as nat) && parity_bits@[t].0 < l,
            encoded_bits@.len() == l,
            forall|i: int|
                0 <= i < l ==> encoded_bits@[i] == (if parity_position(i + 1) && lg(i + 1) < j {
                    check_xor(s, lg(i + 1))
                } else {
                    s[i]
                }),
        decreases parity_bits@.len() - j,
    {
        let ghost j0 = j as int;
        let entry = parity_bits[j];
        proof {
            lemma_parity_position_pow2(j as nat);
            lemma_lg_pow2(j as nat);
        }
        encoded_bits.set(entry.0, entry.1);
        j += 1;
        proof {
            assert forall|i: int|
                0 <= i < l implies encoded_bits@[i] == (if parity_position(i + 1) && lg(i + 1)
                < j {
                check_xor(s, lg(i + 1))
            } else {
                s[i]
            }) by {
                if i != entry.0 && parity_position(i + 1) && lg(i + 1) == j0 {
                    lemma_parity_position_as_pow2(i + 1);
                }
            }
        }
    }
    proof {
        assert forall|i: int|
            0 <= i < l && #[trigger] parity_position(i + 1) implies lg(i + 1)
            < parity_bits@.len() by {
            lemma_parity_position_as_pow2(i + 1);
            lemma_parity_count_pow2(lg(i + 1));
            lemma_parity_count_mono(i + 1, l);
        }
        assert(encoded_bits@ =~= encoded(bits@));
    }
    encoded_bits
}

/// Decoding a freshly encoded codeword returns the payload unchanged and
/// reports no correction.
pub proof fn lemma_round_trip(p: Seq<bool>)
    ensures
        decoded(encoded(p)) == (p, Option::<int>::None),
{
    assert forall|k: nat| pow2(k) <= encoded(p).len() implies !check_xor(encoded(p), k) by {
        lemma_encoded_checks(p, k);
    }
    lemma_checks_zero_syndrome(encoded(p));
    lemma_strip_encoded(p);
}

/// Checks beyond the last parity position the codeword contains add
/// nothing to the syndrome.
proof fn lemma_syndrome_upto_stable(c: Seq<bool>, m1: nat, m2: nat)
    requires
        m1 <= m2,
        pow2(m1) > c.len(),
    ensures
        syndrome_upto(c, m2) == syndrome_upto(c, m1),
    decreases m2,
{
    if m2 > m1 {
        lemma_syndrome_upto_stable(c, m1, (m2 - 1) as nat);
        if m1 < m2 - 1 {
            lemma_pow2_strictly_increases(m1, (m2 - 1) as nat);
        }
    }
}

/// Sums the 1-indexed positions of all failing parity checks: the
/// codeword's syndrome.
pub fn syndrome_value(bits: &[bool]) -> (s: usize)
    requires
        bits@.len() <= usize::MAX / 2,
    ensures
        s == syndrome(bits@),
{
    let parity_bits = calculate_parity_bits(bits);
    let ghost count = parity_bits@.len() as nat;
    let mut error_sum: usize = 0;
    let mut j: usize = 0;
    while j < parity_bits.len()
        invariant
            bits@.len() <= usize::MAX / 2,
            j <= parity_bits@.len(),
            forall|t: int|
                0 <= t < parity_bits@.len() ==> (#[trigger] parity_bits@[t]).0 + 1 == pow2(t as nat)
                    && parity_bits@[t].1 == check_xor(bits@, t as nat) && parity_bits@[t].0
                    < bits@.len(),
            error_sum == syndrome_upto(bits@, j as nat),
        decreases parity_bits@.len() - j,
    {
        let entry = parity_bits[j];
        proof {
            lemma_syndrome_upto_bound(bits@, j as nat);
            lemma_pow2_unfold((j + 1) as nat);
        }
        if entry.1 {
            error_sum += entry.0 + 1;
        }
        j += 1;
    }
    proof {
        lemma_parity_count_mono(0, bits@.len() as int);
        lemma_syndrome_upto_stable(bits@, count, bits@.len() + 1);
    }
    error_sum
}

/// Decodes a possibly corrupted codeword: computes the syndrome, flips the
/// bit it names (if any), and strips the parity positions to recover the
/// payload. With two or more flipped bits the syndrome is unreliable and
/// the result silently miscorrected; judging that is the caller's affair.
pub fn decode(bits: &[bool]) -> (r: (Vec<bool>, Option<usize>))
    requires
        bits@.len() <= usize::MAX / 2,
        syndrome(bits@) <= bits@.len(),
    ensures
        r.0@ == decoded(bits@).0,
        decoded(bits@).1 == (match r.1 {
            Option::None => Option::<int>::None,
            Option::Some(s) => Option::Some(s as int),
        }),
{
    let error_spot = syndrome_value(bits);
    if error_spot == 0 {
        (remove_parity_bits(bits), Option::None)
    } else {
        let spot = error_spot - 1;
        let mut corrected = vstd::slice::slice_to_vec(bits);
        let flipped = !corrected[spot];
        corrected.set(spot, flipped);
        proof {
            assert(corrected@ =~= bits@.update(spot as int, !bits@[spot as int]));
        }
        let payload = remove_parity_bits(corrected.as_slice());
        (payload, Option::Some(spot))
    }
}

/// Flipping any single bit of an encoded codeword decodes back to the
/// original payload, with the flipped position reported as corrected.
pub proof fn lemma_single_error_correction(p: Seq<bool>, i: int)
    requires
        0 <= i < encoded(p).len(),
    ensures
        decoded(encoded(p).update(i, !encoded(p)[i])) == (p, Option::<int>::Some(i)),
{
    let e = encoded(p);
    let c = e.update(i, !e[i]);
    assert forall|k: nat| pow2(k) <= e.len() implies !check_xor(e, k) by {
        lemma_encoded_checks(p, k);
    }
    lemma_syndrome_of_flip(e, i);
    assert(c.update(i, !c[i]) =~= e);
    lemma_strip_encoded(p);
}

/// The smallest `r` with `pow2(r) >= len + r + 1`: how many parity bits a
/// payload of `len` bits needs.
pub fn parity_bits_count(len: usize) -> (r: usize)
    requires
        len <= usize::MAX / 8,
    ensures
        r == spec_parity_bits_count(len as nat),
{
    let mut count: usize = 0;
    let mut two_power: usize = 1;
    let mut power: usize = 0;
    proof {
        vstd::arithmetic::power2::lemma2_to64();
    }
    while two_power < len + power + 1
        invariant
            count == power,
            len <= usize::MAX / 8,
            two_power == pow2(power as nat),
            power <= len + 2,
            forall|j: nat| j < power ==> pow2(j) < len + j + 1,
        decreases len + 2 - power,
    {
        proof {
            lemma_pow2_gt_exp(len as nat);
            lemma_pow2_unfold((len + 1) as nat);
            lemma_pow2_unfold((len + 2) as nat);
            assert(power <= len + 1);
            lemma_pow2_unfold((power + 1) as nat);
        }
        count += 1;
        two_power *= 2;
        power += 1;
    }
    proof {
        lemma_parity_bits_from_reaches(len as nat, 0, count as nat);
    }
    count
}

} // verus!
