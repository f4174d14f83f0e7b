//! The mathematical model of a word's set bits, and the facts about the
//! 128-bit primitives that every width is computed with.
use vstd::arithmetic::power2::{lemma_pow2_strictly_increases, pow2};
use vstd::arithmetic::div_mod::lemma_basic_div;
use vstd::bits::lemma_u128_shr_is_div;
use vstd::prelude::*;

verus! {

/// Bit `i` (0 = least significant) of the 128-bit pattern `v` is 1.
pub open spec fn has_bit(v: u128, i: nat) -> bool {
    i < 128 && (v >> (i as u128)) & 1 == 1
}

/// The positions below `n` whose bit is set in `v`, in ascending order.
pub open spec fn bit_positions(v: u128, n: nat) -> Seq<nat>
    decreases n,
{
    if n == 0 {
        seq![]
    } else {
        let below = bit_positions(v, (n - 1) as nat);
        if has_bit(v, (n - 1) as nat) {
            below.push((n - 1) as nat)
        } else {
            below
        }
    }
}

/// The number of bits set in `v`.
pub open spec fn popcount(v: u128) -> nat {
    bit_positions(v, 128).len()
}

/// `v` is a pattern of at most `w` bits: it is below `2^w`.
pub open spec fn fits_width(v: u128, w: nat) -> bool {
    w >= 128 || v < pow2(w)
}

/// Every element is smaller than the one after it.
pub open spec fn strictly_ascending(s: Seq<nat>) -> bool {
    forall|i: int, j: int| 0 <= i < j < s.len() ==> s[i] < s[j]
}

/// `u128::trailing_zeros`: for a non-zero value, bit `r` is set and the `r`
/// bits below it are clear; zero has 128 trailing zeros.
pub assume_specification[ u128::trailing_zeros ](i: u128) -> (r: u32)
    ensures
        i == 0 ==> r == 128,
        i != 0 ==> r < 128 && (i >> (r as u128)) & 1 == 1 && (i >> (r as u128)) << (r as u128)
            == i,
;

/// `u128::leading_zeros`: for a non-zero value, the highest set bit is at
/// position `127 - r`; zero has 128 leading zeros.
pub assume_specification[ u128::leading_zeros ](i: u128) -> (r: u32)
    ensures
        i == 0 ==> r == 128,
        i != 0 ==> r < 128 && i >> ((127 - r) as u128) == 1,
;

/// `u128::count_ones`: the number of bits set.
pub assume_specification[ u128::count_ones ](i: u128) -> (r: u32)
    ensures
        r as nat == popcount(i),
;

/// Clearing the lowest set bit `t` of `v` with `v & (v - 1)` clears that bit
/// and keeps every other one.
pub proof fn lemma_clear_lowest_bit(v: u128, t: u128, i: u128)
    by (bit_vector)
    requires
        t < 128,
        i < 128,
        (v >> t) & 1 == 1,
        (v >> t) << t == v,
    ensures
        v >= 1,
        (v & ((v - 1) as u128)) < v,
        ((v & ((v - 1) as u128)) >> i) & 1 == 1 <==> ((v >> i) & 1 == 1 && i != t),
        i < t ==> (v >> i) & 1 == 0,
{
}

/// Clearing the highest set bit `h` of `v` with `v ^ (1 << h)` clears that bit
/// and keeps every other one.
pub proof fn lemma_clear_highest_bit(v: u128, h: u128, i: u128)
    by (bit_vector)
    requires
        h < 128,
        i < 128,
        v >> h == 1,
    ensures
        (v >> h) & 1 == 1,
        (v ^ (1u128 << h)) < v,
        ((v ^ (1u128 << h)) >> i) & 1 == 1 <==> ((v >> i) & 1 == 1 && i != h),
        i > h ==> (v >> i) & 1 == 0,
{
}

/// No bit of zero is set.
pub proof fn lemma_zero_has_no_bit(i: u128)
    by (bit_vector)
    ensures
        (0u128 >> i) & 1 == 0,
        0u128 & 1 == 0,
{
}

/// The positions below `n` are strictly ascending, each below `n`, and are
/// exactly the set bits below `n`.
pub proof fn lemma_bit_positions(v: u128, n: nat)
    ensures
        strictly_ascending(bit_positions(v, n)),
        forall|k: int| 0 <= k < bit_positions(v, n).len() ==> #[trigger] bit_positions(v, n)[k] < n,
        forall|p: nat| #[trigger]
            bit_positions(v, n).contains(p) <==> (p < n && has_bit(v, p)),
        bit_positions(v, n).len() <= n,
    decreases n,
{
    if n > 0 {
        let m = (n - 1) as nat;
        lemma_bit_positions(v, m);
        let below = bit_positions(v, m);
        let all = bit_positions(v, n);
        assert forall|p: nat| #[trigger] all.contains(p) <==> (p < n && has_bit(v, p)) by {
            if p < n && has_bit(v, p) {
                if p == m {
                    assert(all[below.len() as int] == p);
                } else {
                    assert(below.contains(p));
                    let k = choose|k: int| 0 <= k < below.len() && below[k] == p;
                    assert(all[k] == p);
                }
            }
            if all.contains(p) {
                let k = choose|k: int| 0 <= k < all.len() && all[k] == p;
                if k < below.len() {
                    assert(below[k] == p);
                    assert(below.contains(p));
                }
            }
        }
    }
}

/// The model of zero is empty.
pub proof fn lemma_zero_positions(n: nat)
    ensures
        bit_positions(0, n) == Seq::<nat>::empty(),
    decreases n,
{
    if n > 0 {
        lemma_zero_positions((n - 1) as nat);
        lemma_zero_has_no_bit((n - 1) as u128);
    }
}

/// Removing the lowest set bit `t` of `v` (giving `w`) removes the first
/// position of the model.
pub proof fn lemma_positions_drop_lowest(v: u128, w: u128, t: nat, n: nat)
    requires
        t < 128,
        has_bit(v, t),
        !has_bit(w, t),
        forall|i: nat| i < t ==> !#[trigger] has_bit(v, i),
        forall|i: nat| i != t ==> #[trigger] has_bit(w, i) == has_bit(v, i),
    ensures
        n <= t ==> bit_positions(v, n) == Seq::<nat>::empty() && bit_positions(w, n) == Seq::<nat>::empty(),
        n > t ==> bit_positions(v, n) == seq![t] + bit_positions(w, n),
    decreases n,
{
    if n > 0 {
        lemma_positions_drop_lowest(v, w, t, (n - 1) as nat);
        if n - 1 == t {
            assert(bit_positions(v, n) =~= seq![t] + bit_positions(w, n));
        } else if n - 1 > t {
            assert(bit_positions(v, n) =~= seq![t] + bit_positions(w, n));
        }
    }
}

/// Removing the highest set bit `h` of `v` (giving `w`) removes the last
/// position of the model.
pub proof fn lemma_positions_drop_highest(v: u128, w: u128, h: nat, n: nat)
    requires
        h < 128,
        has_bit(v, h),
        !has_bit(w, h),
        forall|i: nat| i > h ==> !#[trigger] has_bit(v, i),
        forall|i: nat| i != h ==> #[trigger] has_bit(w, i) == has_bit(v, i),
    ensures
        n > h ==> bit_positions(v, n) == bit_positions(w, n).push(h),
        n <= h ==> bit_positions(v, n) == bit_positions(w, n),
    decreases n,
{
    if n > 0 {
        lemma_positions_drop_highest(v, w, h, (n - 1) as nat);
    }
}

/// A pattern of at most `w` bits has no set bit at or above position `w`.
pub proof fn lemma_fits_width(v: u128, w: nat, i: nat)
    requires
        fits_width(v, w),
        w <= i,
    ensures
        !has_bit(v, i),
{
    if i < 128 {
        lemma_u128_shr_is_div(v, i as u128);
        if w < i {
            lemma_pow2_strictly_increases(w, i);
        }
        lemma_basic_div(v as int, pow2(i) as int);
        lemma_zero_has_no_bit(0);
    }
}

/// With `t` the lowest set bit of `v`, `v & (v - 1)` is `v` without its first
/// position.
pub proof fn lemma_remove_lowest(v: u128, t: nat)
    requires
        t < 128,
        (v >> (t as u128)) & 1 == 1,
        (v >> (t as u128)) << (t as u128) == v,
    ensures
        v != 0,
        v & ((v - 1) as u128) < v,
        bit_positions(v, 128).len() > 0,
        bit_positions(v, 128)[0] == t,
        bit_positions(v & ((v - 1) as u128), 128) == bit_positions(v, 128).drop_first(),
{
    let w = v & ((v - 1) as u128);
    assert forall|i: nat| i < t implies !#[trigger] has_bit(v, i) by {
        lemma_clear_lowest_bit(v, t as u128, i as u128);
    }
    assert forall|i: nat| i != t implies #[trigger] has_bit(w, i) == has_bit(v, i) by {
        if i < 128 {
            lemma_clear_lowest_bit(v, t as u128, i as u128);
        }
    }
    lemma_clear_lowest_bit(v, t as u128, t as u128);
    lemma_positions_drop_lowest(v, w, t, 128);
    assert(bit_positions(w, 128) =~= bit_positions(v, 128).drop_first());
}

/// With `h` the highest set bit of `v`, `v ^ (1 << h)` is `v` without its last
/// position.
pub proof fn lemma_remove_highest(v: u128, h: nat)
    requires
        h < 128,
        v >> (h as u128) == 1,
    ensures
        v != 0,
        v ^ (1u128 << (h as u128)) < v,
        bit_positions(v, 128).len() > 0,
        bit_positions(v, 128).last() == h,
        bit_positions(v ^ (1u128 << (h as u128)), 128) == bit_positions(v, 128).drop_last(),
{
    let w = v ^ (1u128 << (h as u128));
    assert forall|i: nat| i > h implies !#[trigger] has_bit(v, i) by {
        if i < 128 {
            lemma_clear_highest_bit(v, h as u128, i as u128);
        }
    }
    assert forall|i: nat| i != h implies #[trigger] has_bit(w, i) == has_bit(v, i) by {
        if i < 128 {
            lemma_clear_highest_bit(v, h as u128, i as u128);
        }
    }
    lemma_clear_highest_bit(v, h as u128, h as u128);
    lemma_positions_drop_highest(v, w, h, 128);
    assert(bit_positions(w, 128) =~= bit_positions(v, 128).drop_last());
}

/// A non-zero pattern has a set bit.
pub proof fn lemma_nonzero_has_bit(v: u128) -> (i: nat)
    requires
        v != 0,
    ensures
        has_bit(v, i),
    decreases v,
{
    if v & 1 == 1 {
        assert(v >> 0u128 == v) by (bit_vector);
        0
    } else {
        let u = v >> 1u128;
        assert(u != 0 && u < v) by (bit_vector)
            requires
                u == v >> 1u128,
                v != 0,
                v & 1 != 1,
        ;
        let j = lemma_nonzero_has_bit(u);
        let k = j as u128;
        assert(k < 127 && (v >> ((k + 1) as u128)) & 1 == 1) by (bit_vector)
            requires
                u == v >> 1u128,
                k < 128,
                (u >> k) & 1 == 1,
        ;
        j + 1
    }
}

} // verus!
