//! Fisher–Yates permutation pad generation and application.
//!
//! Each pad is a random permutation of `0..n` drawn from an
//! [`InternalPrng`] stream by a Durstenfeld (in-place) Fisher–Yates
//! shuffle, with Lemire's unbiased bounded-range reduction.

use crate::prng::InternalPrng;
use vstd::prelude::*;

verus! {

/// Bound on consecutive rejected draws in [`bounded`]. A draw is rejected
/// with probability below `bound / 2^32`, so this cap is never reached in
/// practice; it only gives the rejection loop a termination measure.
pub const MAX_REJECTIONS: u64 = 0xFFFF_FFFF_FFFF_FFFF;

/// `(state after, word)` of one 32-bit draw: the upper half of one 64-bit
/// draw.
pub open spec fn draw32<P: InternalPrng>(p: P) -> (P, u32) {
    (p.next_word().0, (p.next_word().1 >> 32u64) as u32)
}

/// The 64-bit product `x * bound` of Lemire's method.
pub open spec fn wide_mul(x: u32, bound: u32) -> u64 {
    (x as int * bound as int) as u64
}

/// Low 32 bits of a 64-bit word.
pub open spec fn low_half(m: u64) -> u32 {
    m as u32
}

/// High 32 bits of a 64-bit word.
pub open spec fn high_half(m: u64) -> u32 {
    (m >> 32u64) as u32
}

/// Lemire's rejection threshold `2^32 mod bound`.
pub open spec fn rejection_threshold(bound: u32) -> u32 {
    0u32.wrapping_sub(bound) % bound
}

/// Redraws while the low half of the product is below `threshold`, with at
/// most `fuel` redraws; yields the state after and the high half of the
/// accepted product.
pub open spec fn redraw<P: InternalPrng>(p: P, bound: u32, threshold: u32, m: u64, fuel: nat) -> (
    P,
    u32,
)
    decreases fuel,
{
    if low_half(m) >= threshold || fuel == 0 {
        (p, high_half(m))
    } else {
        let (p1, x) = draw32(p);
        redraw(p1, bound, threshold, wide_mul(x, bound), (fuel - 1) as nat)
    }
}

/// Lemire's unbiased draw from `0..bound`: `(state after, value)`.
pub open spec fn bounded_spec<P: InternalPrng>(p: P, bound: u32) -> (P, u32) {
    let (p1, x) = draw32(p);
    let m = wide_mul(x, bound);
    if low_half(m) < bound {
        redraw(p1, bound, rejection_threshold(bound), m, MAX_REJECTIONS as nat)
    } else {
        (p1, high_half(m))
    }
}

proof fn lemma_high_half_below_bound(x: u32, bound: u32)
    ensures
        high_half(wide_mul(x, bound)) < bound || bound == 0,
        high_half(wide_mul(x, bound)) <= bound,
{
    let m: u64 = (x as int * bound as int) as u64;
    assert(x as int * bound as int <= 0xFFFF_FFFFint * 0xFFFF_FFFFint) by (nonlinear_arith)
        requires
            x <= 0xFFFF_FFFFu32,
            bound <= 0xFFFF_FFFFu32,
    ;
    assert(m == x as int * bound as int);
    assert((m >> 32u64) == m / 0x1_0000_0000u64) by (bit_vector);
    assert(m / 0x1_0000_0000u64 < 0x1_0000_0000u64) by (bit_vector);
    assert((x as int * bound as int) / 0x1_0000_0000int <= bound) by (nonlinear_arith)
        requires
            0 <= x < 0x1_0000_0000int,
            bound >= 0,
    ;
    assert(bound > 0 ==> (x as int * bound as int) / 0x1_0000_0000int < bound) by (nonlinear_arith)
        requires
            0 <= x < 0x1_0000_0000int,
            bound >= 0,
    ;
}

proof fn lemma_redraw_below_bound<P: InternalPrng>(
    p: P,
    bound: u32,
    threshold: u32,
    m: u64,
    fuel: nat,
)
    requires
        exists|x: u32| m == wide_mul(x, bound),
        bound > 0,
    ensures
        redraw(p, bound, threshold, m, fuel).1 < bound,
    decreases fuel,
{
    let x = choose|x: u32| m == wide_mul(x, bound);
    lemma_high_half_below_bound(x, bound);
    if low_half(m) >= threshold || fuel == 0 {
    } else {
        let (p1, x1) = draw32(p);
        lemma_high_half_below_bound(x1, bound);
        assert(wide_mul(x1, bound) == wide_mul(x1, bound));
        lemma_redraw_below_bound(p1, bound, threshold, wide_mul(x1, bound), (fuel - 1) as nat);
    }
}

/// Every bounded draw lands in `0..bound`.
pub proof fn lemma_bounded_below_bound<P: InternalPrng>(p: P, bound: u32)
    requires
        bound > 0,
    ensures
        bounded_spec(p, bound).1 < bound,
{
    let (p1, x) = draw32(p);
    lemma_high_half_below_bound(x, bound);
    let m = wide_mul(x, bound);
    if low_half(m) < bound {
        lemma_redraw_below_bound(p1, bound, rejection_threshold(bound), m, MAX_REJECTIONS as nat);
    }
}

/// The product of Lemire's method, split into its halves: `x * bound`
/// is exact in 64 bits, its low half is the remainder modulo `2^32` and
/// its high half the quotient.
proof fn lemma_wide_mul_halves(x: u32, bound: u32)
    ensures
        wide_mul(x, bound) as int == x as int * bound as int,
        low_half(wide_mul(x, bound)) as int == (x as int * bound as int) % 0x1_0000_0000,
        high_half(wide_mul(x, bound)) as int == (x as int * bound as int) / 0x1_0000_0000,
{
    assert(0 <= x as int * bound as int <= 0xFFFF_FFFFint * 0xFFFF_FFFFint) by (nonlinear_arith)
        requires
            x <= 0xFFFF_FFFFu32,
            bound <= 0xFFFF_FFFFu32,
    ;
    let m = wide_mul(x, bound);
    assert(m as int == x as int * bound as int);
    assert((m as u32) as u64 == m % 0x1_0000_0000u64) by (bit_vector);
    assert(((m >> 32u64) as u32) as u64 == m / 0x1_0000_0000u64) by (bit_vector);
}

/// Lemire's threshold `(2^32 - bound) mod bound` is `2^32 mod bound`.
proof fn lemma_rejection_threshold(bound: u32)
    requires
        bound > 0,
    ensures
        rejection_threshold(bound) as int == 0x1_0000_0000int % (bound as int),
{
    let b = bound as int;
    assert(0u32.wrapping_sub(bound) as int == 0x1_0000_0000int - b);
    let w = 0x1_0000_0000int;
    assert((w - b) % b == w % b) by (nonlinear_arith)
        requires
            b > 0,
    {
        vstd::arithmetic::div_mod::lemma_mod_sub_multiples_vanish(w, b);
    }
}

/// A draw whose product's low half reaches the rejection threshold is
/// accepted at once: the bounded draw is its high half. A word is
/// redrawn only when its low half falls short of the threshold.
pub proof fn lemma_accepted_draw<P: InternalPrng>(p: P, bound: u32)
    requires
        bound > 0,
    ensures
        ({
            let (p1, x) = draw32(p);
            let m = wide_mul(x, bound);
            low_half(m) >= rejection_threshold(bound) ==> bounded_spec(p, bound) == (
                p1,
                high_half(m),
            )
        }),
{
    assert(rejection_threshold(bound) < bound);
}

/// Each bounded draw uses the upper half of the PRNG's next 64-bit word
/// (its stronger bits): with `x = w / 2^32` for that word `w`, a draw whose
/// product `x * bound` has a low half of at least `2^32 mod bound` is
/// accepted at once, giving `(x * bound) / 2^32` and leaving the PRNG one
/// word further on.
pub proof fn lemma_bounded_upper_half<P: InternalPrng>(p: P, bound: u32)
    requires
        bound > 0,
    ensures
        ({
            let w = p.next_word().1;
            let x = w as int / 0x1_0000_0000int;
            let m = x * bound as int;
            m % 0x1_0000_0000int >= 0x1_0000_0000int % (bound as int) ==> bounded_spec(
                p,
                bound,
            ).1 as int == m / 0x1_0000_0000int && bounded_spec(p, bound).0 == p.next_word().0
        }),
{
    let w = p.next_word().1;
    let xu = (w >> 32u64) as u32;
    assert(((w >> 32u64) as u32) as int == w as int / 0x1_0000_0000int) by {
        assert(((w >> 32u64) as u32) as u64 == w / 0x1_0000_0000u64) by (bit_vector);
    }
    lemma_wide_mul_halves(xu, bound);
    lemma_rejection_threshold(bound);
    lemma_accepted_draw(p, bound);
    let m = xu as int * bound as int;
    assert(0 <= m / 0x1_0000_0000int < 0x1_0000_0000int) by (nonlinear_arith)
        requires
            0 <= xu < 0x1_0000_0000int,
            0 < bound < 0x1_0000_0000int,
            m == xu * bound,
    ;
}

/// The 32-bit words that a draw accepts as `v`: the low half of their
/// product with `bound` reaches the rejection threshold and the high half
/// is `v`.
pub open spec fn accepted_as(bound: u32, v: int) -> Set<int> {
    Set::new(
        |x: int|
            0 <= x < 0x1_0000_0000 && low_half(wide_mul(x as u32, bound)) >= rejection_threshold(
                bound,
            ) && high_half(wide_mul(x as u32, bound)) == v,
    )
}

/// Lemire's method is unbiased: every value in `0..bound` is accepted
/// from exactly `floor(2^32 / bound)` of the `2^32` possible words, so
/// under uniform words each value is equally likely.
pub proof fn lemma_bounded_unbiased(bound: u32, v: int)
    requires
        bound > 0,
        0 <= v < bound,
    ensures
        accepted_as(bound, v).finite(),
        accepted_as(bound, v).len() == 0x1_0000_0000int / (bound as int),
{
    let w = 0x1_0000_0000int;
    let b = bound as int;
    let q = w / b;
    let t = w % b;
    lemma_rejection_threshold(bound);
    assert(w == b * q + t && 0 <= t < b) by (nonlinear_arith)
        requires
            b > 0,
            q == w / b,
            t == w % b,
    ;
    let top = (v + 1) * w;
    let k = (top - 1) / b;
    assert(k * b <= top - 1 < (k + 1) * b) by (nonlinear_arith)
        requires
            b > 0,
            k == (top - 1) / b,
            top >= 1,
    {
    }
    assert(w <= top <= b * w) by (nonlinear_arith)
        requires
            0 <= v < b,
            top == (v + 1) * w,
            w > 0,
    ;
    assert(k < w) by (nonlinear_arith)
        requires
            k * b <= top - 1,
            top <= b * w,
            b > 0,
    ;
    assert(k + 1 >= q) by (nonlinear_arith)
        requires
            (k + 1) * b >= top,
            top >= w,
            w == b * q + t,
            t >= 0,
            b > 0,
    ;
    let lo = k - q + 1;
    let hi = k + 1;
    assert(accepted_as(bound, v) =~= vstd::set_lib::set_int_range(lo, hi)) by {
        assert forall|x: int| #[trigger] accepted_as(bound, v).contains(x)
            <==> vstd::set_lib::set_int_range(lo, hi).contains(x) by {
            if 0 <= x < w {
                let xu = x as u32;
                lemma_wide_mul_halves(xu, bound);
                let p = x * b;
                assert(xu as int == x);
                // Accepted as `v` exactly when `v * w + t <= p <= top - 1`.
                assert((p % w >= t && p / w == v) <==> (top - w + t <= p && p <= top - 1))
                    by (nonlinear_arith)
                    requires
                        w > 0,
                        top == (v + 1) * w,
                        0 <= t < w,
                        p >= 0,
                {
                    vstd::arithmetic::div_mod::lemma_fundamental_div_mod(p, w);
                    if top - w + t <= p && p <= top - 1 {
                        vstd::arithmetic::div_mod::lemma_fundamental_div_mod_converse(
                            p,
                            w,
                            v,
                            p - v * w,
                        );
                    }
                }
                assert((top - w + t <= p && p <= top - 1) <==> (lo <= x && x < hi))
                    by (nonlinear_arith)
                    requires
                        p == x * b,
                        b > 0,
                        w == b * q + t,
                        k * b <= top - 1,
                        top - 1 < (k + 1) * b,
                        lo == k - q + 1,
                        hi == k + 1,
                {
                }
            } else {
                assert(!(lo <= x && x < hi)) by {
                    assert(lo >= 0);
                }
            }
        }
    }
    vstd::set_lib::lemma_int_range(lo, hi);
}

/// Draws a value in `0..bound` from `prng` by Lemire's rejection method,
/// so the result is unbiased whatever `bound` is. The bound must be
/// positive.
pub fn bounded<P: InternalPrng>(prng: &mut P, bound: u32) -> (r: u32)
    requires
        bound > 0,
    ensures
        (*final(prng), r) == bounded_spec(*old(prng), bound),
        r < bound,
        ({
            let w = old(prng).next_word().1;
            let m = (w as int / 0x1_0000_0000int) * bound as int;
            m % 0x1_0000_0000int >= 0x1_0000_0000int % (bound as int) ==> r == m
                / 0x1_0000_0000int && *final(prng) == old(prng).next_word().0
        }),
{
    proof {
        lemma_bounded_below_bound(*old(prng), bound);
        lemma_bounded_upper_half(*old(prng), bound);
    }
    let ghost p0 = *prng;
    let mut x = prng.next_u32();
    assert(x as int * bound as int <= 0xFFFF_FFFFint * 0xFFFF_FFFFint) by (nonlinear_arith)
        requires
            x <= 0xFFFF_FFFFu32,
            bound <= 0xFFFF_FFFFu32,
    ;
    let mut m: u64 = (x as u64) * (bound as u64);
    let mut l = m as u32;
    if l < bound {
        let threshold = 0u32.wrapping_sub(bound) % bound;
        let mut tries: u64 = 0;
        let ghost target = redraw(*prng, bound, threshold, m, MAX_REJECTIONS as nat);
        assert(target == bounded_spec(p0, bound));
        while l < threshold && tries < MAX_REJECTIONS
            invariant
                l == low_half(m),
                tries <= MAX_REJECTIONS,
                threshold == rejection_threshold(bound),
                redraw(*prng, bound, threshold, m, (MAX_REJECTIONS - tries) as nat) == target,
            decreases MAX_REJECTIONS - tries,
        {
            x = prng.next_u32();
            assert(x as int * bound as int <= 0xFFFF_FFFFint * 0xFFFF_FFFFint) by (nonlinear_arith)
                requires
                    x <= 0xFFFF_FFFFu32,
                    bound <= 0xFFFF_FFFFu32,
            ;
            m = (x as u64) * (bound as u64);
            l = m as u32;
            tries = tries + 1;
        }
        assert((m >> 32) as u32 == target.1);
    }
    (m >> 32) as u32
}

/// The identity arrangement `[0, 1, ..., n - 1]` (each index cast to a byte).
pub open spec fn identity_seq(n: nat) -> Seq<u8> {
    Seq::new(n, |i: int| i as u8)
}

/// `s` with the entries at positions `i` and `j` exchanged.
pub open spec fn swap_seq(s: Seq<u8>, i: int, j: int) -> Seq<u8> {
    s.update(i, s[j]).update(j, s[i])
}

/// The Durstenfeld shuffle of `perm` from position `i - 1` down to `1`:
/// at each position `i - 1`, draw `j` from `0..i` and swap.
pub open spec fn shuffle<P: InternalPrng>(p: P, perm: Seq<u8>, i: nat) -> (P, Seq<u8>)
    decreases i,
{
    if i <= 1 {
        (p, perm)
    } else {
        let (p1, j) = bounded_spec(p, i as u32);
        shuffle(p1, swap_seq(perm, i - 1, j as int), (i - 1) as nat)
    }
}

/// `(state after, pad)` of drawing one permutation pad of width `n`.
pub open spec fn pad_spec<P: InternalPrng>(p: P, n: nat) -> (P, Seq<u8>) {
    shuffle(p, identity_seq(n), n)
}

/// `s` is a permutation of `0..n`: `n` distinct entries, all below `n`.
pub open spec fn is_permutation(s: Seq<u8>, n: nat) -> bool {
    &&& s.len() == n
    &&& forall|i: int| 0 <= i < n ==> (#[trigger] s[i]) < n
    &&& forall|i: int, j: int| 0 <= i < n && 0 <= j < n && i != j ==> s[i] != s[j]
}

/// Gather composition: `result[i] = base[perm[i]]`.
pub open spec fn compose(base: Seq<u8>, perm: Seq<u8>) -> Seq<u8> {
    Seq::new(perm.len(), |i: int| base[perm[i] as int])
}

proof fn lemma_small_cast(i: int)
    requires
        0 <= i < 256,
    ensures
        (i as u8) as int == i,
{
}

/// The identity arrangement of up to 256 entries is a permutation.
pub proof fn lemma_identity_is_permutation(n: nat)
    requires
        n <= 256,
    ensures
        is_permutation(identity_seq(n), n),
{
    assert forall|i: int, j: int| 0 <= i < n && 0 <= j < n && i != j implies identity_seq(n)[i]
        != identity_seq(n)[j] by {
        lemma_small_cast(i);
        lemma_small_cast(j);
    }
    assert forall|i: int| 0 <= i < n implies (#[trigger] identity_seq(n)[i]) < n by {
        lemma_small_cast(i);
    }
}

proof fn lemma_swap_keeps_permutation(s: Seq<u8>, n: nat, i: int, j: int)
    requires
        is_permutation(s, n),
        0 <= i < n,
        0 <= j < n,
    ensures
        is_permutation(swap_seq(s, i, j), n),
{
    let t = swap_seq(s, i, j);
    assert forall|a: int, b: int| 0 <= a < n && 0 <= b < n && a != b implies t[a] != t[b] by {
        let sa = if a == j { i } else if a == i { j } else { a };
        let sb = if b == j { i } else if b == i { j } else { b };
        assert(t[a] == s[sa]);
        assert(t[b] == s[sb]);
    }
    assert forall|a: int| 0 <= a < n implies (#[trigger] t[a]) < n by {
        let sa = if a == j { i } else if a == i { j } else { a };
        assert(t[a] == s[sa]);
    }
}

proof fn lemma_shuffle_keeps_permutation<P: InternalPrng>(p: P, perm: Seq<u8>, i: nat, n: nat)
    requires
        is_permutation(perm, n),
        i <= n,
        n <= 0xFFFF_FFFF,
    ensures
        is_permutation(shuffle(p, perm, i).1, n),
    decreases i,
{
    if i > 1 {
        let (p1, j) = bounded_spec(p, i as u32);
        assert((i as u32) as nat == i);
        lemma_bounded_below_bound(p, i as u32);
        lemma_swap_keeps_permutation(perm, n, i - 1, j as int);
        lemma_shuffle_keeps_permutation(p1, swap_seq(perm, i - 1, j as int), (i - 1) as nat, n);
    }
}

proof fn lemma_shuffle_len<P: InternalPrng>(p: P, perm: Seq<u8>, i: nat)
    requires
        i <= perm.len(),
        i <= 0xFFFF_FFFF,
    ensures
        shuffle(p, perm, i).1.len() == perm.len(),
    decreases i,
{
    if i > 1 {
        let (p1, j) = bounded_spec(p, i as u32);
        assert((i as u32) as nat == i);
        lemma_bounded_below_bound(p, i as u32);
        lemma_shuffle_len(p1, swap_seq(perm, i - 1, j as int), (i - 1) as nat);
    }
}

/// A shuffle down from position `i - 1` leaves every position from `i` on
/// as it was.
proof fn lemma_shuffle_keeps_above<P: InternalPrng>(p: P, perm: Seq<u8>, i: nat)
    requires
        i <= perm.len(),
        i <= 0xFFFF_FFFF,
    ensures
        shuffle(p, perm, i).1.len() == perm.len(),
        forall|k: int| i <= k < perm.len() ==> #[trigger] shuffle(p, perm, i).1[k] == perm[k],
    decreases i,
{
    lemma_shuffle_len(p, perm, i);
    if i > 1 {
        let (p1, j) = bounded_spec(p, i as u32);
        assert((i as u32) as nat == i);
        lemma_bounded_below_bound(p, i as u32);
        let q = swap_seq(perm, i - 1, j as int);
        lemma_shuffle_keeps_above(p1, q, (i - 1) as nat);
        assert forall|k: int| i <= k < perm.len() implies #[trigger] shuffle(p, perm, i).1[k]
            == perm[k] by {
            assert(shuffle(p1, q, (i - 1) as nat).1[k] == q[k]);
        }
    }
}

/// Each Fisher–Yates step draws its index from all of `0..i`, the
/// position being filled included: the entry the shuffle leaves at
/// position `i - 1` is the one at the index drawn with bound `i`, and the
/// positions above stay as they were. So a step may keep its entry in
/// place, and pads can have fixed points.
pub proof fn lemma_shuffle_step<P: InternalPrng>(p: P, perm: Seq<u8>, i: nat)
    requires
        2 <= i <= perm.len(),
        i <= 0xFFFF_FFFF,
    ensures
        bounded_spec(p, i as u32).1 < i,
        shuffle(p, perm, i).1[i - 1] == perm[bounded_spec(p, i as u32).1 as int],
        forall|k: int| i <= k < perm.len() ==> #[trigger] shuffle(p, perm, i).1[k] == perm[k],
{
    let (p1, j) = bounded_spec(p, i as u32);
    assert((i as u32) as nat == i);
    lemma_bounded_below_bound(p, i as u32);
    let q = swap_seq(perm, i - 1, j as int);
    lemma_shuffle_keeps_above(p1, q, (i - 1) as nat);
    lemma_shuffle_keeps_above(p, perm, i);
    assert(shuffle(p1, q, (i - 1) as nat).1[i - 1] == q[i - 1]);
}

/// The last entry of a pad of width `n` is the first draw, taken from all
/// of `0..n`: it is `n - 1` (a fixed point) exactly when that draw is.
pub proof fn lemma_pad_last<P: InternalPrng>(p: P, n: nat)
    requires
        1 <= n <= 256,
    ensures
        pad_spec(p, n).1[n - 1] as int == bounded_spec(p, n as u32).1,
{
    lemma_bounded_below_bound(p, n as u32);
    let j = bounded_spec(p, n as u32).1;
    if n >= 2 {
        lemma_shuffle_step(p, identity_seq(n), n);
        lemma_small_cast(j as int);
    } else {
        assert(j == 0);
    }
}

/// A drawn pad of width `n` has `n` entries.
pub proof fn lemma_pad_len<P: InternalPrng>(p: P, n: nat)
    requires
        n <= 0xFFFF_FFFF,
    ensures
        pad_spec(p, n).1.len() == n,
{
    lemma_shuffle_len(p, identity_seq(n), n);
}

/// Every drawn pad of width at most 256 is a permutation of `0..n`,
/// whatever state the generator is in.
pub proof fn lemma_pad_is_permutation<P: InternalPrng>(p: P, n: nat)
    requires
        n <= 256,
    ensures
        is_permutation(pad_spec(p, n).1, n),
{
    lemma_identity_is_permutation(n);
    lemma_shuffle_keeps_permutation(p, identity_seq(n), n, n);
}

/// Composing two permutations of `0..n` gives a permutation of `0..n`.
pub proof fn lemma_compose_is_permutation(base: Seq<u8>, perm: Seq<u8>, n: nat)
    requires
        is_permutation(base, n),
        is_permutation(perm, n),
    ensures
        is_permutation(compose(base, perm), n),
{
    let c = compose(base, perm);
    assert forall|a: int, b: int| 0 <= a < n && 0 <= b < n && a != b implies c[a] != c[b] by {
        assert(perm[a] != perm[b]);
    }
    assert forall|a: int| 0 <= a < n implies (#[trigger] c[a]) < n by {
        assert(perm[a] < n);
    }
}

/// Applying the identity arrangement leaves any arrangement unchanged.
pub proof fn lemma_compose_identity(base: Seq<u8>, n: nat)
    requires
        base.len() == n,
        n <= 256,
    ensures
        compose(base, identity_seq(n)) == base,
{
    assert forall|i: int| 0 <= i < n implies compose(base, identity_seq(n))[i] == base[i] by {
        lemma_small_cast(i);
    }
    assert(compose(base, identity_seq(n)) =~= base);
}

/// The identity arrangement `[0, 1, ..., n - 1]` as bytes.
pub fn identity_permutation(n: usize) -> (r: Vec<u8>)
    ensures
        r@ == identity_seq(n as nat),
{
    let mut r: Vec<u8> = Vec::new();
    let mut i: usize = 0;
    while i < n
        invariant
            i <= n,
            r@ == identity_seq(i as nat),
        decreases n - i,
    {
        r.push(i as u8);
        i = i + 1;
        assert(r@ =~= identity_seq(i as nat));
    }
    r
}

/// Generates one permutation pad of width `n` -- a random bijection on
/// `0..n` -- by a Durstenfeld Fisher–Yates shuffle of the identity.
pub fn generate_permutation<P: InternalPrng>(prng: &mut P, n: usize) -> (perm: Vec<u8>)
    requires
        n <= 0xFFFF_FFFF,
    ensures
        (*final(prng), perm@) == pad_spec(*old(prng), n as nat),
        n <= 256 ==> is_permutation(perm@, n as nat),
        1 <= n <= 256 ==> perm@[n - 1] as int == bounded_spec(*old(prng), n as u32).1,
{
    proof {
        if n <= 256 {
            lemma_pad_is_permutation(*old(prng), n as nat);
        }
        if 1 <= n <= 256 {
            lemma_pad_last(*old(prng), n as nat);
        }
    }
    let ghost target = pad_spec(*prng, n as nat);
    let mut perm = identity_permutation(n);
    let mut i = n;
    while i > 1
        invariant
            i <= n,
            n <= 0xFFFF_FFFF,
            perm@.len() == n,
            shuffle(*prng, perm@, i as nat) == target,
        decreases i,
    {
        i = i - 1;
        let bound = (i + 1) as u32;
        let j = bounded(prng, bound) as usize;
        let a = perm[i];
        let b = perm[j];
        perm[i] = b;
        perm[j] = a;
    }
    perm
}

/// Applies `perm` to `base` by position-gather: `result[i] = base[perm[i]]`.
pub fn apply_permutation(base: &Vec<u8>, perm: &Vec<u8>) -> (r: Vec<u8>)
    requires
        forall|i: int| 0 <= i < perm@.len() ==> (#[trigger] perm@[i]) < base@.len(),
    ensures
        r@ == compose(base@, perm@),
{
    let mut r: Vec<u8> = Vec::new();
    let mut i: usize = 0;
    while i < perm.len()
        invariant
            i <= perm@.len(),
            forall|k: int| 0 <= k < perm@.len() ==> (#[trigger] perm@[k]) < base@.len(),
            r@ == compose(base@, perm@).subrange(0, i as int),
        decreases perm@.len() - i,
    {
        r.push(base[perm[i] as usize]);
        i = i + 1;
        assert(r@ =~= compose(base@, perm@).subrange(0, i as int));
    }
    assert(compose(base@, perm@).subrange(0, i as int) =~= compose(base@, perm@));
    r
}

} // verus!
