//! The integer counts the native smoke tests are computed from: one bits
//! and bit changes of the stream (most significant bit of each byte
//! first), byte-value frequencies, and the sums of the lag-1 serial
//! correlation.

use vstd::prelude::*;

verus! {

/// Bit `i` of `b`, counting from the most significant (`i = 0`).
pub open spec fn bit_of(b: u8, i: int) -> bool {
    (b >> ((7 - i) as u8)) & 1 == 1
}

/// Bit `k` of the stream of `bytes`, most significant bit of each byte
/// first.
pub open spec fn stream_bit(bytes: Seq<u8>, k: int) -> bool {
    bit_of(bytes[k / 8], k % 8)
}

/// One bits among the first `k` bits of the stream.
pub open spec fn ones_before(bytes: Seq<u8>, k: nat) -> nat
    decreases k,
{
    if k == 0 {
        0
    } else {
        ones_before(bytes, (k - 1) as nat) + if stream_bit(bytes, k - 1) {
            1nat
        } else {
            0nat
        }
    }
}

/// Neighbouring bits that differ among the first `k` bits of the stream.
pub open spec fn changes_before(bytes: Seq<u8>, k: nat) -> nat
    decreases k,
{
    if k <= 1 {
        0
    } else {
        changes_before(bytes, (k - 1) as nat) + if stream_bit(bytes, k - 2) != stream_bit(
            bytes,
            k - 1,
        ) {
            1nat
        } else {
            0nat
        }
    }
}

/// Whether bit `j` of `b`, from the most significant, is set.
fn bit_at(b: u8, j: u8) -> (r: bool)
    requires
        j < 8,
    ensures
        r == bit_of(b, j as int),
{
    (b >> (7 - j)) & 1 == 1
}

/// The number of one bits in `bytes`.
pub fn count_one_bits(bytes: &[u8]) -> (r: u64)
    requires
        8 * bytes@.len() <= u64::MAX,
    ensures
        r == ones_before(bytes@, 8 * bytes@.len() as nat),
{
    let mut count: u64 = 0;
    let mut i: usize = 0;
    while i < bytes.len()
        invariant
            i <= bytes@.len(),
            8 * bytes@.len() <= u64::MAX,
            count == ones_before(bytes@, (8 * i) as nat),
            count <= 8 * i,
        decreases bytes@.len() - i,
    {
        let b = bytes[i];
        let mut j: u8 = 0;
        while j < 8
            invariant
                i < bytes@.len(),
                8 * bytes@.len() <= u64::MAX,
                b == bytes@[i as int],
                j <= 8,
                count == ones_before(bytes@, (8 * i + j) as nat),
                count <= 8 * i + j,
            decreases 8 - j,
        {
            proof {
                assert((8 * i + j) / 8 == i);
                assert((8 * i + j) % 8 == j);
            }
            if bit_at(b, j) {
                count = count + 1;
            }
            j = j + 1;
        }
        i = i + 1;
    }
    count
}

/// The number of neighbouring bits of the stream of `bytes` that differ.
pub fn count_bit_changes(bytes: &[u8]) -> (r: u64)
    requires
        8 * bytes@.len() <= u64::MAX,
    ensures
        r == changes_before(bytes@, 8 * bytes@.len() as nat),
{
    let mut count: u64 = 0;
    let mut prev: bool = false;
    let mut i: usize = 0;
    while i < bytes.len()
        invariant
            i <= bytes@.len(),
            8 * bytes@.len() <= u64::MAX,
            count == changes_before(bytes@, (8 * i) as nat),
            count <= 8 * i,
            i > 0 ==> prev == stream_bit(bytes@, 8 * i - 1),
        decreases bytes@.len() - i,
    {
        let b = bytes[i];
        let mut j: u8 = 0;
        while j < 8
            invariant
                i < bytes@.len(),
                8 * bytes@.len() <= u64::MAX,
                b == bytes@[i as int],
                j <= 8,
                count == changes_before(bytes@, (8 * i + j) as nat),
                count <= 8 * i + j,
                8 * i + j > 0 ==> prev == stream_bit(bytes@, 8 * i + j - 1),
            decreases 8 - j,
        {
            proof {
                assert((8 * i + j) / 8 == i);
                assert((8 * i + j) % 8 == j);
            }
            let bit = bit_at(b, j);
            if (i > 0 || j > 0) && bit != prev {
                count = count + 1;
            }
            prev = bit;
            j = j + 1;
        }
        i = i + 1;
    }
    count
}

/// How many of `bytes` equal `v`.
pub open spec fn occurrences(bytes: Seq<u8>, v: int) -> nat
    decreases bytes.len(),
{
    if bytes.len() == 0 {
        0
    } else {
        occurrences(bytes.drop_last(), v) + if bytes.last() == v {
            1nat
        } else {
            0nat
        }
    }
}

/// The frequency of each byte value in `bytes`: entry `v` counts the
/// bytes equal to `v`.
pub fn byte_histogram(bytes: &[u8]) -> (r: Vec<u64>)
    ensures
        r@.len() == 256,
        forall|v: int| 0 <= v < 256 ==> #[trigger] r@[v] == occurrences(bytes@, v),
{
    let mut counts: Vec<u64> = vec![0u64; 256];
    let mut i: usize = 0;
    proof {
        assert(bytes@.take(0) =~= Seq::<u8>::empty());
    }
    while i < bytes.len()
        invariant
            i <= bytes@.len(),
            counts@.len() == 256,
            forall|v: int| 0 <= v < 256 ==> #[trigger] counts@[v] == occurrences(bytes@.take(i as int), v),
            forall|v: int| 0 <= v < 256 ==> #[trigger] counts@[v] <= i,
        decreases bytes@.len() - i,
    {
        let b = bytes[i];
        let idx = b as usize;
        proof {
            assert(bytes@.take(i + 1).drop_last() =~= bytes@.take(i as int));
            assert(bytes@.take(i + 1).last() == b);
        }
        let c = counts[idx];
        counts.set(idx, c + 1);
        i = i + 1;
    }
    proof {
        assert(bytes@.take(bytes@.len() as int) =~= bytes@);
    }
    counts
}

/// `sum u_i`, `sum u_i^2` and `sum u_i * u_{i+1}` over the first `k`
/// bytes, the last pairing wrapping around to `bytes[0]`.
pub open spec fn serial_sums(bytes: Seq<u8>, k: nat) -> (nat, nat, nat)
    decreases k,
{
    if k == 0 {
        (0, 0, 0)
    } else {
        let (s, q, l) = serial_sums(bytes, (k - 1) as nat);
        let u = bytes[k - 1] as nat;
        let next = bytes[(k as int) % (bytes.len() as int)] as nat;
        (s + u, q + u * u, l + u * next)
    }
}

/// The sums lag-1 serial correlation is computed from, over `bytes`
/// taken as circular: `sum u_i`, `sum u_i^2` and `sum u_i * u_{i+1}`.
pub fn serial_correlation_sums(bytes: &[u8]) -> (r: (u64, u64, u64))
    requires
        bytes@.len() * 65025 <= u64::MAX,
    ensures
        (r.0 as nat, r.1 as nat, r.2 as nat) == serial_sums(bytes@, bytes@.len() as nat),
{
    let n = bytes.len();
    let mut sum: u64 = 0;
    let mut sum_sq: u64 = 0;
    let mut sum_lag1: u64 = 0;
    let mut i: usize = 0;
    while i < n
        invariant
            n == bytes@.len(),
            n * 65025 <= u64::MAX,
            i <= n,
            (sum as nat, sum_sq as nat, sum_lag1 as nat) == serial_sums(bytes@, i as nat),
            sum <= 255 * i,
            sum_sq <= 65025 * i,
            sum_lag1 <= 65025 * i,
        decreases n - i,
    {
        let u = bytes[i] as u64;
        let next_index = if i + 1 < n {
            i + 1
        } else {
            0
        };
        let next = bytes[next_index] as u64;
        proof {
            assert(((i + 1) as int) % (n as int) == next_index) by {
                if i + 1 == n {
                    vstd::arithmetic::div_mod::lemma_mod_self_0(n as int);
                } else {
                    vstd::arithmetic::div_mod::lemma_small_mod((i + 1) as nat, n as nat);
                }
            }
            assert(u * u <= 65025) by (nonlinear_arith)
                requires
                    u <= 255,
            ;
            assert(u * next <= 65025) by (nonlinear_arith)
                requires
                    u <= 255,
                    next <= 255,
            ;
        }
        sum = sum + u;
        sum_sq = sum_sq + u * u;
        sum_lag1 = sum_lag1 + u * next;
        i = i + 1;
    }
    (sum, sum_sq, sum_lag1)
}

} // verus!
