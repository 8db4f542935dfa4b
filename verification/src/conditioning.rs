//! A hash-based conditioning component: compresses a raw entropy
//! source's output through SHA-256 to remove structural bias.
//!
//! The conditioner accumulates 64 raw bytes from the wrapped source,
//! compresses them through SHA-256, and serves the 32 resulting bytes
//! before pulling the next block.

use crate::generator::QppRng;
use crate::prng::InternalPrng;
use crate::rng_core::{produces_deterministically, QppRngSource, RngDiagnostics};
use crate::timer::HighResTimer;
use sha2::Digest;
use vstd::prelude::*;

verus! {

/// Raw bytes pulled from the wrapped source per conditioning block.
pub const INPUT_BLOCK_BYTES: usize = 64;

/// Conditioned bytes produced per block: SHA-256's digest size.
pub const OUTPUT_BLOCK_BYTES: usize = 32;

/// The SHA-256 digest of a byte string, as `sha2::Sha256::digest`
/// computes it.
pub uninterp spec fn sha256(data: Seq<u8>) -> Seq<u8>;

/// Calls `sha2::Sha256::digest` on `data`. The digest is `sha256(data)`
/// and, as for every SHA-256 digest, is 32 bytes long.
#[verifier::external_body]
fn sha256_digest(data: &[u8]) -> (digest: Vec<u8>)
    ensures
        digest@ == sha256(data@),
        digest@.len() == OUTPUT_BLOCK_BYTES,
{
    sha2::Sha256::digest(data).as_slice().to_vec()
}

/// The conditioned stream of a sequence of raw blocks: their SHA-256
/// digests, concatenated in order.
pub open spec fn digest_stream(blocks: Seq<Seq<u8>>) -> Seq<u8>
    decreases blocks.len(),
{
    if blocks.len() == 0 {
        Seq::empty()
    } else {
        digest_stream(blocks.drop_last()) + sha256(blocks.last())
    }
}

/// Wraps a raw source `R` and serves SHA-256-conditioned output instead
/// of its raw bytes.
pub struct Sha256Conditioner<R> {
    source: R,
    out_buf: Vec<u8>,
    /// Bytes of `out_buf` already served; `OUTPUT_BLOCK_BYTES` means the
    /// buffer is used up and the next read pulls a fresh block.
    out_pos: usize,
    /// Every raw block pulled from the source so far.
    blocks: Ghost<Seq<Seq<u8>>>,
    /// Every conditioned byte served so far.
    served: Ghost<Seq<u8>>,
    /// The source's state when wrapped and after each block pulled.
    sources: Ghost<Seq<R>>,
}

impl<R> Sha256Conditioner<R> {
    /// The wrapped raw source.
    pub closed spec fn inner_source(self) -> R {
        self.source
    }

    /// Every raw 64-byte block pulled from the source so far, in order.
    pub closed spec fn raw_blocks(self) -> Seq<Seq<u8>> {
        self.blocks@
    }

    /// Every conditioned byte served so far, in order.
    pub closed spec fn served_bytes(self) -> Seq<u8> {
        self.served@
    }

    /// The source's state when it was wrapped, and after each raw block
    /// pulled from it, in order.
    pub closed spec fn source_states(self) -> Seq<R> {
        self.sources@
    }

    /// Bytes of the current block not yet served.
    pub closed spec fn buffered(self) -> nat {
        (OUTPUT_BLOCK_BYTES - self.out_pos) as nat
    }

    /// The conditioner's bookkeeping: served bytes are exactly the
    /// conditioned stream of the pulled blocks minus what is still
    /// buffered, and the buffer holds the digest of the last block.
    pub closed spec fn bookkeeping(self) -> bool {
        &&& self.out_pos <= OUTPUT_BLOCK_BYTES
        &&& self.out_buf@.len() == OUTPUT_BLOCK_BYTES
        &&& self.blocks@.len() == 0 ==> self.out_pos == OUTPUT_BLOCK_BYTES
        &&& self.blocks@.len() > 0 ==> self.out_buf@ == sha256(self.blocks@.last())
        &&& forall|i: int|
            0 <= i < self.blocks@.len() ==> (#[trigger] self.blocks@[i]).len() == INPUT_BLOCK_BYTES
                && sha256(self.blocks@[i]).len() == OUTPUT_BLOCK_BYTES
        &&& digest_stream(self.blocks@).len() == OUTPUT_BLOCK_BYTES * self.blocks@.len()
        &&& self.served@ == digest_stream(self.blocks@).subrange(
            0,
            OUTPUT_BLOCK_BYTES * self.blocks@.len() - (OUTPUT_BLOCK_BYTES - self.out_pos),
        )
    }

    /// Wraps `source`. No bytes are pulled from it until the first output
    /// byte is requested.
    pub fn new(source: R) -> (c: Self)
        ensures
            c.inner_source() == source,
            c.raw_blocks() == Seq::<Seq<u8>>::empty(),
            c.served_bytes() == Seq::<u8>::empty(),
            c.source_states() == seq![source],
            c.bookkeeping(),
    {
        assert(digest_stream(Seq::<Seq<u8>>::empty()) =~= Seq::<u8>::empty());
        assert(Seq::<u8>::empty().subrange(0, 0) =~= Seq::<u8>::empty());
        let ghost wrapped = source;
        Sha256Conditioner {
            source,
            out_buf: vec![0u8; OUTPUT_BLOCK_BYTES],
            out_pos: OUTPUT_BLOCK_BYTES,
            blocks: Ghost(Seq::empty()),
            served: Ghost(Seq::empty()),
            sources: Ghost(Seq::empty().push(wrapped)),
        }
    }

    /// Unwraps back to the underlying raw source.
    pub fn into_inner(self) -> (r: R)
        ensures
            r == self.inner_source(),
    {
        self.source
    }

    /// Borrows the underlying raw source.
    pub fn inner(&self) -> (r: &R)
        ensures
            *r == self.inner_source(),
    {
        &self.source
    }
}

proof fn lemma_digest_stream_push(blocks: Seq<Seq<u8>>, b: Seq<u8>)
    ensures
        digest_stream(blocks.push(b)) == digest_stream(blocks) + sha256(b),
{
    assert(blocks.push(b).drop_last() =~= blocks);
}

impl<R: QppRngSource> Sha256Conditioner<R> {
    /// The recorded source states run from the wrapped source to the
    /// current one, each producing the next raw block.
    closed spec fn chain_ok(self) -> bool {
        &&& self.sources@.len() == self.blocks@.len() + 1
        &&& self.sources@.last() == self.source
        &&& forall|i: int|
            0 <= i < self.blocks@.len() ==> (#[trigger] self.sources@[i]).produced(
                &self.sources@[i + 1],
                self.blocks@[i],
            )
    }

    /// Wraps a well-formed source; the result is well formed and offers
    /// diagnostics exactly when the source does.
    pub proof fn lemma_new_well_formed(source: R, c: Self)
        requires
            source.well_formed(),
            c.inner_source() == source,
            c.raw_blocks() == Seq::<Seq<u8>>::empty(),
            c.source_states() == seq![source],
            c.bookkeeping(),
        ensures
            c.well_formed(),
            c.diagnostics_available() == source.diagnostics_available(),
    {
    }

    /// The conditioned stream: a well-formed conditioner has served a
    /// prefix of the SHA-256 digests of the raw 64-byte blocks it pulled
    /// from its source, concatenated in order, falling short of the whole
    /// stream by at most one digest; its source stays well formed, and its
    /// diagnostics are its source's.
    pub proof fn lemma_conditioned_stream(c: Self)
        requires
            c.well_formed(),
        ensures
            forall|i: int|
                0 <= i < c.raw_blocks().len() ==> (#[trigger] c.raw_blocks()[i]).len()
                    == INPUT_BLOCK_BYTES && sha256(c.raw_blocks()[i]).len() == OUTPUT_BLOCK_BYTES,
            digest_stream(c.raw_blocks()).len() == OUTPUT_BLOCK_BYTES * c.raw_blocks().len(),
            c.served_bytes() == digest_stream(c.raw_blocks()).subrange(
                0,
                c.served_bytes().len() as int,
            ),
            OUTPUT_BLOCK_BYTES * c.raw_blocks().len() <= c.served_bytes().len()
                + OUTPUT_BLOCK_BYTES,
            c.served_bytes().len() <= OUTPUT_BLOCK_BYTES * c.raw_blocks().len(),
            c.inner_source().well_formed(),
            c.diagnostics_available() == c.inner_source().diagnostics_available(),
            c.diagnostics_spec() == c.inner_source().diagnostics_spec(),
            c.source_states().len() == c.raw_blocks().len() + 1,
            c.source_states().last() == c.inner_source(),
            forall|i: int|
                0 <= i < c.raw_blocks().len() ==> (#[trigger] c.source_states()[i]).produced(
                    &c.source_states()[i + 1],
                    c.raw_blocks()[i],
                ),
    {
    }

    /// Pulls the next 64-byte raw block from the source and buffers its
    /// digest.
    fn refill(&mut self)
        requires
            old(self).bookkeeping(),
            old(self).source.well_formed(),
            old(self).out_pos == OUTPUT_BLOCK_BYTES,
            old(self).chain_ok(),
        ensures
            final(self).bookkeeping(),
            final(self).source.well_formed(),
            final(self).chain_ok(),
            final(self).out_pos == 0,
            final(self).served@ == old(self).served@,
            final(self).blocks@.len() == old(self).blocks@.len() + 1,
            final(self).blocks@.drop_last() == old(self).blocks@,
            final(self).sources@ == old(self).sources@.push(final(self).source),
    {
        let ghost source0 = self.source;
        let mut block: Vec<u8> = vec![0u8; INPUT_BLOCK_BYTES];
        self.source.fill_bytes(block.as_mut_slice());
        let digest = sha256_digest(block.as_slice());
        proof {
            let old_blocks = self.blocks@;
            lemma_digest_stream_push(old_blocks, block@);
            let nb = old_blocks.push(block@);
            assert(nb.drop_last() =~= old_blocks);
            assert forall|i: int| 0 <= i < nb.len() implies (#[trigger] nb[i]).len()
                == INPUT_BLOCK_BYTES && sha256(nb[i]).len() == OUTPUT_BLOCK_BYTES by {
                if i < old_blocks.len() {
                    assert(nb[i] == old_blocks[i]);
                }
            }
            assert(digest_stream(old_blocks).len() == OUTPUT_BLOCK_BYTES * old_blocks.len());
            assert(sha256(block@).len() == OUTPUT_BLOCK_BYTES);
            assert(digest_stream(nb).len() == OUTPUT_BLOCK_BYTES * nb.len());
            assert(digest_stream(nb).subrange(0, OUTPUT_BLOCK_BYTES * old_blocks.len())
                =~= digest_stream(old_blocks));
            assert(digest_stream(old_blocks).subrange(0, OUTPUT_BLOCK_BYTES * old_blocks.len())
                =~= digest_stream(old_blocks));
            assert(self.served@ == digest_stream(nb).subrange(
                0,
                OUTPUT_BLOCK_BYTES * nb.len() - (OUTPUT_BLOCK_BYTES - 0),
            ));
            assert(nb.last() == block@);
            self.blocks = Ghost(nb);
        }
        self.out_buf = digest;
        self.out_pos = 0;
        proof {
            let old_sources = self.sources@;
            let ns = old_sources.push(self.source);
            assert forall|i: int| 0 <= i < self.blocks@.len() implies (#[trigger] ns[i]).produced(
                &ns[i + 1],
                self.blocks@[i],
            ) by {
                if i < self.blocks@.len() - 1 {
                    assert(ns[i] == old_sources[i]);
                    assert(ns[i + 1] == old_sources[i + 1]);
                    assert(self.blocks@[i] == self.blocks@.drop_last()[i]);
                } else {
                    assert(ns[i] == source0);
                }
            }
            self.sources = Ghost(ns);
        }
    }
}

impl<R: QppRngSource> Sha256Conditioner<R> {
    /// Successive calls continue one stream: producing `x` and then `y`
    /// is producing `x + y`, with no conditioned byte skipped or
    /// repeated between the calls.
    pub proof fn lemma_produced_concat(c0: Self, c1: Self, c2: Self, x: Seq<u8>, y: Seq<u8>)
        requires
            c0.produced(&c1, x),
            c1.produced(&c2, y),
        ensures
            c0.produced(&c2, x + y),
    {
        assert(c0.served_bytes() + x + y =~= c0.served_bytes() + (x + y));
        assert(c2.raw_blocks().subrange(0, c0.raw_blocks().len() as int) =~= c1.raw_blocks().subrange(
            0,
            c0.raw_blocks().len() as int,
        ));
        assert(c2.source_states().subrange(0, c0.source_states().len() as int)
            =~= c1.source_states().subrange(0, c0.source_states().len() as int));
    }
}

impl<R: QppRngSource> Sha256Conditioner<R> {
    /// Over a source whose output is a function of its state, chains of
    /// source states from the same start producing 64-byte blocks pull
    /// equal blocks and pass through equal states.
    proof fn lemma_equal_block_chains(
        sa: Seq<R>,
        sb: Seq<R>,
        ba: Seq<Seq<u8>>,
        bb: Seq<Seq<u8>>,
        j: int,
    )
        requires
            produces_deterministically::<R>(),
            0 <= j <= ba.len(),
            j <= bb.len(),
            sa.len() == ba.len() + 1,
            sb.len() == bb.len() + 1,
            sa[0] == sb[0],
            forall|i: int| 0 <= i < ba.len() ==> (#[trigger] sa[i]).produced(&sa[i + 1], ba[i]),
            forall|i: int| 0 <= i < bb.len() ==> (#[trigger] sb[i]).produced(&sb[i + 1], bb[i]),
            forall|i: int| 0 <= i < ba.len() ==> (#[trigger] ba[i]).len() == INPUT_BLOCK_BYTES,
            forall|i: int| 0 <= i < bb.len() ==> (#[trigger] bb[i]).len() == INPUT_BLOCK_BYTES,
        ensures
            forall|i: int| 0 <= i <= j ==> sa[i] == sb[i],
            forall|i: int| 0 <= i < j ==> ba[i] == bb[i],
        decreases j,
    {
        if j > 0 {
            Self::lemma_equal_block_chains(sa, sb, ba, bb, j - 1);
            assert(sa[j - 1].produced(&sa[j], ba[j - 1]));
            assert(sb[j - 1].produced(&sb[j], bb[j - 1]));
            assert(sa[j - 1].produced(&sb[j], bb[j - 1]));
            assert(ba[j - 1].len() == bb[j - 1].len());
        }
    }

    /// Over a source whose output is a function of its state,
    /// conditioners that wrapped the source in the same state have served
    /// the same bytes once they have served equally many.
    pub proof fn lemma_same_origin_same_output(a: Self, b: Self)
        requires
            produces_deterministically::<R>(),
            a.well_formed(),
            b.well_formed(),
            a.source_states()[0] == b.source_states()[0],
            a.served_bytes().len() == b.served_bytes().len(),
        ensures
            a.served_bytes() == b.served_bytes(),
    {
        Self::lemma_conditioned_stream(a);
        Self::lemma_conditioned_stream(b);
        let ba = a.raw_blocks();
        let bb = b.raw_blocks();
        let k: int = if ba.len() < bb.len() {
            ba.len() as int
        } else {
            bb.len() as int
        };
        Self::lemma_equal_block_chains(a.source_states(), b.source_states(), ba, bb, k);
        assert(ba.take(k) =~= bb.take(k));
        lemma_digest_stream_prefix(ba, k);
        lemma_digest_stream_prefix(bb, k);
        let len = a.served_bytes().len() as int;
        assert(a.served_bytes() =~= digest_stream(ba.take(k)).subrange(0, len));
        assert(b.served_bytes() =~= digest_stream(bb.take(k)).subrange(0, len));
    }

    /// How many blocks a well-formed conditioner has pulled, and how much
    /// of the last one is still buffered, follow from how many bytes it
    /// has served: a block is pulled only when a byte of it is needed.
    pub proof fn lemma_blocks_follow_served(c: Self)
        requires
            c.well_formed(),
        ensures
            c.raw_blocks().len() == (c.served_bytes().len() + (OUTPUT_BLOCK_BYTES - 1)) / (
            OUTPUT_BLOCK_BYTES as int),
            c.buffered() == OUTPUT_BLOCK_BYTES * c.raw_blocks().len() - c.served_bytes().len(),
    {
        let n = c.blocks@.len();
        assert(c.served@.len() == OUTPUT_BLOCK_BYTES * n - (OUTPUT_BLOCK_BYTES - c.out_pos));
    }

    /// Over a source whose output is a function of its state,
    /// conditioners that wrapped the source in the same state and have
    /// served equally many bytes are in the same state: the same bytes
    /// served, the same raw blocks pulled through the same source states,
    /// the same source now, and the same number of bytes buffered.
    pub proof fn lemma_same_origin_same_state(a: Self, b: Self)
        requires
            produces_deterministically::<R>(),
            a.well_formed(),
            b.well_formed(),
            a.source_states()[0] == b.source_states()[0],
            a.served_bytes().len() == b.served_bytes().len(),
        ensures
            a.served_bytes() == b.served_bytes(),
            a.raw_blocks() == b.raw_blocks(),
            a.source_states() == b.source_states(),
            a.inner_source() == b.inner_source(),
            a.buffered() == b.buffered(),
    {
        Self::lemma_same_origin_same_output(a, b);
        Self::lemma_blocks_follow_served(a);
        Self::lemma_blocks_follow_served(b);
        Self::lemma_conditioned_stream(a);
        Self::lemma_conditioned_stream(b);
        let n = a.raw_blocks().len() as int;
        Self::lemma_equal_block_chains(
            a.source_states(),
            b.source_states(),
            a.raw_blocks(),
            b.raw_blocks(),
            n,
        );
        assert(a.raw_blocks() =~= b.raw_blocks());
        assert(a.source_states() =~= b.source_states());
    }

    /// Splitting a request does not change the conditioned bytes, over
    /// any source whose output is a function of its state: conditioners
    /// that wrapped the source in the same state and have served equally
    /// many bytes give by two calls of `x.len()` and `y.len()` bytes what
    /// one call of their total length gives, and end in the same state.
    pub proof fn lemma_split_calls_deterministic(
        a0: Self,
        a1: Self,
        a2: Self,
        b0: Self,
        b1: Self,
        x: Seq<u8>,
        y: Seq<u8>,
        z: Seq<u8>,
    )
        requires
            produces_deterministically::<R>(),
            a0.well_formed(),
            b0.well_formed(),
            a2.well_formed(),
            b1.well_formed(),
            a0.source_states()[0] == b0.source_states()[0],
            a0.served_bytes().len() == b0.served_bytes().len(),
            a0.produced(&a1, x),
            a1.produced(&a2, y),
            b0.produced(&b1, z),
            z.len() == x.len() + y.len(),
        ensures
            x + y == z,
            a2.served_bytes() == b1.served_bytes(),
            a2.raw_blocks() == b1.raw_blocks(),
            a2.source_states() == b1.source_states(),
            a2.inner_source() == b1.inner_source(),
            a2.buffered() == b1.buffered(),
    {
        Self::lemma_produced_concat(a0, a1, a2, x, y);
        Self::lemma_conditioned_stream(a0);
        Self::lemma_conditioned_stream(b0);
        Self::lemma_same_origin_same_output(a0, b0);
        assert(a2.source_states()[0] == a2.source_states().subrange(
            0,
            a0.source_states().len() as int,
        )[0]);
        assert(b1.source_states()[0] == b1.source_states().subrange(
            0,
            b0.source_states().len() as int,
        )[0]);
        Self::lemma_same_origin_same_state(a2, b1);
        let base = a0.served_bytes();
        assert((base + (x + y)).subrange(base.len() as int, (base + (x + y)).len() as int) =~= x
            + y);
        assert((base + z).subrange(base.len() as int, (base + z).len() as int) =~= z);
    }
}

impl<R: QppRngSource> QppRngSource for Sha256Conditioner<R> {
    closed spec fn well_formed(&self) -> bool {
        &&& self.bookkeeping()
        &&& self.source.well_formed()
        &&& self.chain_ok()
        &&& self.blocks@.len() > 0 ==> self.out_pos > 0
    }

    closed spec fn diagnostics_available(&self) -> bool {
        self.source.diagnostics_available()
    }

    /// The served bytes grow by `out`; the raw blocks pulled before, and
    /// the source states before them, stay.
    open spec fn produced(&self, after: &Self, out: Seq<u8>) -> bool {
        &&& after.served_bytes() == self.served_bytes() + out
        &&& after.raw_blocks().len() >= self.raw_blocks().len()
        &&& after.raw_blocks().subrange(0, self.raw_blocks().len() as int) == self.raw_blocks()
        &&& after.source_states().len() >= self.source_states().len()
        &&& after.source_states().subrange(0, self.source_states().len() as int)
            == self.source_states()
    }

    /// Serves buffered conditioned bytes, refilling from the source a
    /// block at a time; what is served continues the conditioned stream.
    /// An empty request changes nothing and pulls nothing from the source.
    fn fill_bytes(&mut self, dst: &mut [u8])
        ensures
            old(dst)@.len() == 0 ==> *final(self) == *old(self),
    {
        let ghost served0 = self.served@;
        let ghost blocks0 = self.blocks@;
        let ghost len = dst@.len();
        let ghost sources0 = self.sources@;
        let ghost start = *self;
        let mut written: usize = 0;
        while written < dst.len()
            invariant
                len == 0 ==> *self == start,
                self.blocks@.len() > 0 ==> self.out_pos > 0,
                self.bookkeeping(),
                self.source.well_formed(),
                dst@.len() == len,
                written <= len,
                self.served@ == served0 + dst@.subrange(0, written as int),
                self.blocks@.len() >= blocks0.len(),
                self.blocks@.subrange(0, blocks0.len() as int) == blocks0,
                self.chain_ok(),
                self.sources@.len() >= sources0.len(),
                self.sources@.subrange(0, sources0.len() as int) == sources0,
            decreases len - written, OUTPUT_BLOCK_BYTES - self.out_pos,
        {
            if self.out_pos >= OUTPUT_BLOCK_BYTES {
                let ghost b_before = self.blocks@;
                let ghost s_before = self.sources@;
                self.refill();
                proof {
                    assert(self.sources@.subrange(0, sources0.len() as int) =~= s_before.subrange(
                        0,
                        sources0.len() as int,
                    ));
                    assert(self.blocks@.subrange(0, blocks0.len() as int) =~= b_before.subrange(
                        0,
                        blocks0.len() as int,
                    ));
                }
            }
            let available = OUTPUT_BLOCK_BYTES - self.out_pos;
            let remaining = dst.len() - written;
            let take = if available < remaining {
                available
            } else {
                remaining
            };
            let mut j: usize = 0;
            let ghost served_before = self.served@;
            let ghost dst_before = dst@;
            while j < take
                invariant
                    j <= take,
                    take <= OUTPUT_BLOCK_BYTES - self.out_pos,
                    written + take <= len,
                    len <= usize::MAX,
                    dst@.len() == len,
                    self.out_pos < OUTPUT_BLOCK_BYTES,
                    self.out_buf@.len() == OUTPUT_BLOCK_BYTES,
                    forall|t: int| 0 <= t < written + j ==> dst@[t] == if t < written {
                        dst_before[t]
                    } else {
                        self.out_buf@[self.out_pos + (t - written)]
                    },
                decreases take - j,
            {
                dst[written + j] = self.out_buf[self.out_pos + j];
                j = j + 1;
            }
            proof {
                let stream = digest_stream(self.blocks@);
                let nblocks = self.blocks@.len();
                assert(nblocks > 0);
                assert(self.blocks@.drop_last() =~= self.blocks@.subrange(0, nblocks - 1));
                lemma_digest_stream_push(self.blocks@.drop_last(), self.blocks@.last());
                assert(self.blocks@.drop_last().push(self.blocks@.last()) =~= self.blocks@);
                let base = OUTPUT_BLOCK_BYTES * (nblocks - 1);
                assert(digest_stream(self.blocks@.drop_last()).len() == base) by {
                    assert(sha256(self.blocks@.last()).len() == OUTPUT_BLOCK_BYTES);
                }
                assert forall|t: int| 0 <= t < take implies stream[base + self.out_pos + t]
                    == #[trigger] self.out_buf@[self.out_pos + t] by {
                    assert(stream[base + self.out_pos + t] == sha256(self.blocks@.last())[self.out_pos + t]);
                }
                let new_served = served_before + dst@.subrange(written as int, written + take);
                assert(new_served =~= stream.subrange(
                    0,
                    OUTPUT_BLOCK_BYTES * nblocks - (OUTPUT_BLOCK_BYTES - (self.out_pos + take)),
                ));
                assert(served0 + dst@.subrange(0, written + take) =~= new_served);
                self.served = Ghost(new_served);
            }
            self.out_pos = self.out_pos + take;
            written = written + take;
        }
        assert(dst@.subrange(0, len as int) =~= dst@);
        proof {
            assert(self.served_bytes() == old(self).served_bytes() + dst@);
            assert(self.raw_blocks().subrange(0, old(self).raw_blocks().len() as int) == old(self).raw_blocks());
        }
    }

    /// Four conditioned bytes, little-endian.
    fn next_u32(&mut self) -> (r: u32)
        ensures
            exists|bytes: Seq<u8>|
                bytes.len() == 4 && #[trigger] final(self).served_bytes() == old(
                    self,
                ).served_bytes() + bytes && r == vstd::bytes::spec_u32_from_le_bytes(bytes),
    {
        let mut buf: Vec<u8> = vec![0u8; 4];
        self.fill_bytes(buf.as_mut_slice());
        vstd::bytes::u32_from_le_bytes(buf.as_slice())
    }

    /// Eight conditioned bytes, little-endian.
    fn next_u64(&mut self) -> (r: u64)
        ensures
            exists|bytes: Seq<u8>|
                bytes.len() == 8 && #[trigger] final(self).served_bytes() == old(
                    self,
                ).served_bytes() + bytes && r == vstd::bytes::spec_u64_from_le_bytes(bytes),
    {
        let mut buf: Vec<u8> = vec![0u8; 8];
        self.fill_bytes(buf.as_mut_slice());
        vstd::bytes::u64_from_le_bytes(buf.as_slice())
    }

    closed spec fn diagnostics_spec(&self) -> RngDiagnostics {
        self.source.diagnostics_spec()
    }

    /// The wrapped source's diagnostics: conditioning changes the output
    /// bytes, not the harvesting process they describe.
    fn diagnostics(&self) -> (d: RngDiagnostics) {
        self.source.diagnostics()
    }
}

/// The digests of the first `k` blocks begin the digests of them all, and
/// take `32 * k` bytes when every digest is 32 bytes long.
proof fn lemma_digest_stream_prefix(blocks: Seq<Seq<u8>>, k: int)
    requires
        0 <= k <= blocks.len(),
        forall|i: int| 0 <= i < blocks.len() ==> (#[trigger] sha256(blocks[i])).len()
            == OUTPUT_BLOCK_BYTES,
    ensures
        digest_stream(blocks.take(k)).len() == OUTPUT_BLOCK_BYTES * k,
        digest_stream(blocks).len() == OUTPUT_BLOCK_BYTES * blocks.len(),
        digest_stream(blocks).subrange(0, OUTPUT_BLOCK_BYTES * k) == digest_stream(blocks.take(k)),
    decreases blocks.len(),
{
    if blocks.len() == 0 {
        assert(blocks.take(k) =~= blocks);
    } else {
        let init = blocks.drop_last();
        assert forall|i: int| 0 <= i < init.len() implies (#[trigger] sha256(init[i])).len()
            == OUTPUT_BLOCK_BYTES by {
            assert(init[i] == blocks[i]);
        }
        assert(sha256(blocks.last()).len() == OUTPUT_BLOCK_BYTES) by {
            assert(sha256(blocks[blocks.len() - 1]).len() == OUTPUT_BLOCK_BYTES);
        }
        if k == blocks.len() {
            lemma_digest_stream_prefix(init, k - 1);
            assert(blocks.take(k) =~= blocks);
            assert(digest_stream(blocks).subrange(0, OUTPUT_BLOCK_BYTES * k) =~= digest_stream(
                blocks,
            ));
        } else {
            lemma_digest_stream_prefix(init, k);
            assert(init.take(k) =~= blocks.take(k));
            assert(digest_stream(blocks).subrange(0, OUTPUT_BLOCK_BYTES * k) =~= digest_stream(
                init,
            ).subrange(0, OUTPUT_BLOCK_BYTES * k));
        }
    }
}

impl<P: InternalPrng, T: HighResTimer, const N: usize> Sha256Conditioner<QppRng<P, T, N>> {
    /// Chains of alike generators producing 64-byte blocks pull equal
    /// blocks and stay alike.
    proof fn lemma_alike_block_chains(
        sa: Seq<QppRng<P, T, N>>,
        sb: Seq<QppRng<P, T, N>>,
        ba: Seq<Seq<u8>>,
        bb: Seq<Seq<u8>>,
        j: int,
    )
        requires
            T::is_scripted(),
            0 <= j <= ba.len(),
            j <= bb.len(),
            sa.len() == ba.len() + 1,
            sb.len() == bb.len() + 1,
            QppRng::<P, T, N>::alike(sa[0], sb[0]),
            forall|i: int| 0 <= i < ba.len() ==> (#[trigger] sa[i]).produced(&sa[i + 1], ba[i]),
            forall|i: int| 0 <= i < bb.len() ==> (#[trigger] sb[i]).produced(&sb[i + 1], bb[i]),
            forall|i: int| 0 <= i < ba.len() ==> (#[trigger] ba[i]).len() == INPUT_BLOCK_BYTES,
            forall|i: int| 0 <= i < bb.len() ==> (#[trigger] bb[i]).len() == INPUT_BLOCK_BYTES,
        ensures
            QppRng::<P, T, N>::alike(sa[j], sb[j]),
            forall|i: int| 0 <= i < j ==> ba[i] == bb[i],
        decreases j,
    {
        if j > 0 {
            Self::lemma_alike_block_chains(sa, sb, ba, bb, j - 1);
            assert(sa[j - 1].produced(&sa[j], ba[j - 1]));
            assert(sb[j - 1].produced(&sb[j], bb[j - 1]));
            assert(ba[j - 1].len() == bb[j - 1].len());
            QppRng::<P, T, N>::lemma_alike_same_bytes(
                sa[j - 1],
                sb[j - 1],
                sa[j],
                sb[j],
                ba[j - 1],
                bb[j - 1],
            );
        }
    }

    /// Splitting a request does not change the conditioned bytes:
    /// conditioners that start alike, with equally many bytes served, give
    /// by two calls of `x.len()` and `y.len()` bytes what one call of
    /// their total length gives.
    pub proof fn lemma_split_calls_same_bytes(
        a0: Self,
        a1: Self,
        a2: Self,
        b0: Self,
        b1: Self,
        x: Seq<u8>,
        y: Seq<u8>,
        z: Seq<u8>,
    )
        requires
            T::is_scripted(),
            a0.well_formed(),
            b0.well_formed(),
            a2.well_formed(),
            b1.well_formed(),
            QppRng::<P, T, N>::alike(a0.source_states()[0], b0.source_states()[0]),
            a0.served_bytes().len() == b0.served_bytes().len(),
            a0.produced(&a1, x),
            a1.produced(&a2, y),
            b0.produced(&b1, z),
            z.len() == x.len() + y.len(),
        ensures
            x + y == z,
    {
        Sha256Conditioner::<QppRng<P, T, N>>::lemma_produced_concat(a0, a1, a2, x, y);
        Self::lemma_conditioned_stream(a0);
        Self::lemma_conditioned_stream(b0);
        Self::lemma_alike_sources_same_output(a0, b0);
        assert(a2.source_states()[0] == a2.source_states().subrange(
            0,
            a0.source_states().len() as int,
        )[0]);
        assert(b1.source_states()[0] == b1.source_states().subrange(
            0,
            b0.source_states().len() as int,
        )[0]);
        Self::lemma_alike_sources_same_output(a2, b1);
        let base = a0.served_bytes();
        assert((base + (x + y)).subrange(base.len() as int, (base + (x + y)).len() as int) =~= x
            + y);
        assert((base + z).subrange(base.len() as int, (base + z).len() as int) =~= z);
    }

    /// Determinism of the conditioned stream: conditioners that wrapped
    /// generators alike up to their scripted clocks (the same seed, PRNG
    /// state and settings, replaying the same jitter script) have served
    /// the same bytes once they have served equally many.
    pub proof fn lemma_alike_sources_same_output(a: Self, b: Self)
        requires
            T::is_scripted(),
            a.well_formed(),
            b.well_formed(),
            QppRng::<P, T, N>::alike(a.source_states()[0], b.source_states()[0]),
            a.served_bytes().len() == b.served_bytes().len(),
        ensures
            a.served_bytes() == b.served_bytes(),
    {
        Self::lemma_conditioned_stream(a);
        Self::lemma_conditioned_stream(b);
        let ba = a.raw_blocks();
        let bb = b.raw_blocks();
        let sa = a.source_states();
        let sb = b.source_states();
        let k: int = if ba.len() < bb.len() {
            ba.len() as int
        } else {
            bb.len() as int
        };
        Self::lemma_alike_block_chains(sa, sb, ba, bb, k);
        assert(ba.take(k) =~= bb.take(k));
        lemma_digest_stream_prefix(ba, k);
        lemma_digest_stream_prefix(bb, k);
        let len = a.served_bytes().len() as int;
        assert(len <= OUTPUT_BLOCK_BYTES * k);
        assert(a.served_bytes() =~= digest_stream(ba.take(k)).subrange(0, len));
        assert(b.served_bytes() =~= digest_stream(bb.take(k)).subrange(0, len));
    }
}

} // verus!
