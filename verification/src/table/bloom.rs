//! A bloom filter over the key hashes a table builder collects: a bit
//! array probed at positions walked out from each hash. It never
//! misses a key that went in; a hit may still be a false positive,
//! which a reader then settles against the table itself.

use vstd::prelude::*;

verus! {

/// The probe stride for a hash: the hash rotated by fifteen bits, so
/// successive probes spread over the array.
pub open spec fn bloom_delta(h: u32) -> u32 {
    (h >> 17) | (h << 15)
}

/// The `i`-th probe value for a hash: the hash itself, then each next
/// probe one stride further, wrapping.
pub open spec fn probe_of(h: u32, i: int) -> u32
    recommends
        i >= 0,
    decreases i,
{
    if i <= 0 {
        h
    } else {
        ((probe_of(h, i - 1) + bloom_delta(h)) % 0x100000000) as u32
    }
}

/// Whether bit `pos` of the array is set.
pub open spec fn has_bit(bits: Seq<u8>, pos: int) -> bool
    recommends
        0 <= pos < bits.len() * 8,
{
    (bits[pos / 8] >> ((pos % 8) as u8)) & 1 == 1
}

/// Whether every probe position for `h` is set: what a filter answers
/// for `h`.
pub open spec fn bloom_may_contain(bits: Seq<u8>, probes: int, h: u32) -> bool
    recommends
        bits.len() > 0,
{
    forall|i: int|
        0 <= i < probes ==> has_bit(bits, (#[trigger] probe_of(h, i)) as int % (bits.len() * 8) as int)
}

/// The bit array and how many probes each lookup makes.
#[derive(Debug)]
pub struct BloomFilter {
    pub bits: Vec<u8>,
    pub num_probes: u8,
}

impl BloomFilter {
    pub open spec fn wf(&self) -> bool {
        &&& self.bits@.len() > 0
        &&& self.bits@.len() * 8 <= u64::MAX
        &&& self.num_probes >= 1
    }

    /// Answers whether `h` may have been inserted: exactly whether all
    /// of its probe bits are set. A miss is definitive; a hit is not.
    pub fn may_contain(&self, h: u32) -> (r: bool)
        requires
            self.wf(),
        ensures
            r == bloom_may_contain(self.bits@, self.num_probes as int, h),
    {
        let nbytes = self.bits.len();
        let nbits: u64 = (nbytes as u64) * 8;
        let delta = (h >> 17) | (h << 15);
        let k = self.num_probes;
        let mut j: u8 = 0;
        let mut cur: u32 = h;
        while j < k
            invariant
                self.wf(),
                j <= k,
                k == self.num_probes,
                nbytes == self.bits@.len(),
                nbits == nbytes * 8,
                nbytes > 0,
                delta == bloom_delta(h),
                cur == probe_of(h, j as int),
                forall|i: int|
                    0 <= i < j ==> has_bit(
                        self.bits@,
                        (#[trigger] probe_of(h, i)) as int % (self.bits@.len() * 8) as int,
                    ),
            decreases k - j,
        {
            let pos: u64 = (cur as u64) % nbits;
            let byte = self.bits[(pos / 8) as usize];
            let off = (pos % 8) as u8;
            proof {
                assert(pos as int == probe_of(h, j as int) as int % (self.bits@.len() * 8) as int);
                assert(pos as int / 8 < nbytes) by {
                    vstd::arithmetic::div_mod::lemma_mod_bound(cur as int, nbits as int);
                }
                assert((pos as int) % 8 == (pos % 8) as int);
            }
            if (byte >> off) & 1 != 1 {
                proof {
                    assert(!has_bit(
                        self.bits@,
                        probe_of(h, j as int) as int % (self.bits@.len() * 8) as int,
                    ));
                }
                return false;
            }
            cur = (((cur as u64) + (delta as u64)) % 0x100000000) as u32;
            j = j + 1;
        }
        true
    }
}

/// Sets bit `pos`, touching nothing else.
fn set_bit(bits: &mut Vec<u8>, pos: usize)
    requires
        pos < old(bits)@.len() * 8,
    ensures
        final(bits)@.len() == old(bits)@.len(),
        has_bit(final(bits)@, pos as int),
        forall|q: int|
            0 <= q < old(bits)@.len() * 8 && q != pos ==> has_bit(final(bits)@, q) == has_bit(
                old(bits)@,
                q,
            ),
{
    let byte = pos / 8;
    let off = (pos % 8) as u8;
    let b = bits[byte];
    bits.set(byte, b | (1u8 << off));
    proof {
        let s = off;
        assert(((b | (1u8 << s)) >> s) & 1 == 1) by (bit_vector)
            requires
                s < 8,
        ;
        assert forall|q: int|
            0 <= q < old(bits)@.len() * 8 && q != pos implies has_bit(bits@, q) == has_bit(
            old(bits)@,
            q,
        ) by {
            if q / 8 == byte {
                let t = (q % 8) as u8;
                assert(t != s) by {
                    vstd::arithmetic::div_mod::lemma_fundamental_div_mod(q, 8);
                    vstd::arithmetic::div_mod::lemma_fundamental_div_mod(pos as int, 8);
                }
                assert(((b | (1u8 << s)) >> t) & 1 == (b >> t) & 1) by (bit_vector)
                    requires
                        s < 8,
                        t < 8,
                        t != s,
                ;
            }
        }
    }
}

/// Builds the filter for a table's key hashes: an array sized from
/// the hash count, each hash walked over its probe positions. Every
/// hash that went in answers positive afterwards.
pub fn build_bloom(hashes: &Vec<u32>, bits_per_key: usize) -> (r: BloomFilter)
    requires
        1 <= bits_per_key <= 64,
        hashes@.len() * bits_per_key + 64 <= usize::MAX,
    ensures
        r.wf(),
        forall|q: int|
            0 <= q < hashes@.len() ==> bloom_may_contain(
                r.bits@,
                r.num_probes as int,
                #[trigger] hashes@[q],
            ),
{
    // the usual probe count for this density, kept within bounds
    let k0 = bits_per_key * 7 / 10;
    let k: u8 = if k0 < 1 {
        1
    } else if k0 > 30 {
        30
    } else {
        k0 as u8
    };
    let mut nbits = hashes.len() * bits_per_key;
    if nbits < 64 {
        nbits = 64;
    }
    let nbytes = (nbits + 7) / 8;
    proof {
        let t = (nbits + 7) as int;
        vstd::arithmetic::div_mod::lemma_fundamental_div_mod(t, 8);
        vstd::arithmetic::div_mod::lemma_mod_bound(t, 8);
        assert(nbytes * 8 <= nbits + 7);
    }
    let mut bits: Vec<u8> = Vec::new();
    bits.resize(nbytes, 0u8);
    let n = hashes.len();
    let mut i: usize = 0;
    while i < n
        invariant
            i <= n == hashes@.len(),
            bits@.len() == nbytes > 0,
            nbytes * 8 <= usize::MAX,
            k >= 1,
            forall|q: int|
                0 <= q < i ==> bloom_may_contain(bits@, k as int, #[trigger] hashes@[q]),
        decreases n - i,
    {
        let h = hashes[i];
        let delta = (h >> 17) | (h << 15);
        let mut j: u8 = 0;
        let mut cur: u32 = h;
        while j < k
            invariant
                j <= k,
                bits@.len() == nbytes > 0,
                nbytes * 8 <= usize::MAX,
                i < n == hashes@.len(),
                h == hashes@[i as int],
                delta == bloom_delta(h),
                cur == probe_of(h, j as int),
                forall|q: int|
                    0 <= q < i ==> bloom_may_contain(bits@, k as int, #[trigger] hashes@[q]),
                forall|p: int|
                    0 <= p < j ==> has_bit(
                        bits@,
                        (#[trigger] probe_of(h, p)) as int % (bits@.len() * 8) as int,
                    ),
            decreases k - j,
        {
            let nbits_now: u64 = (bits.len() as u64) * 8;
            let pos: u64 = (cur as u64) % nbits_now;
            proof {
                vstd::arithmetic::div_mod::lemma_mod_bound(cur as int, nbits_now as int);
                assert(pos as int == probe_of(h, j as int) as int % (bits@.len() * 8) as int);
            }
            let ghost pre = bits@;
            set_bit(&mut bits, pos as usize);
            proof {
                assert forall|q: int| 0 <= q < i implies bloom_may_contain(
                    bits@,
                    k as int,
                    #[trigger] hashes@[q],
                ) by {
                    assert(bloom_may_contain(pre, k as int, hashes@[q]));
                    assert forall|p: int| 0 <= p < k implies has_bit(
                        bits@,
                        (#[trigger] probe_of(hashes@[q], p)) as int % (bits@.len() * 8) as int,
                    ) by {
                        let bp = probe_of(hashes@[q], p) as int % (pre.len() * 8) as int;
                        assert(has_bit(pre, bp));
                        if bp != pos as int {
                            assert(has_bit(bits@, bp) == has_bit(pre, bp));
                        }
                    }
                }
                assert forall|p: int| 0 <= p < j + 1 implies has_bit(
                    bits@,
                    (#[trigger] probe_of(h, p)) as int % (bits@.len() * 8) as int,
                ) by {
                    let bp = probe_of(h, p) as int % (pre.len() * 8) as int;
                    if p < j {
                        assert(has_bit(pre, bp));
                        if bp != pos as int {
                            assert(has_bit(bits@, bp) == has_bit(pre, bp));
                        }
                    } else {
                        assert(bp == pos as int);
                    }
                }
            }
            cur = (((cur as u64) + (delta as u64)) % 0x100000000) as u32;
            j = j + 1;
        }
        proof {
            assert(bloom_may_contain(bits@, k as int, hashes@[i as int]));
        }
        i = i + 1;
    }
    proof {
        assert(bits@.len() * 8 <= u64::MAX);
    }
    BloomFilter { bits, num_probes: k }
}

} // verus!
