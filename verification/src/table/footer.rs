//! The trailer of a table file: the block-offset index, the
//! serialized bloom filter, the smallest and biggest keys, and the
//! greatest version stamped inside. A reader parses it from the tail
//! of the file and can then reach every block without scanning.

use vstd::prelude::*;

use crate::codec::{be32_of, be32_val, be64_of, be64_val};

verus! {

/// What the trailer carries, as plain values.
#[derive(Debug)]
pub struct TableFooter {
    pub block_offsets: Vec<(u32, u32)>,
    pub bloom_bits: Vec<u8>,
    pub bloom_probes: u8,
    pub smallest: Vec<u8>,
    pub biggest: Vec<u8>,
    pub max_version: u64,
}

/// The block index: each block's byte offset and length, big-endian.
pub open spec fn offsets_bytes(ofs: Seq<(u32, u32)>) -> Seq<u8>
    decreases ofs.len(),
{
    if ofs.len() == 0 {
        Seq::empty()
    } else {
        offsets_bytes(ofs.drop_last()) + be32_of(ofs.last().0) + be32_of(ofs.last().1)
    }
}

pub proof fn lemma_offsets_bytes_len(ofs: Seq<(u32, u32)>)
    ensures
        offsets_bytes(ofs).len() == 8 * ofs.len(),
    decreases ofs.len(),
{
    if ofs.len() > 0 {
        lemma_offsets_bytes_len(ofs.drop_last());
    }
}

/// The trailer laid out: block count, the index, the bloom filter's
/// bytes and probe count, the two boundary keys, and the greatest
/// version, every run length-prefixed.
pub open spec fn footer_bytes(
    ofs: Seq<(u32, u32)>,
    bloom: Seq<u8>,
    probes: u8,
    sm: Seq<u8>,
    bg: Seq<u8>,
    maxv: u64,
) -> Seq<u8>
    recommends
        ofs.len() <= u32::MAX,
        bloom.len() <= u32::MAX,
        sm.len() <= u32::MAX,
        bg.len() <= u32::MAX,
{
    be32_of(ofs.len() as u32) + offsets_bytes(ofs) + be32_of(bloom.len() as u32) + bloom + seq![
        probes,
    ] + be32_of(sm.len() as u32) + sm + be32_of(bg.len() as u32) + bg + be64_of(maxv)
}

impl TableFooter {
    pub open spec fn wf(&self) -> bool {
        &&& self.block_offsets@.len() <= u32::MAX
        &&& self.bloom_bits@.len() <= u32::MAX
        &&& self.smallest@.len() <= u32::MAX
        &&& self.biggest@.len() <= u32::MAX
    }

    pub open spec fn bytes(&self) -> Seq<u8> {
        footer_bytes(
            self.block_offsets@,
            self.bloom_bits@,
            self.bloom_probes,
            self.smallest@,
            self.biggest@,
            self.max_version,
        )
    }

    /// Lays the trailer down exactly as `footer_bytes` says.
    pub fn encode(&self) -> (r: Vec<u8>)
        requires
            self.wf(),
        ensures
            r@ == self.bytes(),
    {
        let mut out: Vec<u8> = Vec::new();
        let n = self.block_offsets.len();
        crate::codec::put_u32_be(&mut out, n as u32);
        let mut i: usize = 0;
        while i < n
            invariant
                i <= n == self.block_offsets@.len(),
                n <= u32::MAX,
                out@ == be32_of(n as u32) + offsets_bytes(self.block_offsets@.take(i as int)),
            decreases n - i,
        {
            let (off, len) = self.block_offsets[i];
            crate::codec::put_u32_be(&mut out, off);
            crate::codec::put_u32_be(&mut out, len);
            proof {
                let t = self.block_offsets@.take(i + 1);
                assert(t.drop_last() =~= self.block_offsets@.take(i as int));
                assert(t.last() == self.block_offsets@[i as int]);
                assert(out@ =~= be32_of(n as u32) + offsets_bytes(t));
            }
            i = i + 1;
        }
        proof {
            assert(self.block_offsets@.take(n as int) =~= self.block_offsets@);
        }
        crate::codec::put_u32_be(&mut out, self.bloom_bits.len() as u32);
        crate::codec::extend_bytes(&mut out, self.bloom_bits.as_slice());
        out.push(self.bloom_probes);
        crate::codec::put_u32_be(&mut out, self.smallest.len() as u32);
        crate::codec::extend_bytes(&mut out, self.smallest.as_slice());
        crate::codec::put_u32_be(&mut out, self.biggest.len() as u32);
        crate::codec::extend_bytes(&mut out, self.biggest.as_slice());
        crate::codec::put_u64_be(&mut out, self.max_version);
        proof {
            assert(out@ =~= self.bytes());
        }
        out
    }
}

/// The byte positions of each length field, fixed by the layout.
pub proof fn lemma_footer_layout(
    buf: Seq<u8>,
    ofs: Seq<(u32, u32)>,
    bloom: Seq<u8>,
    probes: u8,
    sm: Seq<u8>,
    bg: Seq<u8>,
    maxv: u64,
)
    requires
        buf == footer_bytes(ofs, bloom, probes, sm, bg, maxv),
        ofs.len() <= u32::MAX,
        bloom.len() <= u32::MAX,
        sm.len() <= u32::MAX,
        bg.len() <= u32::MAX,
    ensures
        buf.len() == 25 + 8 * ofs.len() as int + bloom.len() as int + sm.len() as int
            + bg.len() as int,
        buf.subrange(0, 4) == be32_of(ofs.len() as u32),
        buf.subrange(4, 4 + 8 * ofs.len() as int) == offsets_bytes(ofs),
        buf.subrange(4 + 8 * ofs.len() as int, 8 + 8 * ofs.len() as int) == be32_of(
            bloom.len() as u32,
        ),
        buf.subrange(
            8 + 8 * ofs.len() as int,
            8 + 8 * ofs.len() as int + bloom.len() as int,
        ) == bloom,
        buf[8 + 8 * ofs.len() as int + bloom.len() as int] == probes,
        buf.subrange(
            9 + 8 * ofs.len() as int + bloom.len() as int,
            13 + 8 * ofs.len() as int + bloom.len() as int,
        ) == be32_of(sm.len() as u32),
        buf.subrange(
            13 + 8 * ofs.len() as int + bloom.len() as int,
            13 + 8 * ofs.len() as int + bloom.len() as int + sm.len() as int,
        ) == sm,
        buf.subrange(
            13 + 8 * ofs.len() as int + bloom.len() as int + sm.len() as int,
            17 + 8 * ofs.len() as int + bloom.len() as int + sm.len() as int,
        ) == be32_of(bg.len() as u32),
        buf.subrange(
            17 + 8 * ofs.len() as int + bloom.len() as int + sm.len() as int,
            17 + 8 * ofs.len() as int + bloom.len() as int + sm.len() as int + bg.len() as int,
        ) == bg,
        buf.subrange(buf.len() - 8, buf.len() as int) == be64_of(maxv),
{
    lemma_offsets_bytes_len(ofs);
    let no = 8 * ofs.len() as int;
    let nb = bloom.len() as int;
    let ns = sm.len() as int;
    assert(buf.subrange(0, 4) =~= be32_of(ofs.len() as u32));
    assert(buf.subrange(4, 4 + no) =~= offsets_bytes(ofs));
    assert(buf.subrange(4 + no, 8 + no) =~= be32_of(bloom.len() as u32));
    assert(buf.subrange(8 + no, 8 + no + nb) =~= bloom);
    assert(buf.subrange(9 + no + nb, 13 + no + nb) =~= be32_of(sm.len() as u32));
    assert(buf.subrange(13 + no + nb, 13 + no + nb + ns) =~= sm);
    assert(buf.subrange(13 + no + nb + ns, 17 + no + nb + ns) =~= be32_of(bg.len() as u32));
    assert(buf.subrange(17 + no + nb + ns, 17 + no + nb + ns + bg.len() as int) =~= bg);
    assert(buf.subrange(buf.len() - 8, buf.len() as int) =~= be64_of(maxv));
}

/// The length fields a trailer encoding pins, read back as values.
proof fn lemma_tail_lengths(
    buf: Seq<u8>,
    ofs: Seq<(u32, u32)>,
    bloom: Seq<u8>,
    probes: u8,
    sm: Seq<u8>,
    bg: Seq<u8>,
    maxv: u64,
)
    requires
        buf == footer_bytes(ofs, bloom, probes, sm, bg, maxv),
        ofs.len() <= u32::MAX,
        bloom.len() <= u32::MAX,
        sm.len() <= u32::MAX,
        bg.len() <= u32::MAX,
    ensures
        buf.len() == 25 + 8 * ofs.len() as int + bloom.len() as int + sm.len() as int
            + bg.len() as int,
        be32_val(buf.take(4)) == ofs.len(),
        be32_val(
            buf.subrange(4 + 8 * ofs.len() as int, 8 + 8 * ofs.len() as int),
        ) == bloom.len(),
        be32_val(
            buf.subrange(
                9 + 8 * ofs.len() as int + bloom.len() as int,
                13 + 8 * ofs.len() as int + bloom.len() as int,
            ),
        ) == sm.len(),
        be32_val(
            buf.subrange(
                13 + 8 * ofs.len() as int + bloom.len() as int + sm.len() as int,
                17 + 8 * ofs.len() as int + bloom.len() as int + sm.len() as int,
            ),
        ) == bg.len(),
{
    lemma_footer_layout(buf, ofs, bloom, probes, sm, bg, maxv);
    assert(buf.take(4) =~= buf.subrange(0, 4));
    crate::codec::lemma_be32_round_trip(ofs.len() as u32);
    crate::codec::lemma_be32_round_trip(bloom.len() as u32);
    crate::codec::lemma_be32_round_trip(sm.len() as u32);
    crate::codec::lemma_be32_round_trip(bg.len() as u32);
}

/// No trailer encoding matches `buf`.
pub open spec fn no_footer(buf: Seq<u8>) -> bool {
    forall|ofs: Seq<(u32, u32)>, bloom: Seq<u8>, probes: u8, sm: Seq<u8>, bg: Seq<u8>, maxv: u64|
        ofs.len() <= u32::MAX && bloom.len() <= u32::MAX && sm.len() <= u32::MAX && bg.len()
            <= u32::MAX ==> buf != #[trigger] footer_bytes(ofs, bloom, probes, sm, bg, maxv)
}

/// Reads a trailer back. It answers exactly when the bytes are a
/// trailer encoding: the fields handed back re-encode to the input,
/// and a refusal means no field values at all encode to it.
#[verifier::rlimit(60)]
pub fn decode_footer(buf: &[u8]) -> (r: Option<TableFooter>)
    ensures
        match r {
            Some(f) => f.wf() && buf@ == f.bytes(),
            None => no_footer(buf@),
        },
{
    let total = buf.len();
    if total < 25 {
        proof {
            assert forall|
                ofs: Seq<(u32, u32)>,
                bloom: Seq<u8>,
                probes: u8,
                sm: Seq<u8>,
                bg: Seq<u8>,
                maxv: u64,
            |
                ofs.len() <= u32::MAX && bloom.len() <= u32::MAX && sm.len() <= u32::MAX
                    && bg.len() <= u32::MAX implies buf@ != #[trigger] footer_bytes(
                ofs,
                bloom,
                probes,
                sm,
                bg,
                maxv,
            ) by {
                if buf@ == footer_bytes(ofs, bloom, probes, sm, bg, maxv) {
                    lemma_tail_lengths(buf@, ofs, bloom, probes, sm, bg, maxv);
                }
            }
        }
        return None;
    }
    let n32 = crate::codec::get_u32_be(buf, 0);
    let n = n32 as usize;
    proof {
        assert(buf@.subrange(0, 4) =~= buf@.take(4));
    }
    if (n as u64) * 8 > (total - 4) as u64 {
        proof {
            assert forall|
                ofs: Seq<(u32, u32)>,
                bloom: Seq<u8>,
                probes: u8,
                sm: Seq<u8>,
                bg: Seq<u8>,
                maxv: u64,
            |
                ofs.len() <= u32::MAX && bloom.len() <= u32::MAX && sm.len() <= u32::MAX
                    && bg.len() <= u32::MAX implies buf@ != #[trigger] footer_bytes(
                ofs,
                bloom,
                probes,
                sm,
                bg,
                maxv,
            ) by {
                if buf@ == footer_bytes(ofs, bloom, probes, sm, bg, maxv) {
                    lemma_tail_lengths(buf@, ofs, bloom, probes, sm, bg, maxv);
                }
            }
        }
        return None;
    }
    let mut out_ofs: Vec<(u32, u32)> = Vec::new();
    let mut pos: usize = 4;
    let mut i: usize = 0;
    while i < n
        invariant
            i <= n,
            pos == 4 + 8 * i,
            4 + 8 * n <= total == buf@.len(),
            out_ofs@.len() == i,
            offsets_bytes(out_ofs@) == buf@.subrange(4, pos as int),
        decreases n - i,
    {
        let off = crate::codec::get_u32_be(buf, pos);
        let len = crate::codec::get_u32_be(buf, pos + 4);
        let ghost pre = out_ofs@;
        out_ofs.push((off, len));
        proof {
            crate::codec::lemma_be32_inverse(buf@.subrange(pos as int, pos + 4));
            crate::codec::lemma_be32_inverse(buf@.subrange(pos + 4, pos + 8));
            assert(out_ofs@.drop_last() =~= pre);
            assert(offsets_bytes(out_ofs@) =~= buf@.subrange(4, pos + 8));
        }
        pos = pos + 8;
        i = i + 1;
    }
    if total - pos < 21 {
        proof {
            assert forall|
                ofs: Seq<(u32, u32)>,
                bloom: Seq<u8>,
                probes: u8,
                sm: Seq<u8>,
                bg: Seq<u8>,
                maxv: u64,
            |
                ofs.len() <= u32::MAX && bloom.len() <= u32::MAX && sm.len() <= u32::MAX
                    && bg.len() <= u32::MAX implies buf@ != #[trigger] footer_bytes(
                ofs,
                bloom,
                probes,
                sm,
                bg,
                maxv,
            ) by {
                if buf@ == footer_bytes(ofs, bloom, probes, sm, bg, maxv) {
                    lemma_tail_lengths(buf@, ofs, bloom, probes, sm, bg, maxv);
                }
            }
        }
        return None;
    }
    let bl32 = crate::codec::get_u32_be(buf, pos);
    let bl = bl32 as usize;
    if (bl as u64) > (total - pos - 21) as u64 {
        proof {
            assert forall|
                ofs: Seq<(u32, u32)>,
                bloom: Seq<u8>,
                probes: u8,
                sm: Seq<u8>,
                bg: Seq<u8>,
                maxv: u64,
            |
                ofs.len() <= u32::MAX && bloom.len() <= u32::MAX && sm.len() <= u32::MAX
                    && bg.len() <= u32::MAX implies buf@ != #[trigger] footer_bytes(
                ofs,
                bloom,
                probes,
                sm,
                bg,
                maxv,
            ) by {
                if buf@ == footer_bytes(ofs, bloom, probes, sm, bg, maxv) {
                    lemma_tail_lengths(buf@, ofs, bloom, probes, sm, bg, maxv);
                }
            }
        }
        return None;
    }
    let bloom_bits = vstd::slice::slice_to_vec(
        vstd::slice::slice_subrange(buf, pos + 4, pos + 4 + bl),
    );
    let bloom_probes = buf[pos + 4 + bl];
    let pos2 = pos + 5 + bl;
    let sl32 = crate::codec::get_u32_be(buf, pos2);
    let sl = sl32 as usize;
    if (sl as u64) > (total - pos2 - 16) as u64 {
        proof {
            assert forall|
                ofs: Seq<(u32, u32)>,
                bloom: Seq<u8>,
                probes: u8,
                sm: Seq<u8>,
                bg: Seq<u8>,
                maxv: u64,
            |
                ofs.len() <= u32::MAX && bloom.len() <= u32::MAX && sm.len() <= u32::MAX
                    && bg.len() <= u32::MAX implies buf@ != #[trigger] footer_bytes(
                ofs,
                bloom,
                probes,
                sm,
                bg,
                maxv,
            ) by {
                if buf@ == footer_bytes(ofs, bloom, probes, sm, bg, maxv) {
                    lemma_tail_lengths(buf@, ofs, bloom, probes, sm, bg, maxv);
                }
            }
        }
        return None;
    }
    let smallest = vstd::slice::slice_to_vec(
        vstd::slice::slice_subrange(buf, pos2 + 4, pos2 + 4 + sl),
    );
    let pos3 = pos2 + 4 + sl;
    let gl32 = crate::codec::get_u32_be(buf, pos3);
    let gl = gl32 as usize;
    if (gl as u64) != (total - pos3 - 12) as u64 {
        proof {
            assert forall|
                ofs: Seq<(u32, u32)>,
                bloom: Seq<u8>,
                probes: u8,
                sm: Seq<u8>,
                bg: Seq<u8>,
                maxv: u64,
            |
                ofs.len() <= u32::MAX && bloom.len() <= u32::MAX && sm.len() <= u32::MAX
                    && bg.len() <= u32::MAX implies buf@ != #[trigger] footer_bytes(
                ofs,
                bloom,
                probes,
                sm,
                bg,
                maxv,
            ) by {
                if buf@ == footer_bytes(ofs, bloom, probes, sm, bg, maxv) {
                    lemma_tail_lengths(buf@, ofs, bloom, probes, sm, bg, maxv);
                }
            }
        }
        return None;
    }
    let biggest = vstd::slice::slice_to_vec(
        vstd::slice::slice_subrange(buf, pos3 + 4, pos3 + 4 + gl),
    );
    let max_version = crate::codec::get_u64_be(buf, pos3 + 4 + gl);
    let f = TableFooter {
        block_offsets: out_ofs,
        bloom_bits,
        bloom_probes,
        smallest,
        biggest,
        max_version,
    };
    proof {
        lemma_offsets_bytes_len(f.block_offsets@);
        crate::codec::lemma_be32_inverse(buf@.subrange(0, 4));
        crate::codec::lemma_be32_inverse(buf@.subrange(pos as int, pos + 4));
        crate::codec::lemma_be32_inverse(buf@.subrange(pos2 as int, pos2 + 4));
        crate::codec::lemma_be32_inverse(buf@.subrange(pos3 as int, pos3 + 4));
        crate::codec::lemma_be64_inverse(buf@.subrange(pos3 + 4 + gl, pos3 + 12 + gl));
        assert(buf@ =~= f.bytes());
    }
    Some(f)
}

} // verus!
