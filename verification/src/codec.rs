//! Byte-level codecs shared by every on-disk format of the engine:
//! big-endian fixed-width integers, LEB128 variable-length integers,
//! and the lexicographic order on byte strings.

use vstd::prelude::*;

verus! {

// ---------------------------------------------------------------------
// Big-endian fixed-width integers
// ---------------------------------------------------------------------

pub open spec fn be16_of(x: u16) -> Seq<u8> {
    seq![(x >> 8) as u8, (x & 0xff) as u8]
}

pub open spec fn be32_of(x: u32) -> Seq<u8> {
    seq![
        (x >> 24) as u8,
        ((x >> 16) & 0xff) as u8,
        ((x >> 8) & 0xff) as u8,
        (x & 0xff) as u8,
    ]
}

pub open spec fn be64_of(x: u64) -> Seq<u8> {
    seq![
        (x >> 56) as u8,
        ((x >> 48) & 0xff) as u8,
        ((x >> 40) & 0xff) as u8,
        ((x >> 32) & 0xff) as u8,
        ((x >> 24) & 0xff) as u8,
        ((x >> 16) & 0xff) as u8,
        ((x >> 8) & 0xff) as u8,
        (x & 0xff) as u8,
    ]
}

/// The value a 2-byte big-endian run stands for.
pub open spec fn be16_val(s: Seq<u8>) -> u16
    recommends
        s.len() == 2,
{
    ((s[0] as u16) << 8 | (s[1] as u16)) as u16
}

pub open spec fn be32_val(s: Seq<u8>) -> u32
    recommends
        s.len() == 4,
{
    ((s[0] as u32) << 24 | (s[1] as u32) << 16 | (s[2] as u32) << 8 | (s[3] as u32)) as u32
}

pub open spec fn be64_val(s: Seq<u8>) -> u64
    recommends
        s.len() == 8,
{
    ((s[0] as u64) << 56 | (s[1] as u64) << 48 | (s[2] as u64) << 40 | (s[3] as u64) << 32 | (
    s[4] as u64) << 24 | (s[5] as u64) << 16 | (s[6] as u64) << 8 | (s[7] as u64)) as u64
}

pub proof fn lemma_be16_round_trip(x: u16)
    ensures
        be16_of(x).len() == 2,
        be16_val(be16_of(x)) == x,
{
    assert((((x >> 8) as u8) as u16) << 8 | (((x & 0xff) as u8) as u16) == x) by (bit_vector);
}

pub proof fn lemma_be32_round_trip(x: u32)
    ensures
        be32_of(x).len() == 4,
        be32_val(be32_of(x)) == x,
{
    assert((((x >> 24) as u8) as u32) << 24 | ((((x >> 16) & 0xff) as u8) as u32) << 16 | ((((x
        >> 8) & 0xff) as u8) as u32) << 8 | (((x & 0xff) as u8) as u32) == x) by (bit_vector);
}

pub proof fn lemma_be64_round_trip(x: u64)
    ensures
        be64_of(x).len() == 8,
        be64_val(be64_of(x)) == x,
{
    assert((((x >> 56) as u8) as u64) << 56 | ((((x >> 48) & 0xff) as u8) as u64) << 48 | ((((x
        >> 40) & 0xff) as u8) as u64) << 40 | ((((x >> 32) & 0xff) as u8) as u64) << 32 | ((((x
        >> 24) & 0xff) as u8) as u64) << 24 | ((((x >> 16) & 0xff) as u8) as u64) << 16 | ((((x
        >> 8) & 0xff) as u8) as u64) << 8 | (((x & 0xff) as u8) as u64) == x) by (bit_vector);
}

pub proof fn lemma_be16_inverse(s: Seq<u8>)
    requires
        s.len() == 2,
    ensures
        be16_of(be16_val(s)) == s,
{
    let b0 = s[0];
    let b1 = s[1];
    let x = be16_val(s);
    assert((x >> 8) as u8 == b0 && (x & 0xff) as u8 == b1) by (bit_vector)
        requires
            x == ((b0 as u16) << 8 | (b1 as u16)) as u16,
    ;
    assert(be16_of(x) =~= s);
}

pub proof fn lemma_be32_inverse(s: Seq<u8>)
    requires
        s.len() == 4,
    ensures
        be32_of(be32_val(s)) == s,
{
    let b0 = s[0];
    let b1 = s[1];
    let b2 = s[2];
    let b3 = s[3];
    let x = be32_val(s);
    assert((x >> 24) as u8 == b0 && ((x >> 16) & 0xff) as u8 == b1 && ((x >> 8) & 0xff) as u8 == b2
        && (x & 0xff) as u8 == b3) by (bit_vector)
        requires
            x == ((b0 as u32) << 24 | (b1 as u32) << 16 | (b2 as u32) << 8 | (b3 as u32)) as u32,
    ;
    assert(be32_of(x) =~= s);
}

pub proof fn lemma_be64_inverse(s: Seq<u8>)
    requires
        s.len() == 8,
    ensures
        be64_of(be64_val(s)) == s,
{
    let b0 = s[0];
    let b1 = s[1];
    let b2 = s[2];
    let b3 = s[3];
    let b4 = s[4];
    let b5 = s[5];
    let b6 = s[6];
    let b7 = s[7];
    let x = be64_val(s);
    assert((x >> 56) as u8 == b0 && ((x >> 48) & 0xff) as u8 == b1 && ((x >> 40) & 0xff) as u8 == b2
        && ((x >> 32) & 0xff) as u8 == b3 && ((x >> 24) & 0xff) as u8 == b4 && ((x >> 16)
        & 0xff) as u8 == b5 && ((x >> 8) & 0xff) as u8 == b6 && (x & 0xff) as u8 == b7)
        by (bit_vector)
        requires
            x == ((b0 as u64) << 56 | (b1 as u64) << 48 | (b2 as u64) << 40 | (b3 as u64) << 32 | (
            b4 as u64) << 24 | (b5 as u64) << 16 | (b6 as u64) << 8 | (b7 as u64)) as u64,
    ;
    assert(be64_of(x) =~= s);
}

/// Appends the 2-byte big-endian form of `x`.
pub fn put_u16_be(buf: &mut Vec<u8>, x: u16)
    ensures
        final(buf)@ == old(buf)@ + be16_of(x),
{
    buf.push((x >> 8) as u8);
    buf.push((x & 0xff) as u8);
    assert(buf@ =~= old(buf)@ + be16_of(x));
}

/// Appends the 4-byte big-endian form of `x`.
pub fn put_u32_be(buf: &mut Vec<u8>, x: u32)
    ensures
        final(buf)@ == old(buf)@ + be32_of(x),
{
    buf.push((x >> 24) as u8);
    buf.push(((x >> 16) & 0xff) as u8);
    buf.push(((x >> 8) & 0xff) as u8);
    buf.push((x & 0xff) as u8);
    assert(buf@ =~= old(buf)@ + be32_of(x));
}

/// Appends the 8-byte big-endian form of `x`.
pub fn put_u64_be(buf: &mut Vec<u8>, x: u64)
    ensures
        final(buf)@ == old(buf)@ + be64_of(x),
{
    buf.push((x >> 56) as u8);
    buf.push(((x >> 48) & 0xff) as u8);
    buf.push(((x >> 40) & 0xff) as u8);
    buf.push(((x >> 32) & 0xff) as u8);
    buf.push(((x >> 24) & 0xff) as u8);
    buf.push(((x >> 16) & 0xff) as u8);
    buf.push(((x >> 8) & 0xff) as u8);
    buf.push((x & 0xff) as u8);
    assert(buf@ =~= old(buf)@ + be64_of(x));
}

/// Reads the 2-byte big-endian value starting at `pos`.
pub fn get_u16_be(buf: &[u8], pos: usize) -> (r: u16)
    requires
        pos + 2 <= buf@.len(),
    ensures
        r == be16_val(buf@.subrange(pos as int, pos + 2)),
{
    let b0 = buf[pos];
    let b1 = buf[pos + 1];
    let r = (b0 as u16) << 8 | (b1 as u16);
    proof {
        let s = buf@.subrange(pos as int, pos + 2);
        assert(s[0] == b0 && s[1] == b1);
    }
    r
}

/// Reads the 4-byte big-endian value starting at `pos`.
pub fn get_u32_be(buf: &[u8], pos: usize) -> (r: u32)
    requires
        pos + 4 <= buf@.len(),
    ensures
        r == be32_val(buf@.subrange(pos as int, pos + 4)),
{
    let b0 = buf[pos];
    let b1 = buf[pos + 1];
    let b2 = buf[pos + 2];
    let b3 = buf[pos + 3];
    let r = (b0 as u32) << 24 | (b1 as u32) << 16 | (b2 as u32) << 8 | (b3 as u32);
    proof {
        let s = buf@.subrange(pos as int, pos + 4);
        assert(s[0] == b0 && s[1] == b1 && s[2] == b2 && s[3] == b3);
    }
    r
}

/// Reads the 8-byte big-endian value starting at `pos`.
pub fn get_u64_be(buf: &[u8], pos: usize) -> (r: u64)
    requires
        pos + 8 <= buf@.len(),
    ensures
        r == be64_val(buf@.subrange(pos as int, pos + 8)),
{
    let b0 = buf[pos];
    let b1 = buf[pos + 1];
    let b2 = buf[pos + 2];
    let b3 = buf[pos + 3];
    let b4 = buf[pos + 4];
    let b5 = buf[pos + 5];
    let b6 = buf[pos + 6];
    let b7 = buf[pos + 7];
    let r = (b0 as u64) << 56 | (b1 as u64) << 48 | (b2 as u64) << 40 | (b3 as u64) << 32 | (
    b4 as u64) << 24 | (b5 as u64) << 16 | (b6 as u64) << 8 | (b7 as u64);
    proof {
        let s = buf@.subrange(pos as int, pos + 8);
        assert(s[0] == b0 && s[1] == b1 && s[2] == b2 && s[3] == b3);
        assert(s[4] == b4 && s[5] == b5 && s[6] == b6 && s[7] == b7);
    }
    r
}

// ---------------------------------------------------------------------
// LEB128 variable-length integers
// ---------------------------------------------------------------------

/// The LEB128 encoding of `x`: seven value bits per byte, least
/// significant group first, high bit set on every byte but the last.
pub open spec fn varint_of(x: u64) -> Seq<u8>
    decreases x,
{
    if x < 128 {
        seq![x as u8]
    } else {
        seq![(x % 128 + 128) as u8] + varint_of(x / 128)
    }
}

pub proof fn lemma_varint_len(x: u64)
    ensures
        1 <= varint_of(x).len() <= 10,
{
    let x1 = x / 128;
    let x2 = x1 / 128;
    let x3 = x2 / 128;
    let x4 = x3 / 128;
    let x5 = x4 / 128;
    let x6 = x5 / 128;
    let x7 = x6 / 128;
    let x8 = x7 / 128;
    let x9 = x8 / 128;
    assert(x9 < 128);
    assert(varint_of(x9).len() == 1);
    assert(varint_of(x8).len() <= 1 + varint_of(x9).len());
    assert(varint_of(x7).len() <= 1 + varint_of(x8).len());
    assert(varint_of(x6).len() <= 1 + varint_of(x7).len());
    assert(varint_of(x5).len() <= 1 + varint_of(x6).len());
    assert(varint_of(x4).len() <= 1 + varint_of(x5).len());
    assert(varint_of(x3).len() <= 1 + varint_of(x4).len());
    assert(varint_of(x2).len() <= 1 + varint_of(x3).len());
    assert(varint_of(x1).len() <= 1 + varint_of(x2).len());
    assert(varint_of(x).len() <= 1 + varint_of(x1).len());
}

/// A well-formed varint starts at `pos` in `s`.
pub open spec fn varint_at(s: Seq<u8>, pos: int) -> bool {
    exists|x: u64|
        {
            &&& pos + #[trigger] varint_of(x).len() <= s.len()
            &&& s.subrange(pos, pos + varint_of(x).len() as int) == varint_of(x)
        }
}

/// Two varints starting at the same position denote the same value:
/// the encoding is prefix-free.
pub proof fn lemma_varint_unique_at(s: Seq<u8>, pos: int, x: u64, y: u64)
    requires
        0 <= pos,
        pos + varint_of(x).len() <= s.len(),
        s.subrange(pos, pos + varint_of(x).len() as int) == varint_of(x),
        pos + varint_of(y).len() <= s.len(),
        s.subrange(pos, pos + varint_of(y).len() as int) == varint_of(y),
    ensures
        x == y,
    decreases x,
{
    let lx = varint_of(x).len() as int;
    let ly = varint_of(y).len() as int;
    assert(lx >= 1 && ly >= 1);
    assert(s.subrange(pos, pos + lx)[0] == s[pos]);
    assert(s.subrange(pos, pos + ly)[0] == s[pos]);
    assert(s[pos] == varint_of(x)[0]);
    assert(s[pos] == varint_of(y)[0]);
    if x < 128 {
        if y < 128 {
            assert(x as u8 == y as u8);
        } else {
            assert(varint_of(y)[0] >= 128);
            assert(varint_of(x)[0] == x as u8 && x < 128);
        }
    } else {
        if y < 128 {
            assert(varint_of(x)[0] >= 128);
        } else {
            let xs = varint_of(x / 128);
            let ys = varint_of(y / 128);
            assert(s.subrange(pos + 1, pos + 1 + xs.len() as int) =~= xs) by {
                assert forall|i: int| 0 <= i < xs.len() implies s[pos + 1 + i] == xs[i] by {
                    assert(varint_of(x)[i + 1] == xs[i]);
                }
            }
            assert(s.subrange(pos + 1, pos + 1 + ys.len() as int) =~= ys) by {
                assert forall|i: int| 0 <= i < ys.len() implies s[pos + 1 + i] == ys[i] by {
                    assert(varint_of(y)[i + 1] == ys[i]);
                }
            }
            lemma_varint_unique_at(s, pos + 1, x / 128, y / 128);
            assert(x % 128 + 128 == y % 128 + 128);
            assert(x == 128 * (x / 128) + x % 128);
            assert(y == 128 * (y / 128) + y % 128);
        }
    }
}

/// Appends the varint form of `x` to `buf`.
pub fn put_varint(buf: &mut Vec<u8>, x: u64)
    ensures
        final(buf)@ == old(buf)@ + varint_of(x),
{
    let mut v: u64 = x;
    loop
        invariant
            buf@ + varint_of(v) == old(buf)@ + varint_of(x),
        decreases v,
    {
        if v < 128 {
            buf.push(v as u8);
            proof {
                assert(buf@ =~= old(buf)@ + varint_of(x));
            }
            return ;
        } else {
            let ghost pre = buf@;
            buf.push((v % 128 + 128) as u8);
            proof {
                assert(buf@ + varint_of(v / 128) =~= pre + varint_of(v));
                assert(buf@ + varint_of(v / 128) =~= old(buf)@ + varint_of(x));
            }
            v = v / 128;
        }
    }
}

/// Reads a varint of at most `fuel` bytes starting at `pos`.
fn get_varint_fueled(buf: &[u8], pos: usize, fuel: usize) -> (r: Option<(u64, usize)>)
    requires
        pos <= buf@.len(),
    ensures
        match r {
            Some((x, n)) => {
                &&& pos + n <= buf@.len()
                &&& n == varint_of(x).len()
                &&& buf@.subrange(pos as int, pos + n) == varint_of(x)
                &&& 1 <= n <= fuel
            },
            None => forall|x: u64|
                (pos + #[trigger] varint_of(x).len() <= buf@.len() && buf@.subrange(
                    pos as int,
                    pos + varint_of(x).len() as int,
                ) == varint_of(x)) ==> varint_of(x).len() > fuel,
        },
    decreases fuel,
{
    if fuel == 0 || pos >= buf.len() {
        return None;
    }
    let b = buf[pos];
    if b < 128 {
        let x = b as u64;
        proof {
            assert(buf@.subrange(pos as int, pos + 1) =~= varint_of(x));
        }
        return Some((x, 1));
    }
    match get_varint_fueled(buf, pos + 1, fuel - 1) {
        None => {
            proof {
                assert forall|x: u64|
                    (pos + #[trigger] varint_of(x).len() <= buf@.len() && buf@.subrange(
                        pos as int,
                        pos + varint_of(x).len() as int,
                    ) == varint_of(x)) implies varint_of(x).len() > fuel by {
                    if varint_of(x).len() <= fuel {
                        assert(buf@[pos as int] == varint_of(x)[0]);
                        assert(x >= 128);
                        let xs = varint_of(x / 128);
                        assert(buf@.subrange(pos + 1, pos + 1 + xs.len() as int) =~= xs) by {
                            assert forall|i: int| 0 <= i < xs.len() implies buf@[pos + 1 + i]
                                == xs[i] by {
                                assert(varint_of(x)[i + 1] == xs[i]);
                            }
                        }
                    }
                }
            }
            None
        },
        Some((hi, n2)) => {
            let rem = (b - 128) as u64;
            if hi == 0 || hi > (u64::MAX - rem) / 128 {
                proof {
                    assert forall|x: u64|
                        (pos + #[trigger] varint_of(x).len() <= buf@.len() && buf@.subrange(
                            pos as int,
                            pos + varint_of(x).len() as int,
                        ) == varint_of(x)) implies varint_of(x).len() > fuel by {
                        assert(buf@[pos as int] == varint_of(x)[0]);
                        assert(x >= 128);
                        let xs = varint_of(x / 128);
                        assert(buf@.subrange(pos + 1, pos + 1 + xs.len() as int) =~= xs) by {
                            assert forall|i: int| 0 <= i < xs.len() implies buf@[pos + 1 + i]
                                == xs[i] by {
                                assert(varint_of(x)[i + 1] == xs[i]);
                            }
                        }
                        lemma_varint_unique_at(buf@, pos + 1, x / 128, hi);
                        assert(x / 128 == hi);
                        assert(x == 128 * (x / 128) + x % 128);
                        assert(x % 128 + 128 == b);
                        assert(false);
                    }
                }
                None
            } else {
                let x = 128 * hi + rem;
                proof {
                    assert(x / 128 == hi && x % 128 == rem) by (nonlinear_arith)
                        requires
                            x == 128 * hi + rem,
                            0 <= rem < 128,
                            hi >= 0,
                    ;
                    assert(x >= 128);
                    let xs = varint_of(x);
                    assert(xs =~= seq![b] + varint_of(hi));
                    assert(buf@.subrange(pos as int, pos + xs.len() as int) =~= xs) by {
                        assert forall|i: int| 0 <= i < xs.len() implies buf@.subrange(
                            pos as int,
                            pos + xs.len() as int,
                        )[i] == xs[i] by {
                            if i == 0 {
                            } else {
                                assert(buf@.subrange(pos + 1, pos + 1 + varint_of(
                                    hi,
                                ).len() as int)[i - 1] == varint_of(hi)[i - 1]);
                            }
                        }
                    }
                }
                Some((x, n2 + 1))
            }
        },
    }
}

/// Reads the varint starting at `pos`; returns the value and the number
/// of bytes consumed, or `None` when no well-formed varint starts there.
pub fn get_varint(buf: &[u8], pos: usize) -> (r: Option<(u64, usize)>)
    requires
        pos <= buf@.len(),
    ensures
        match r {
            Some((x, n)) => {
                &&& pos + n <= buf@.len()
                &&& n == varint_of(x).len()
                &&& buf@.subrange(pos as int, pos + n) == varint_of(x)
                &&& 1 <= n <= 10
            },
            None => !varint_at(buf@, pos as int),
        },
{
    let r = get_varint_fueled(buf, pos, 10);
    proof {
        if r is None {
            assert forall|x: u64| !(pos + #[trigger] varint_of(x).len() <= buf@.len()
                && buf@.subrange(pos as int, pos + varint_of(x).len() as int) == varint_of(
                x,
            )) by {
                lemma_varint_len(x);
            }
        }
    }
    r
}

// ---------------------------------------------------------------------
// Lexicographic order on byte strings
// ---------------------------------------------------------------------

/// `a` comes at or before `b` in shortlex-free lexicographic byte order.
pub open spec fn lex_le(a: Seq<u8>, b: Seq<u8>) -> bool
    decreases a.len(),
{
    if a.len() == 0 {
        true
    } else if b.len() == 0 {
        false
    } else if a[0] < b[0] {
        true
    } else if a[0] > b[0] {
        false
    } else {
        lex_le(a.drop_first(), b.drop_first())
    }
}

/// At the first differing byte, that byte alone decides the
/// lexicographic order of two equal-length runs.
pub proof fn lemma_lex_le_at_diff(p: Seq<u8>, q: Seq<u8>, d: int)
    requires
        p.len() == q.len(),
        0 <= d < p.len(),
        forall|j: int| 0 <= j < d ==> p[j] == q[j],
        p[d] != q[d],
    ensures
        lex_le(p, q) <==> p[d] < q[d],
    decreases d,
{
    if d == 0 {
    } else {
        let p2 = p.drop_first();
        let q2 = q.drop_first();
        assert(forall|j: int| 0 <= j < d - 1 ==> p2[j] == q2[j]) by {
            assert(forall|j: int| 0 <= j < d - 1 ==> p2[j] == p[j + 1] && q2[j] == q[j + 1]);
        }
        assert(p2[d - 1] == p[d] && q2[d - 1] == q[d]);
        lemma_lex_le_at_diff(p2, q2, d - 1);
    }
}

/// A byte earlier in a big-endian run outweighs everything after it.
proof fn lemma_be64_val_lt(p: Seq<u8>, q: Seq<u8>, d: int)
    requires
        p.len() == 8,
        q.len() == 8,
        0 <= d < 8,
        forall|j: int| 0 <= j < d ==> p[j] == q[j],
        p[d] < q[d],
    ensures
        be64_val(p) < be64_val(q),
{
    let a0 = p[0];
    let a1 = p[1];
    let a2 = p[2];
    let a3 = p[3];
    let a4 = p[4];
    let a5 = p[5];
    let a6 = p[6];
    let a7 = p[7];
    let b0 = q[0];
    let b1 = q[1];
    let b2 = q[2];
    let b3 = q[3];
    let b4 = q[4];
    let b5 = q[5];
    let b6 = q[6];
    let b7 = q[7];
    assert(be64_val(p) == ((a0 as u64) << 56 | (a1 as u64) << 48 | (a2 as u64) << 40 | (
    a3 as u64) << 32 | (a4 as u64) << 24 | (a5 as u64) << 16 | (a6 as u64) << 8 | (
    a7 as u64)) as u64);
    assert(be64_val(q) == ((b0 as u64) << 56 | (b1 as u64) << 48 | (b2 as u64) << 40 | (
    b3 as u64) << 32 | (b4 as u64) << 24 | (b5 as u64) << 16 | (b6 as u64) << 8 | (
    b7 as u64)) as u64);
    if d == 0 {
        assert((((a0 as u64) << 56 | (a1 as u64) << 48 | (a2 as u64) << 40 | (a3 as u64) << 32 | (
        a4 as u64) << 24 | (a5 as u64) << 16 | (a6 as u64) << 8 | (a7 as u64)) as u64) < (((
        b0 as u64) << 56 | (b1 as u64) << 48 | (b2 as u64) << 40 | (b3 as u64) << 32 | (
        b4 as u64) << 24 | (b5 as u64) << 16 | (b6 as u64) << 8 | (b7 as u64)) as u64))
            by (bit_vector)
            requires
                a0 < b0,
        ;
    } else if d == 1 {
        assert((((a0 as u64) << 56 | (a1 as u64) << 48 | (a2 as u64) << 40 | (a3 as u64) << 32 | (
        a4 as u64) << 24 | (a5 as u64) << 16 | (a6 as u64) << 8 | (a7 as u64)) as u64) < (((
        b0 as u64) << 56 | (b1 as u64) << 48 | (b2 as u64) << 40 | (b3 as u64) << 32 | (
        b4 as u64) << 24 | (b5 as u64) << 16 | (b6 as u64) << 8 | (b7 as u64)) as u64))
            by (bit_vector)
            requires
                a0 == b0,
                a1 < b1,
        ;
    } else if d == 2 {
        assert((((a0 as u64) << 56 | (a1 as u64) << 48 | (a2 as u64) << 40 | (a3 as u64) << 32 | (
        a4 as u64) << 24 | (a5 as u64) << 16 | (a6 as u64) << 8 | (a7 as u64)) as u64) < (((
        b0 as u64) << 56 | (b1 as u64) << 48 | (b2 as u64) << 40 | (b3 as u64) << 32 | (
        b4 as u64) << 24 | (b5 as u64) << 16 | (b6 as u64) << 8 | (b7 as u64)) as u64))
            by (bit_vector)
            requires
                a0 == b0,
                a1 == b1,
                a2 < b2,
        ;
    } else if d == 3 {
        assert((((a0 as u64) << 56 | (a1 as u64) << 48 | (a2 as u64) << 40 | (a3 as u64) << 32 | (
        a4 as u64) << 24 | (a5 as u64) << 16 | (a6 as u64) << 8 | (a7 as u64)) as u64) < (((
        b0 as u64) << 56 | (b1 as u64) << 48 | (b2 as u64) << 40 | (b3 as u64) << 32 | (
        b4 as u64) << 24 | (b5 as u64) << 16 | (b6 as u64) << 8 | (b7 as u64)) as u64))
            by (bit_vector)
            requires
                a0 == b0,
                a1 == b1,
                a2 == b2,
                a3 < b3,
        ;
    } else if d == 4 {
        assert((((a0 as u64) << 56 | (a1 as u64) << 48 | (a2 as u64) << 40 | (a3 as u64) << 32 | (
        a4 as u64) << 24 | (a5 as u64) << 16 | (a6 as u64) << 8 | (a7 as u64)) as u64) < (((
        b0 as u64) << 56 | (b1 as u64) << 48 | (b2 as u64) << 40 | (b3 as u64) << 32 | (
        b4 as u64) << 24 | (b5 as u64) << 16 | (b6 as u64) << 8 | (b7 as u64)) as u64))
            by (bit_vector)
            requires
                a0 == b0,
                a1 == b1,
                a2 == b2,
                a3 == b3,
                a4 < b4,
        ;
    } else if d == 5 {
        assert((((a0 as u64) << 56 | (a1 as u64) << 48 | (a2 as u64) << 40 | (a3 as u64) << 32 | (
        a4 as u64) << 24 | (a5 as u64) << 16 | (a6 as u64) << 8 | (a7 as u64)) as u64) < (((
        b0 as u64) << 56 | (b1 as u64) << 48 | (b2 as u64) << 40 | (b3 as u64) << 32 | (
        b4 as u64) << 24 | (b5 as u64) << 16 | (b6 as u64) << 8 | (b7 as u64)) as u64))
            by (bit_vector)
            requires
                a0 == b0,
                a1 == b1,
                a2 == b2,
                a3 == b3,
                a4 == b4,
                a5 < b5,
        ;
    } else if d == 6 {
        assert((((a0 as u64) << 56 | (a1 as u64) << 48 | (a2 as u64) << 40 | (a3 as u64) << 32 | (
        a4 as u64) << 24 | (a5 as u64) << 16 | (a6 as u64) << 8 | (a7 as u64)) as u64) < (((
        b0 as u64) << 56 | (b1 as u64) << 48 | (b2 as u64) << 40 | (b3 as u64) << 32 | (
        b4 as u64) << 24 | (b5 as u64) << 16 | (b6 as u64) << 8 | (b7 as u64)) as u64))
            by (bit_vector)
            requires
                a0 == b0,
                a1 == b1,
                a2 == b2,
                a3 == b3,
                a4 == b4,
                a5 == b5,
                a6 < b6,
        ;
    } else {
        assert((((a0 as u64) << 56 | (a1 as u64) << 48 | (a2 as u64) << 40 | (a3 as u64) << 32 | (
        a4 as u64) << 24 | (a5 as u64) << 16 | (a6 as u64) << 8 | (a7 as u64)) as u64) < (((
        b0 as u64) << 56 | (b1 as u64) << 48 | (b2 as u64) << 40 | (b3 as u64) << 32 | (
        b4 as u64) << 24 | (b5 as u64) << 16 | (b6 as u64) << 8 | (b7 as u64)) as u64))
            by (bit_vector)
            requires
                a0 == b0,
                a1 == b1,
                a2 == b2,
                a3 == b3,
                a4 == b4,
                a5 == b5,
                a6 == b6,
                a7 < b7,
        ;
    }
}

/// On 8-byte runs, lexicographic order and big-endian numeric order
/// are one and the same.
pub proof fn lemma_lex_le_is_be64_le(p: Seq<u8>, q: Seq<u8>)
    requires
        p.len() == 8,
        q.len() == 8,
    ensures
        lex_le(p, q) <==> be64_val(p) <= be64_val(q),
{
    if p =~= q {
        lemma_lex_le_total(p, q);
    } else {
        let d: int = if p[0] != q[0] {
            0
        } else if p[1] != q[1] {
            1
        } else if p[2] != q[2] {
            2
        } else if p[3] != q[3] {
            3
        } else if p[4] != q[4] {
            4
        } else if p[5] != q[5] {
            5
        } else if p[6] != q[6] {
            6
        } else {
            7
        };
        assert(p[d] != q[d]) by {
            if d == 7 && p[7] == q[7] {
                assert(p =~= q);
            }
        }
        lemma_lex_le_at_diff(p, q, d);
        if p[d] < q[d] {
            lemma_be64_val_lt(p, q, d);
        } else {
            lemma_be64_val_lt(q, p, d);
        }
    }
}

pub proof fn lemma_lex_le_total(a: Seq<u8>, b: Seq<u8>)
    ensures
        lex_le(a, b) || lex_le(b, a),
        lex_le(a, b) && lex_le(b, a) ==> a == b,
    decreases a.len(),
{
    if a.len() != 0 && b.len() != 0 && a[0] == b[0] {
        lemma_lex_le_total(a.drop_first(), b.drop_first());
        if lex_le(a, b) && lex_le(b, a) {
            assert(a.drop_first() == b.drop_first());
            assert(a =~= b) by {
                assert(forall|i: int| 1 <= i < a.len() ==> a[i] == a.drop_first()[i - 1]);
            }
        }
    }
}

pub proof fn lemma_lex_le_trans(a: Seq<u8>, b: Seq<u8>, c: Seq<u8>)
    requires
        lex_le(a, b),
        lex_le(b, c),
    ensures
        lex_le(a, c),
    decreases a.len(),
{
    if a.len() != 0 && b.len() != 0 && c.len() != 0 && a[0] == b[0] && b[0] == c[0] {
        lemma_lex_le_trans(a.drop_first(), b.drop_first(), c.drop_first());
    }
}

/// Compares two byte strings; true when `a` is at or before `b`.
pub fn bytes_le(a: &[u8], b: &[u8]) -> (r: bool)
    ensures
        r == lex_le(a@, b@),
{
    let mut i: usize = 0;
    let a_len = a.len();
    let b_len = b.len();
    proof {
        assert(a@.skip(0) =~= a@);
        assert(b@.skip(0) =~= b@);
    }
    loop
        invariant
            i <= a_len <= a@.len(),
            i <= b_len <= b@.len(),
            a_len == a@.len(),
            b_len == b@.len(),
            forall|j: int| 0 <= j < i ==> a@[j] == b@[j],
            lex_le(a@, b@) == lex_le(a@.skip(i as int), b@.skip(i as int)),
        decreases a_len - i,
    {
        if i >= a_len {
            return true;
        }
        if i >= b_len {
            return false;
        }
        let x = a[i];
        let y = b[i];
        if x != y {
            proof {
                assert(a@.skip(i as int)[0] == x && b@.skip(i as int)[0] == y);
            }
            return x < y;
        }
        proof {
            let sa = a@.skip(i as int);
            let sb = b@.skip(i as int);
            assert(sa[0] == x && sb[0] == y);
            assert(sa.drop_first() =~= a@.skip(i + 1));
            assert(sb.drop_first() =~= b@.skip(i + 1));
        }
        i = i + 1;
    }
}

/// Appends all of `src` to `dst`.
pub fn extend_bytes(dst: &mut Vec<u8>, src: &[u8])
    ensures
        final(dst)@ == old(dst)@ + src@,
{
    let mut i: usize = 0;
    let n = src.len();
    while i < n
        invariant
            i <= n == src@.len(),
            dst@ == old(dst)@ + src@.take(i as int),
        decreases n - i,
    {
        let b = src[i];
        dst.push(b);
        proof {
            assert(src@.take(i + 1) =~= src@.take(i as int) + seq![b]);
        }
        i = i + 1;
    }
    proof {
        assert(src@.take(n as int) =~= src@);
    }
}

/// Appends `src[from..to]` to `dst`.
pub fn extend_bytes_range(dst: &mut Vec<u8>, src: &[u8], from: usize, to: usize)
    requires
        from <= to <= src@.len(),
    ensures
        final(dst)@ == old(dst)@ + src@.subrange(from as int, to as int),
{
    let mut i: usize = from;
    while i < to
        invariant
            from <= i <= to <= src@.len(),
            dst@ == old(dst)@ + src@.subrange(from as int, i as int),
        decreases to - i,
    {
        let b = src[i];
        dst.push(b);
        proof {
            assert(src@.subrange(from as int, i + 1) =~= src@.subrange(from as int, i as int)
                + seq![b]);
        }
        i = i + 1;
    }
}

/// The number of bytes the varint form of `x` takes.
pub fn varint_size(x: u64) -> (r: usize)
    ensures
        r == varint_of(x).len(),
        1 <= r <= 10,
{
    proof {
        lemma_varint_len(x);
    }
    let mut v: u64 = x;
    let mut n: usize = 1;
    while v >= 128
        invariant
            1 <= n <= 11,
            varint_of(x).len() == n + varint_of(v).len() - 1,
            varint_of(v).len() <= 11 - n,
        decreases v,
    {
        proof {
            lemma_varint_len(v / 128);
        }
        v = v / 128;
        n = n + 1;
    }
    n
}

/// Tests two byte strings for equality.
pub fn bytes_equal(a: &[u8], b: &[u8]) -> (r: bool)
    ensures
        r == (a@ == b@),
{
    if a.len() != b.len() {
        return false;
    }
    let n = a.len();
    let mut i: usize = 0;
    while i < n
        invariant
            i <= n,
            n == a@.len() == b@.len(),
            forall|j: int| 0 <= j < i ==> a@[j] == b@[j],
        decreases n - i,
    {
        if a[i] != b[i] {
            return false;
        }
        i = i + 1;
    }
    proof {
        assert(a@ =~= b@);
    }
    true
}

/// `p` is a prefix of `s`.
pub open spec fn has_prefix(s: Seq<u8>, p: Seq<u8>) -> bool {
    p.len() <= s.len() && s.subrange(0, p.len() as int) == p
}

/// Tests whether `s` starts with `p`.
pub fn starts_with(s: &[u8], p: &[u8]) -> (r: bool)
    ensures
        r == has_prefix(s@, p@),
{
    if p.len() > s.len() {
        assert(!has_prefix(s@, p@));
        return false;
    }
    let mut i: usize = 0;
    loop
        invariant
            i <= p@.len() <= s@.len(),
            forall|j: int| 0 <= j < i ==> s@[j] == p@[j],
        decreases p@.len() - i,
    {
        if i >= p.len() {
            proof {
                assert(s@.subrange(0, p@.len() as int) =~= p@);
            }
            return true;
        }
        if s[i] != p[i] {
            proof {
                if has_prefix(s@, p@) {
                    assert(s@.subrange(0, p@.len() as int)[i as int] == p@[i as int]);
                }
            }
            return false;
        }
        i = i + 1;
    }
}

} // verus!
