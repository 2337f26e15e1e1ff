//! A fixed-capacity bump arena. Allocation advances a single cursor
//! with a bounds check; nothing is freed until the whole arena goes.
//! Offsets into the arena, not addresses, are the stored pointers.

use vstd::prelude::*;

verus! {

pub const CHUNK_ALIGN: usize = 16;

pub const PAGE_CUTOFF: usize = 4096;

pub const DEFAULT_ALIGN: usize = 8;

/// Adds two sizes; allocation sizing uses this.
pub fn add(left: usize, right: usize) -> (r: usize)
    requires
        left + right <= usize::MAX,
    ensures
        r == left + right,
{
    left + right
}

/// `n` rounded up to the next multiple of `d`.
pub open spec fn align_up(n: int, d: int) -> int
    recommends
        d > 0,
{
    if n % d == 0 {
        n
    } else {
        n + (d - n % d)
    }
}

pub proof fn lemma_align_up_props(n: int, d: int)
    requires
        d > 0,
        n >= 0,
    ensures
        align_up(n, d) % d == 0,
        n <= align_up(n, d) < n + d,
{
    vstd::arithmetic::div_mod::lemma_mod_bound(n, d);
    vstd::arithmetic::div_mod::lemma_fundamental_div_mod(n, d);
    if n % d != 0 {
        let a = n + (d - n % d);
        let q = n / d + 1;
        assert(a == q * d + 0) by (nonlinear_arith)
            requires
                a == d * (n / d) + (n % d) + (d - n % d),
                q == n / d + 1,
        ;
        vstd::arithmetic::div_mod::lemma_fundamental_div_mod_converse(a, d, q, 0);
    }
}

/// Only one multiple of `d` lies in a window of width `d`.
pub proof fn lemma_align_window_unique(v: int, a: int, n: int, d: int)
    requires
        d > 0,
        v % d == 0,
        a % d == 0,
        n <= v < n + d,
        n <= a < n + d,
    ensures
        v == a,
{
    vstd::arithmetic::div_mod::lemma_fundamental_div_mod(v, d);
    vstd::arithmetic::div_mod::lemma_fundamental_div_mod(a, d);
    let qv = v / d;
    let qa = a / d;
    assert(v == a) by (nonlinear_arith)
        requires
            d > 0,
            v == d * qv,
            a == d * qa,
            n <= v < n + d,
            n <= a < n + d,
    ;
}

/// A handle to a run of bytes inside the arena.
#[derive(Debug, Clone, Copy, PartialEq, Eq, Structural)]
pub struct ArenaSlice {
    pub offset: usize,
    pub len: usize,
}

/// The arena: a byte pool of fixed capacity and the cursor where the
/// next allocation starts.
#[derive(Debug)]
pub struct Arena {
    pub buf: Vec<u8>,
    pub cursor: usize,
}

impl Arena {
    pub open spec fn capacity(&self) -> int {
        self.buf@.len() as int
    }

    pub open spec fn wf(&self) -> bool {
        self.cursor <= self.buf@.len()
    }

    /// Rounds `n` up to a multiple of the power-of-two `divisor`.
    pub fn round_up_to(n: usize, divisor: usize) -> (r: Option<usize>)
        requires
            divisor > 0,
            (divisor & (divisor - 1) as usize) == 0,
        ensures
            match r {
                Some(v) => v == align_up(n as int, divisor as int),
                None => n + divisor - 1 > usize::MAX,
            },
    {
        let dm1 = divisor - 1;
        match n.checked_add(dm1) {
            Some(sum) => {
                proof {
                    let s_i = sum as int;
                    let d_i = divisor as int;
                    let q = s_i / d_i;
                    vstd::arithmetic::div_mod::lemma_fundamental_div_mod(s_i, d_i);
                    vstd::arithmetic::div_mod::lemma_mod_bound(s_i, d_i);
                    assert(q * d_i == s_i - s_i % d_i);
                    vstd::arithmetic::div_mod::lemma_mod_multiples_basic(q, d_i);
                    assert(0 <= q * d_i <= s_i) by (nonlinear_arith)
                        requires
                            q == s_i / d_i,
                            d_i > 0,
                            s_i >= 0,
                            q * d_i == s_i - s_i % d_i,
                            0 <= s_i % d_i < d_i,
                    ;
                }
                let v = (sum / divisor) * divisor;
                proof {
                    lemma_align_up_props(n as int, divisor as int);
                    lemma_align_window_unique(
                        v as int,
                        align_up(n as int, divisor as int),
                        n as int,
                        divisor as int,
                    );
                }
                Some(v)
            },
            None => None,
        }
    }

    /// The capacity an arena of the requested size is given: the size
    /// rounded up to the chunk alignment, then to whole pages once
    /// past the page cutoff.
    pub open spec fn rounded_capacity(size: int) -> int {
        let chunked = align_up(size, CHUNK_ALIGN as int);
        if chunked >= PAGE_CUTOFF {
            align_up(chunked, PAGE_CUTOFF as int)
        } else {
            chunked
        }
    }

    /// An arena of the requested size, rounded up to the chunk
    /// alignment and then to whole pages once past the cutoff.
    pub fn new(size: usize) -> (r: Arena)
        requires
            size + PAGE_CUTOFF + CHUNK_ALIGN <= usize::MAX,
        ensures
            r.wf(),
            r.cursor == 0,
            r.capacity() == Arena::rounded_capacity(size as int),
            r.capacity() >= size,
    {
        proof {
            assert((CHUNK_ALIGN & (CHUNK_ALIGN - 1) as usize) == 0) by (bit_vector);
            assert((PAGE_CUTOFF & (PAGE_CUTOFF - 1) as usize) == 0) by (bit_vector);
            lemma_align_up_props(size as int, CHUNK_ALIGN as int);
        }
        let request = match Arena::round_up_to(size, CHUNK_ALIGN) {
            Some(v) => v,
            None => size,
        };
        proof {
            lemma_align_up_props(request as int, PAGE_CUTOFF as int);
        }
        let request = if request >= PAGE_CUTOFF {
            match Arena::round_up_to(request, PAGE_CUTOFF) {
                Some(v) => v,
                None => request,
            }
        } else {
            request
        };
        let mut buf: Vec<u8> = Vec::new();
        buf.resize(request, 0u8);
        Arena { buf, cursor: 0 }
    }

    /// How many bytes have been handed out.
    pub fn allocated(&self) -> (r: usize)
        ensures
            r == self.cursor,
    {
        self.cursor
    }

    /// Reserves `size` bytes, rounded up to the default alignment;
    /// fails if the arena is too small, rather than growing.
    pub fn alloc_layout(&mut self, size: usize) -> (r: Result<usize, crate::errors::DBError>)
        requires
            old(self).wf(),
        ensures
            final(self).wf(),
            final(self).capacity() == old(self).capacity(),
            r is Err <==> (size + DEFAULT_ALIGN - 1 > usize::MAX || old(self).cursor + align_up(
                size as int,
                DEFAULT_ALIGN as int,
            ) > old(self).capacity()),
            match r {
                Ok(offset) => {
                    &&& offset == old(self).cursor
                    &&& final(self).cursor == old(self).cursor + align_up(
                        size as int,
                        DEFAULT_ALIGN as int,
                    )
                    &&& offset + size <= final(self).cursor
                    &&& final(self).cursor <= final(self).capacity()
                    &&& final(self).buf@ == old(self).buf@
                },
                Err(e) => e == crate::errors::DBError::ArenaFull && *final(self) == *old(self),
            },
    {
        proof {
            assert((DEFAULT_ALIGN & (DEFAULT_ALIGN - 1) as usize) == 0) by (bit_vector);
            lemma_align_up_props(size as int, DEFAULT_ALIGN as int);
        }
        let rounded = match Arena::round_up_to(size, DEFAULT_ALIGN) {
            Some(v) => v,
            None => {
                return Err(crate::errors::DBError::ArenaFull);
            },
        };
        if rounded > self.buf.len() - self.cursor {
            return Err(crate::errors::DBError::ArenaFull);
        }
        let offset = self.cursor;
        self.cursor = self.cursor + rounded;
        Ok(offset)
    }

    /// The general allocation entry point.
    pub fn allocate(&mut self, size: usize) -> (r: Result<usize, crate::errors::DBError>)
        requires
            old(self).wf(),
        ensures
            final(self).wf(),
            final(self).capacity() == old(self).capacity(),
            r is Err <==> (size + DEFAULT_ALIGN - 1 > usize::MAX || old(self).cursor + align_up(
                size as int,
                DEFAULT_ALIGN as int,
            ) > old(self).capacity()),
            match r {
                Ok(offset) => offset == old(self).cursor && final(self).cursor == old(self).cursor
                    + align_up(size as int, DEFAULT_ALIGN as int) && offset + size
                    <= final(self).cursor <= final(self).capacity() && final(self).buf@
                    == old(self).buf@,
                Err(e) => e == crate::errors::DBError::ArenaFull && *final(self) == *old(self),
            },
    {
        self.alloc_layout(size)
    }

    /// Copies `src` into freshly reserved arena bytes and hands back a
    /// slice handle.
    pub fn alloc_slice_copy(&mut self, src: &[u8]) -> (r: Result<
        ArenaSlice,
        crate::errors::DBError,
    >)
        requires
            old(self).wf(),
        ensures
            final(self).wf(),
            final(self).capacity() == old(self).capacity(),
            r is Err <==> (src@.len() + DEFAULT_ALIGN - 1 > usize::MAX || old(self).cursor
                + align_up(src@.len() as int, DEFAULT_ALIGN as int) > old(self).capacity()),
            match r {
                Ok(s) => {
                    &&& s.len == src@.len()
                    &&& s.offset == old(self).cursor
                    &&& final(self).cursor == old(self).cursor + align_up(
                        src@.len() as int,
                        DEFAULT_ALIGN as int,
                    )
                    &&& s.offset + s.len <= final(self).buf@.len()
                    &&& final(self).buf@.subrange(s.offset as int, s.offset + s.len) == src@
                    &&& final(self).buf@.len() == old(self).buf@.len()
                    &&& forall|q: int|
                        0 <= q < old(self).cursor ==> final(self).buf@[q] == old(self).buf@[q]
                },
                Err(e) => e == crate::errors::DBError::ArenaFull && *final(self) == *old(self),
            },
    {
        let offset = match self.alloc_layout(src.len()) {
            Ok(o) => o,
            Err(e) => {
                return Err(e);
            },
        };
        let n = src.len();
        let cap = self.buf.len();
        let mut i: usize = 0;
        let ghost buf0 = self.buf@;
        let ghost cursor0 = self.cursor;
        while i < n
            invariant
                i <= n == src@.len(),
                offset + n <= cap,
                cap == self.buf@.len(),
                self.cursor == cursor0,
                self.cursor <= self.buf@.len(),
                self.buf@.len() == buf0.len(),
                forall|q: int| 0 <= q < i ==> self.buf@[offset + q] == src@[q],
                forall|q: int| 0 <= q < offset ==> self.buf@[q] == buf0[q],
            decreases n - i,
        {
            let b = src[i];
            self.buf.set(offset + i, b);
            i = i + 1;
        }
        proof {
            assert(self.buf@.subrange(offset as int, offset + n as int) =~= src@);
        }
        Ok(ArenaSlice { offset, len: n })
    }

    /// Reads the bytes a slice handle refers to.
    pub fn get(&self, s: ArenaSlice) -> (r: &[u8])
        requires
            s.offset + s.len <= self.buf@.len(),
        ensures
            r@ == self.buf@.subrange(s.offset as int, s.offset + s.len),
    {
        let cap = self.buf.len();
        vstd::slice::slice_subrange(self.buf.as_slice(), s.offset, s.offset + s.len)
    }
}

} // verus!
