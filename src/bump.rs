//! The early-boot allocator: one memory range, bytes handed out upwards from
//! its start and pages downwards from its end.
//!
//! ```text
//! [ bytes-used | avail-area | pages-used ]
//! |            | -->    <-- |            |
//! start       b_pos        p_pos       end
//! ```
//!
//! Bytes are given back in the reverse order of allocation only; pages too.

use vstd::prelude::*;

verus! {

/// The errors of the allocator.
#[derive(PartialEq, Eq, Structural, Clone, Copy, Debug)]
pub enum AllocError {
    InvalidParam,
    MemoryOverlap,
    NoMemory,
    NotAllocated,
}

/// `n` is a power of two.
pub open spec fn is_pow2(n: int) -> bool
    decreases n,
{
    if n <= 0 {
        false
    } else if n == 1 {
        true
    } else {
        n % 2 == 0 && is_pow2(n / 2)
    }
}

/// The least multiple of `a` at or above `x`.
pub open spec fn round_up(x: int, a: int) -> int {
    if x % a == 0 {
        x
    } else {
        x + (a - x % a)
    }
}

/// The greatest multiple of `a` at or below `x`.
pub open spec fn round_down(x: int, a: int) -> int {
    x - x % a
}

/// Whether `n` is a power of two.
pub fn is_power_of_two(n: usize) -> (r: bool)
    ensures
        r == is_pow2(n as int),
{
    let mut m: usize = n;
    while m > 1
        invariant
            m <= n,
            is_pow2(n as int) == is_pow2(m as int),
            m == 0 ==> n == 0,
        decreases m,
    {
        if m % 2 != 0 {
            return false;
        }
        m = m / 2;
    }
    m == 1
}

/// The allocator over `[start, end)`, with pages of `PAGE_SIZE` bytes.
pub struct EarlyAllocator<const PAGE_SIZE: usize> {
    start: usize,
    end: usize,
    b_pos: usize,
    p_pos: usize,
}

impl<const PAGE_SIZE: usize> EarlyAllocator<PAGE_SIZE> {
    pub closed spec fn start_spec(&self) -> int {
        self.start as int
    }

    pub closed spec fn end_spec(&self) -> int {
        self.end as int
    }

    /// The first byte not handed out as bytes.
    pub closed spec fn b_pos_spec(&self) -> int {
        self.b_pos as int
    }

    /// The first byte handed out as pages.
    pub closed spec fn p_pos_spec(&self) -> int {
        self.p_pos as int
    }

    /// The cursors stay in order within the range.
    pub open spec fn wf(&self) -> bool {
        &&& PAGE_SIZE > 0
        &&& self.start_spec() <= self.b_pos_spec() <= self.p_pos_spec() <= self.end_spec()
    }

    /// An allocator over the empty range.
    pub fn new() -> (r: Self)
        requires
            PAGE_SIZE > 0,
        ensures
            r.wf(),
            r.start_spec() == 0 && r.end_spec() == 0 && r.b_pos_spec() == 0 && r.p_pos_spec() == 0,
    {
        EarlyAllocator { start: 0, end: 0, b_pos: 0, p_pos: 0 }
    }

    /// Takes over the `size` bytes from `start` on, all of them free.
    pub fn init(&mut self, start: usize, size: usize)
        requires
            PAGE_SIZE > 0,
            start + size <= usize::MAX,
        ensures
            final(self).wf(),
            final(self).start_spec() == start,
            final(self).end_spec() == start + size,
            final(self).b_pos_spec() == start,
            final(self).p_pos_spec() == start + size,
    {
        self.start = start;
        self.end = start + size;
        self.b_pos = start;
        self.p_pos = start + size;
    }

    /// A second range is never taken.
    pub fn add_memory(&mut self, start: usize, size: usize) -> (r: Result<(), AllocError>)
        ensures
            r == Err::<(), AllocError>(AllocError::NoMemory),
            *final(self) == *old(self),
    {
        Err(AllocError::NoMemory)
    }

    /// Hands out `size` bytes aligned to `align`, just above the bytes
    /// already out, where they fit below the pages.
    pub fn alloc_bytes(&mut self, size: usize, align: usize) -> (r: Result<usize, AllocError>)
        requires
            old(self).wf(),
            is_pow2(align as int),
        ensures
            final(self).wf(),
            ({
                let a = round_up(old(self).b_pos_spec(), align as int);
                if a + size > old(self).p_pos_spec() {
                    r == Err::<usize, AllocError>(AllocError::NoMemory) && *final(self) == *old(self)
                } else {
                    &&& r == Ok::<usize, AllocError>(a as usize)
                    &&& final(self).b_pos_spec() == a + size
                    &&& final(self).p_pos_spec() == old(self).p_pos_spec()
                    &&& final(self).start_spec() == old(self).start_spec()
                    &&& final(self).end_spec() == old(self).end_spec()
                }
            }),
    {
        let rem = self.b_pos % align;
        let pad: usize = if rem == 0 {
            0
        } else {
            align - rem
        };
        if pad > self.p_pos - self.b_pos {
            return Err(AllocError::NoMemory);
        }
        let aligned = self.b_pos + pad;
        if size > self.p_pos - aligned {
            return Err(AllocError::NoMemory);
        }
        self.b_pos = aligned + size;
        Ok(aligned)
    }

    /// Gives back the `size` bytes at `pos`, which must be the last bytes
    /// handed out.
    pub fn dealloc(&mut self, pos: usize, size: usize)
        requires
            old(self).wf(),
            old(self).start_spec() <= pos < old(self).end_spec(),
            pos < old(self).p_pos_spec(),
            pos + size == old(self).b_pos_spec(),
        ensures
            final(self).wf(),
            final(self).b_pos_spec() == pos,
            final(self).p_pos_spec() == old(self).p_pos_spec(),
            final(self).start_spec() == old(self).start_spec(),
            final(self).end_spec() == old(self).end_spec(),
    {
        self.b_pos = pos;
    }

    pub fn used_bytes(&self) -> (r: usize)
        requires
            self.wf(),
        ensures
            r == self.b_pos_spec() - self.start_spec(),
    {
        self.b_pos - self.start
    }

    pub fn available_bytes(&self) -> (r: usize)
        requires
            self.wf(),
        ensures
            r == self.p_pos_spec() - self.b_pos_spec(),
    {
        self.p_pos - self.b_pos
    }

    pub fn total_bytes(&self) -> (r: usize)
        requires
            self.wf(),
        ensures
            r == self.end_spec() - self.start_spec(),
    {
        self.end - self.start
    }

    /// Hands out `num_pages` pages just below the pages already out, the
    /// first of them aligned to `align_pow2`, where they stay above the
    /// bytes. The alignment is a power-of-two number of pages.
    pub fn alloc_pages(&mut self, num_pages: usize, align_pow2: usize) -> (r: Result<
        usize,
        AllocError,
    >)
        requires
            old(self).wf(),
        ensures
            final(self).wf(),
            ({
                let total = num_pages * PAGE_SIZE;
                let s = round_down(old(self).p_pos_spec() - total, align_pow2 as int);
                if align_pow2 % PAGE_SIZE != 0 || !is_pow2((align_pow2 / PAGE_SIZE) as int) {
                    r == Err::<usize, AllocError>(AllocError::InvalidParam) && *final(self)
                        == *old(self)
                } else if total > old(self).p_pos_spec() || s < old(self).b_pos_spec() {
                    r == Err::<usize, AllocError>(AllocError::NoMemory) && *final(self) == *old(self)
                } else {
                    &&& r == Ok::<usize, AllocError>(s as usize)
                    &&& final(self).p_pos_spec() == s
                    &&& final(self).b_pos_spec() == old(self).b_pos_spec()
                    &&& final(self).start_spec() == old(self).start_spec()
                    &&& final(self).end_spec() == old(self).end_spec()
                }
            }),
    {
        if align_pow2 % PAGE_SIZE != 0 {
            return Err(AllocError::InvalidParam);
        }
        let align_pages = align_pow2 / PAGE_SIZE;
        if !is_power_of_two(align_pages) {
            return Err(AllocError::InvalidParam);
        }
        assert(align_pow2 > 0) by (nonlinear_arith)
            requires
                align_pow2 % PAGE_SIZE == 0,
                align_pow2 / PAGE_SIZE > 0,
                PAGE_SIZE > 0,
        ;
        let total = match num_pages.checked_mul(PAGE_SIZE) {
            Some(t) => t,
            None => {
                assert(num_pages * PAGE_SIZE > self.p_pos) by (nonlinear_arith)
                    requires
                        num_pages * PAGE_SIZE > usize::MAX,
                        self.p_pos <= usize::MAX,
                ;
                return Err(AllocError::NoMemory);
            },
        };
        let top = match self.p_pos.checked_sub(total) {
            Some(t) => t,
            None => {
                return Err(AllocError::NoMemory);
            },
        };
        assert(top % align_pow2 <= top) by (nonlinear_arith)
            requires
                align_pow2 > 0,
        ;
        let alloc_start = top - top % align_pow2;
        if alloc_start < self.b_pos {
            return Err(AllocError::NoMemory);
        }
        self.p_pos = alloc_start;
        Ok(alloc_start)
    }

    pub fn available_pages(&self) -> (r: usize)
        requires
            self.wf(),
        ensures
            r == (self.p_pos_spec() - self.b_pos_spec()) / (PAGE_SIZE as int),
    {
        (self.p_pos - self.b_pos) / PAGE_SIZE
    }

    /// Gives back the `num_pages` pages that end at `pos`, which must be
    /// the last pages handed out.
    pub fn dealloc_pages(&mut self, pos: usize, num_pages: usize)
        requires
            old(self).wf(),
            pos == old(self).p_pos_spec() + num_pages * PAGE_SIZE,
            pos <= old(self).end_spec(),
        ensures
            final(self).wf(),
            final(self).p_pos_spec() == pos,
            final(self).b_pos_spec() == old(self).b_pos_spec(),
            final(self).start_spec() == old(self).start_spec(),
            final(self).end_spec() == old(self).end_spec(),
    {
        self.p_pos = pos;
    }

    pub fn used_pages(&self) -> (r: usize)
        requires
            self.wf(),
        ensures
            r == (self.end_spec() - self.p_pos_spec()) / (PAGE_SIZE as int),
    {
        (self.end - self.p_pos) / PAGE_SIZE
    }

    pub fn total_pages(&self) -> (r: usize)
        requires
            self.wf(),
        ensures
            r == (self.end_spec() - self.start_spec()) / (PAGE_SIZE as int),
    {
        (self.end - self.start) / PAGE_SIZE
    }
}

} // verus!
