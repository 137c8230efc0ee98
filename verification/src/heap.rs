//! The heap engine: a first-fit allocator with eager coalescing over one
//! fixed-size contiguous region.
//!
//! The region is described abstractly: the engine records, for every block,
//! its offset into the region, its payload capacity, and whether it is
//! free.  Block spans (header plus payload) tile the region exactly, no
//! two address-adjacent blocks are ever both free, and a running counter
//! holds the sum of all free payloads.  These invariants are captured by
//! [`Allocator::wf`] and proved to hold after every operation.

use vstd::prelude::*;

verus! {

/// Bytes of bookkeeping charged to every block: the space its header
/// occupies in front of the payload.
pub const HEADER_SIZE: usize = 8;

/// One bookkeeping unit of the managed region: a header followed by
/// `size` bytes of payload, the header starting `off` bytes into the
/// region.
#[derive(Clone, Copy)]
pub struct Block {
    /// Offset of the block's header from the start of the region.
    pub off: usize,
    /// Payload capacity in bytes, excluding the header.
    pub size: usize,
    /// Whether the payload is available for allocation.
    pub free: bool,
}

/// Offset just past the block: header plus payload.
pub open spec fn block_end(b: Block) -> int {
    b.off + HEADER_SIZE + b.size
}

/// The blocks cover the region exactly, in address order, with no gaps
/// and no overlaps.
pub open spec fn tiles(s: Seq<Block>, total: int) -> bool {
    &&& s.len() >= 1
    &&& s[0].off == 0
    &&& (forall|i: int|
        #![trigger s[i], s[i + 1]]
        0 <= i < s.len() - 1 ==> s[i + 1].off == block_end(s[i]))
    &&& block_end(s[s.len() - 1]) == total
}

/// Every block has at least one byte of payload.
pub open spec fn sizes_positive(s: Seq<Block>) -> bool {
    forall|i: int| 0 <= i < s.len() ==> (#[trigger] s[i]).size >= 1
}

/// No two address-adjacent blocks are both free.
pub open spec fn no_adjacent_free(s: Seq<Block>) -> bool {
    forall|i: int|
        #![trigger s[i], s[i + 1]]
        0 <= i < s.len() - 1 ==> !(s[i].free && s[i + 1].free)
}

/// What a block adds to the total of free payload bytes.
pub open spec fn free_contrib(b: Block) -> int {
    if b.free {
        b.size as int
    } else {
        0
    }
}

/// What a block adds to the total of allocated payload bytes.
pub open spec fn used_contrib(b: Block) -> int {
    if b.free {
        0
    } else {
        b.size as int
    }
}

/// Sum of all free blocks' payload capacities.
pub open spec fn free_sum(s: Seq<Block>) -> int
    decreases s.len(),
{
    if s.len() == 0 {
        0
    } else {
        free_sum(s.drop_last()) + free_contrib(s.last())
    }
}

/// Sum of all allocated blocks' payload capacities.
pub open spec fn used_sum(s: Seq<Block>) -> int
    decreases s.len(),
{
    if s.len() == 0 {
        0
    } else {
        used_sum(s.drop_last()) + used_contrib(s.last())
    }
}

/// Whether `n` is a power of two.
pub open spec fn is_pow2(n: int) -> bool
    decreases n,
{
    if n <= 0 {
        false
    } else if n == 1 {
        true
    } else {
        n % 2 == 0 && is_pow2(n / 2)
    }
}

/// The smallest gap of at least one byte that, inserted between a fresh
/// header and the block header at `off`, lands the fresh payload on an
/// `align` boundary.
pub open spec fn front_gap(base: int, off: int, align: int) -> int {
    let x = base + off + 2 * HEADER_SIZE;
    if (x + 1) % align == 0 {
        1
    } else {
        1 + (align - (x + 1) % align)
    }
}

/// Bytes at the front of the block at `off` lost to alignment: none when
/// the payload is already on an `align` boundary, otherwise a leading
/// free fragment plus a fresh header.
pub open spec fn align_pad(base: int, off: int, align: int) -> int {
    if (base + off + HEADER_SIZE) % align == 0 {
        0
    } else {
        HEADER_SIZE + front_gap(base, off, align)
    }
}

/// Whether a block of payload capacity `bsize` at `off` has room for
/// `req` bytes at alignment `align`, padding included.
pub open spec fn room(base: int, off: int, bsize: int, req: int, align: int) -> bool {
    bsize >= align_pad(base, off, align) + req
}

/// Whether the free block `b` can host an allocation of `req` bytes at
/// alignment `align`.
pub open spec fn fits(base: int, b: Block, req: int, align: int) -> bool {
    b.free && room(base, b.off as int, b.size as int, req, align)
}

/// Whether some allocated block of payload capacity `size` starts at
/// offset `off`.
pub open spec fn has_live(s: Seq<Block>, off: int, size: int) -> bool {
    exists|i: int|
        0 <= i < s.len() && !(#[trigger] s[i]).free && s[i].off == off && s[i].size == size
}

/// The bytes that freeing the block at index `i` gives back: its
/// payload plus one absorbed header per free address-adjacent neighbor.
pub open spec fn freed_amount(s: Seq<Block>, i: int) -> int {
    s[i].size + (if i > 0 && s[i - 1].free {
        HEADER_SIZE as int
    } else {
        0
    }) + (if i + 1 < s.len() && s[i + 1].free {
        HEADER_SIZE as int
    } else {
        0
    })
}

/// The heap engine over one managed region.
///
/// `base` is the absolute address of the region's first byte and `size`
/// its total length; pointers handed out by [`Allocator::allocate`] are
/// absolute addresses inside `[base, base + size)`.
pub struct Allocator {
    /// Absolute address of the managed region's first byte.
    pub base: usize,
    /// Total length of the managed region in bytes.
    pub size: usize,
    /// The region's blocks, in address order.
    pub blocks: Vec<Block>,
    /// Running total of free payload bytes.
    pub free_bytes: usize,
}

impl Allocator {
    /// The engine's invariant: blocks tile the region, every payload is
    /// non-empty, no two adjacent blocks are both free, and the counter
    /// matches the free blocks' payloads.  The bound on `base + size`
    /// leaves headroom for the engine's own address arithmetic.
    pub open spec fn wf(self) -> bool {
        &&& HEADER_SIZE < self.size
        &&& self.base + self.size + 2 * HEADER_SIZE <= usize::MAX
        &&& tiles(self.blocks@, self.size as int)
        &&& sizes_positive(self.blocks@)
        &&& no_adjacent_free(self.blocks@)
        &&& self.free_bytes == free_sum(self.blocks@)
    }

    /// Sum of free payload bytes, as the specification-level view of
    /// what [`Allocator::get_free_size`] returns.
    pub open spec fn free_size_spec(self) -> int {
        free_sum(self.blocks@)
    }

    /// Whether some free block can host `req` bytes at alignment `align`.
    pub open spec fn can_fit(self, req: int, align: int) -> bool {
        exists|i: int|
            0 <= i < self.blocks@.len() && fits(
                self.base as int,
                #[trigger] self.blocks@[i],
                req,
                align,
            )
    }

    /// Whether `ptr` is the payload start of a live allocation: a value
    /// handed out by `allocate` and not yet given back to `free`.
    pub open spec fn live_ptr(self, ptr: int) -> bool {
        exists|i: int|
            0 <= i < self.blocks@.len() && !(#[trigger] self.blocks@[i]).free && self.base
                + self.blocks@[i].off + HEADER_SIZE == ptr
    }

    /// Sets up the engine over a virgin region: one free block spanning
    /// the whole region minus its own header.
    ///
    /// The caller must invoke this exactly once, before any allocation,
    /// over a region it owns exclusively.
    pub fn init(base: usize, size: usize) -> (h: Allocator)
        requires
            HEADER_SIZE < size,
            base + size + 2 * HEADER_SIZE <= usize::MAX,
        ensures
            h.wf(),
            h.base == base,
            h.size == size,
            h.blocks@.len() == 1,
            h.blocks@[0].free,
            h.free_size_spec() == size - HEADER_SIZE,
    {
        let mut blocks: Vec<Block> = Vec::new();
        blocks.push(Block { off: 0, size: size - HEADER_SIZE, free: true });
        let h = Allocator { base, size, blocks, free_bytes: size - HEADER_SIZE };
        proof {
            assert(h.blocks@.drop_last() =~= Seq::<Block>::empty());
            assert(free_sum(Seq::<Block>::empty()) == 0);
            assert(free_sum(h.blocks@) == size - HEADER_SIZE);
        }
        h
    }

    /// Measures the free block at `off` against a request: `Some(pad)`
    /// when `req` bytes at alignment `align` fit into a block of payload
    /// capacity `bsize` after losing `pad` bytes to alignment.
    fn fit_pad(base: usize, off: usize, bsize: usize, req: usize, align: usize) -> (r: Option<
        usize,
    >)
        requires
            align >= 1,
            base + off + 2 * HEADER_SIZE + 1 <= usize::MAX,
        ensures
            r is Some <==> room(base as int, off as int, bsize as int, req as int, align as int),
            r matches Some(pad) ==> pad == align_pad(base as int, off as int, align as int),
    {
        let p0: usize = base + off + HEADER_SIZE;
        let rem: usize = p0 % align;
        if rem == 0 {
            if req <= bsize {
                Some(0)
            } else {
                None
            }
        } else {
            let x: usize = p0 + HEADER_SIZE;
            let rem2: usize = (x + 1) % align;
            let f: usize = if rem2 == 0 {
                1
            } else {
                1 + (align - rem2)
            };
            if bsize >= req && bsize - req >= f && (bsize - req) - f >= HEADER_SIZE {
                Some(HEADER_SIZE + f)
            } else {
                None
            }
        }
    }

    /// First-fit search: the lowest-addressed free block with room for
    /// the request, together with its alignment loss.
    fn find_fit(&self, req: usize, align: usize) -> (r: Option<(usize, usize)>)
        requires
            self.wf(),
            align >= 1,
        ensures
            r matches Some(kp) ==> {
                &&& kp.0 < self.blocks@.len()
                &&& fits(self.base as int, self.blocks@[kp.0 as int], req as int, align as int)
                &&& kp.1 == align_pad(
                    self.base as int,
                    self.blocks@[kp.0 as int].off as int,
                    align as int,
                )
                &&& forall|m: int|
                    0 <= m < kp.0 ==> !fits(
                        self.base as int,
                        #[trigger] self.blocks@[m],
                        req as int,
                        align as int,
                    )
            },
            r is None ==> forall|m: int|
                0 <= m < self.blocks@.len() ==> !fits(
                    self.base as int,
                    #[trigger] self.blocks@[m],
                    req as int,
                    align as int,
                ),
    {
        let mut k: usize = 0;
        while k < self.blocks.len()
            invariant
                self.wf(),
                align >= 1,
                k <= self.blocks@.len(),
                forall|m: int|
                    0 <= m < k ==> !fits(
                        self.base as int,
                        #[trigger] self.blocks@[m],
                        req as int,
                        align as int,
                    ),
            decreases self.blocks@.len() - k,
        {
            let b = self.blocks[k];
            if b.free {
                proof {
                    lemma_end_in_region(self.blocks@, self.size as int, k as int);
                }
                match Self::fit_pad(self.base, b.off, b.size, req, align) {
                    Some(pad) => {
                        return Some((k, pad));
                    },
                    None => {},
                }
            }
            k = k + 1;
        }
        None
    }

    /// Serves an allocation request of `size` bytes at alignment `align`.
    ///
    /// Policy: a `size` of zero and an `align` that is not a power of two
    /// are rejected; the search is first-fit in address order; when the
    /// found block leaves room for another block (header plus at least
    /// one payload byte) behind the allocation it is split, otherwise the
    /// whole block is consumed.  On success the returned pointer is a
    /// multiple of `align`, valid for `size` bytes inside the region and
    /// disjoint from every other live allocation; on failure the engine
    /// is left exactly as it was.  Success is owed precisely when some
    /// free block has room for the request, padding included.
    #[verifier::rlimit(100)]
    pub fn allocate(&mut self, size: usize, align: usize) -> (r: Option<usize>)
        requires
            old(self).wf(),
        ensures
            final(self).wf(),
            final(self).base == old(self).base,
            final(self).size == old(self).size,
            r is Some <==> (size > 0 && is_pow2(align as int) && old(self).can_fit(
                size as int,
                align as int,
            )),
            r is None ==> *final(self) == *old(self),
            r matches Some(p) ==> (exists|k: int|
                {
                    &&& 0 <= k < old(self).blocks@.len()
                    &&& fits(
                        old(self).base as int,
                        #[trigger] old(self).blocks@[k],
                        size as int,
                        align as int,
                    )
                    &&& forall|m: int|
                        0 <= m < k ==> !fits(
                            old(self).base as int,
                            #[trigger] old(self).blocks@[m],
                            size as int,
                            align as int,
                        )
                    &&& p == old(self).base + old(self).blocks@[k].off + align_pad(
                        old(self).base as int,
                        old(self).blocks@[k].off as int,
                        align as int,
                    ) + HEADER_SIZE
                }),
            r matches Some(p) ==> {
                &&& p as int % align as int == 0
                &&& old(self).base + HEADER_SIZE <= p
                &&& p + size <= old(self).base + old(self).size
                &&& final(self).live_ptr(p as int)
                &&& final(self).free_size_spec() + size <= old(self).free_size_spec()
                &&& forall|o: int, sz: int|
                    has_live(old(self).blocks@, o, sz) ==> has_live(final(self).blocks@, o, sz)
                &&& forall|o: int, sz: int|
                    has_live(final(self).blocks@, o, sz) ==> has_live(old(self).blocks@, o, sz)
                        || old(self).base + o + HEADER_SIZE == p
            },
    {
        if size == 0 {
            return None;
        }
        if !check_pow2(align) {
            return None;
        }
        match self.find_fit(size, align) {
            None => {
                None
            },
            Some((k, pad)) => {
                proof {
                    lemma_pad_aligns(
                        self.base as int,
                        self.blocks@[k as int].off as int,
                        align as int,
                    );
                }
                let p = self.carve(k, pad, size);
                Some(p)
            },
        }
    }

    /// Carves an allocation of `req` bytes out of the free block at
    /// index `k`, losing the first `pad` bytes of the block to
    /// alignment.  A positive loss becomes a leading free fragment
    /// behind a fresh header; a remainder large enough for another block
    /// (header plus at least one payload byte) is split off as a new
    /// free block, otherwise the whole remainder is consumed.
    #[verifier::rlimit(100)]
    #[verifier::spinoff_prover]
    fn carve(&mut self, k: usize, pad: usize, req: usize) -> (p: usize)
        requires
            old(self).wf(),
            k < old(self).blocks@.len(),
            old(self).blocks@[k as int].free,
            req >= 1,
            pad == 0 || pad > HEADER_SIZE,
            old(self).blocks@[k as int].size >= pad + req,
        ensures
            final(self).wf(),
            final(self).base == old(self).base,
            final(self).size == old(self).size,
            p == old(self).base + old(self).blocks@[k as int].off + pad + HEADER_SIZE,
            old(self).base + HEADER_SIZE <= p,
            p + req <= old(self).base + old(self).size,
            final(self).live_ptr(p as int),
            final(self).free_size_spec() + req <= old(self).free_size_spec(),
            forall|o: int, sz: int|
                has_live(old(self).blocks@, o, sz) ==> has_live(final(self).blocks@, o, sz),
            forall|o: int, sz: int|
                has_live(final(self).blocks@, o, sz) ==> has_live(old(self).blocks@, o, sz) || old(
                    self,
                ).base + o + HEADER_SIZE == p,
    {
        let ghost s0 = self.blocks@;
        let b = self.blocks[k];
        proof {
            lemma_end_in_region(s0, self.size as int, k as int);
            lemma_free_block_le(s0, k as int);
            lemma_conservation_seq(s0, self.size as int);
            lemma_used_sum_nonneg(s0);
            assert(s0.len() * HEADER_SIZE <= self.size);
        }
        let off2: usize = b.off + pad;
        let avail: usize = b.size - pad;
        let front: Option<Block> = if pad > 0 {
            Some(Block { off: b.off, size: pad - HEADER_SIZE, free: true })
        } else {
            None
        };
        let allocb: Block;
        let tail: Option<Block>;
        if avail - req > HEADER_SIZE {
            allocb = Block { off: off2, size: req, free: false };
            tail = Some(
                Block {
                    off: off2 + HEADER_SIZE + req,
                    size: (avail - req) - HEADER_SIZE,
                    free: true,
                },
            );
        } else {
            allocb = Block { off: off2, size: avail, free: false };
            tail = None;
        }
        let grew: usize = (match front {
            Some(f) => f.size,
            None => 0,
        }) + (match tail {
            Some(t) => t.size,
            None => 0,
        });
        self.splice(k, front, allocb, tail);
        let p: usize = self.base + off2 + HEADER_SIZE;
        proof {
            lemma_opt_mid_shape(b, pad as int, req as int, front, allocb, tail);
            let mid = opt_mid(front, allocb, tail);
            let ai: int = if front is Some {
                1
            } else {
                0
            };
            lemma_replace_alloc(s0, self.size as int, k as int, req as int, mid, ai);
            assert(self.blocks@[k + ai] == allocb);
            assert(!self.blocks@[k + ai].free && self.base + self.blocks@[k + ai].off + HEADER_SIZE
                == p);
            assert(grew == opt_grew(front, tail));
            assert(block_end(allocb) <= self.size as int);
        }
        self.free_bytes = self.free_bytes - b.size + grew;
        proof {
            let ai: int = if front is Some {
                1
            } else {
                0
            };
            assert(!self.blocks@[k + ai].free && self.base + self.blocks@[k + ai].off + HEADER_SIZE
                == p);
            assert(self.live_ptr(p as int));
        }
        p
    }

    /// Replaces the block at index `k` by a fresh allocation block,
    /// optionally preceded by a leading fragment and followed by a split
    /// remainder.
    fn splice(&mut self, k: usize, front: Option<Block>, allocb: Block, tail: Option<Block>)
        requires
            k < old(self).blocks@.len(),
            old(self).blocks@.len() + 2 <= usize::MAX,
        ensures
            final(self).blocks@ == replace_range(
                old(self).blocks@,
                k as int,
                k as int,
                opt_mid(front, allocb, tail),
            ),
            final(self).base == old(self).base,
            final(self).size == old(self).size,
            final(self).free_bytes == old(self).free_bytes,
    {
        self.blocks[k] = allocb;
        let mut ia: usize = k;
        if let Some(f) = front {
            self.blocks.insert(k, f);
            ia = k + 1;
        }
        if let Some(t) = tail {
            self.blocks.insert(ia + 1, t);
        }
        proof {
            assert(self.blocks@ =~= replace_range(
                old(self).blocks@,
                k as int,
                k as int,
                opt_mid(front, allocb, tail),
            ));
        }
    }

    /// Gives an allocation back to the engine.
    ///
    /// `ptr` must be a pointer previously returned by `allocate` and not
    /// freed since; any other value violates the engine's contract with
    /// its caller ([`Allocator::is_live`] tests the condition).  The
    /// block becomes free and is merged with its address-adjacent
    /// neighbors on both sides, so no two adjacent free blocks remain;
    /// the free total grows by the block's payload plus one header per
    /// absorbed neighbor; every other live allocation survives
    /// unchanged.
    #[verifier::rlimit(100)]
    #[verifier::spinoff_prover]
    pub fn free(&mut self, ptr: usize)
        requires
            old(self).wf(),
            old(self).live_ptr(ptr as int),
        ensures
            final(self).wf(),
            final(self).base == old(self).base,
            final(self).size == old(self).size,
            forall|o: int, sz: int|
                has_live(final(self).blocks@, o, sz) <==> (has_live(old(self).blocks@, o, sz)
                    && old(self).base + o + HEADER_SIZE != ptr),
            forall|i: int|
                (0 <= i < old(self).blocks@.len() && !(#[trigger] old(self).blocks@[i]).free
                    && old(self).base + old(self).blocks@[i].off + HEADER_SIZE == ptr)
                    ==> final(self).free_size_spec() == old(self).free_size_spec() + freed_amount(
                    old(self).blocks@,
                    i,
                ),
    {
        let k = self.find_live(ptr);
        let ghost s0 = self.blocks@;
        let b = self.blocks[k];
        proof {
            lemma_end_in_region(s0, self.size as int, k as int);
            lemma_conservation_seq(s0, self.size as int);
            lemma_used_sum_nonneg(s0);
            assert(s0.len() * HEADER_SIZE <= self.size);
        }
        let mut lo: usize = k;
        let mut hi: usize = k;
        let mut newb = Block { off: b.off, size: b.size, free: true };
        let mut delta: usize = b.size;
        if k + 1 < self.blocks.len() {
            let succ = self.blocks[k + 1];
            if succ.free {
                proof {
                    lemma_end_in_region(s0, self.size as int, k as int + 1);
                    lemma_tiles_step(s0, self.size as int, k as int);
                }
                newb.size = newb.size + HEADER_SIZE + succ.size;
                hi = k + 1;
                delta = delta + HEADER_SIZE;
            }
        }
        if k > 0 {
            let pred = self.blocks[k - 1];
            if pred.free {
                proof {
                    lemma_end_in_region(s0, self.size as int, hi as int);
                    lemma_tiles_step(s0, self.size as int, k as int - 1);
                    assert(s0[(k - 1) + 1] == s0[k as int]);
                }
                newb.off = pred.off;
                newb.size = newb.size + HEADER_SIZE + pred.size;
                lo = k - 1;
                delta = delta + HEADER_SIZE;
            }
        }
        self.merge_splice(lo, hi, newb);
        proof {
            lemma_merge_props(s0, self.size as int, k as int, lo as int, hi as int, newb);
        }
        self.free_bytes = self.free_bytes + delta;
    }

    /// Tells whether `ptr` is the payload start of a live allocation:
    /// exactly the pointers that [`Allocator::free`] accepts.
    #[verifier::rlimit(100)]
    #[verifier::spinoff_prover]
    pub fn is_live(&self, ptr: usize) -> (r: bool)
        requires
            self.wf(),
        ensures
            r == self.live_ptr(ptr as int),
    {
        let n = self.blocks.len();
        let mut k: usize = 0;
        while k < n
            invariant
                self.wf(),
                n == self.blocks@.len(),
                k <= n,
                forall|m: int|
                    0 <= m < k ==> ((#[trigger] self.blocks@[m]).free || self.base
                        + self.blocks@[m].off + HEADER_SIZE != ptr),
            decreases n - k,
        {
            let b = self.blocks[k];
            proof {
                lemma_end_in_region(self.blocks@, self.size as int, k as int);
            }
            if !b.free && self.base + b.off + HEADER_SIZE == ptr {
                return true;
            }
            k = k + 1;
        }
        false
    }

    /// Finds the live block whose payload starts at `ptr`.
    #[verifier::rlimit(100)]
    #[verifier::spinoff_prover]
    fn find_live(&self, ptr: usize) -> (k: usize)
        requires
            self.wf(),
            self.live_ptr(ptr as int),
        ensures
            k < self.blocks@.len(),
            !self.blocks@[k as int].free,
            self.base + self.blocks@[k as int].off + HEADER_SIZE == ptr,
    {
        let n = self.blocks.len();
        let mut k: usize = 0;
        while k < n
            invariant
                self.wf(),
                self.live_ptr(ptr as int),
                n == self.blocks@.len(),
                k <= n,
                forall|m: int|
                    0 <= m < k ==> ((#[trigger] self.blocks@[m]).free || self.base
                        + self.blocks@[m].off + HEADER_SIZE != ptr),
            decreases n - k,
        {
            let b = self.blocks[k];
            proof {
                lemma_end_in_region(self.blocks@, self.size as int, k as int);
            }
            if !b.free && self.base + b.off + HEADER_SIZE == ptr {
                return k;
            }
            k = k + 1;
        }
        proof {
            let i = choose|i: int|
                0 <= i < self.blocks@.len() && !(#[trigger] self.blocks@[i]).free && self.base
                    + self.blocks@[i].off + HEADER_SIZE == ptr;
            assert(false);
        }
        0
    }

    /// Replaces the blocks from index `lo` through `hi` by the single
    /// merged block `newb`.
    fn merge_splice(&mut self, lo: usize, hi: usize, newb: Block)
        requires
            lo <= hi < old(self).blocks@.len(),
            hi - lo <= 2,
        ensures
            final(self).blocks@ == replace_range(
                old(self).blocks@,
                lo as int,
                hi as int,
                seq![newb],
            ),
            final(self).base == old(self).base,
            final(self).size == old(self).size,
            final(self).free_bytes == old(self).free_bytes,
    {
        self.blocks[lo] = newb;
        if hi - lo >= 1 {
            self.blocks.remove(lo + 1);
        }
        if hi - lo == 2 {
            self.blocks.remove(lo + 1);
        }
        proof {
            assert(self.blocks@ =~= replace_range(
                old(self).blocks@,
                lo as int,
                hi as int,
                seq![newb],
            ));
        }
    }

    /// Returns the current total of free payload bytes.
    ///
    /// No side effects: the result is a function of the unchanged state,
    /// so repeated calls return the same value.
    pub fn get_free_size(&self) -> (r: usize)
        requires
            self.wf(),
        ensures
            r == self.free_size_spec(),
    {
        self.free_bytes
    }
}

/// Conservation: in every reachable state, the free bytes, the live
/// allocations' payload bytes and one header per existing block add up
/// to the region's total size, exactly.
pub proof fn lemma_conservation(h: Allocator)
    requires
        h.wf(),
    ensures
        h.free_size_spec() + used_sum(h.blocks@) + h.blocks@.len() * HEADER_SIZE == h.size,
{
    lemma_conservation_seq(h.blocks@, h.size as int);
}

/// No adjacent free blocks: in every reachable state, scanning the
/// region in address order never finds two consecutive free blocks.
pub proof fn lemma_never_adjacent_free(h: Allocator, i: int)
    requires
        h.wf(),
        0 <= i < h.blocks@.len() - 1,
    ensures
        !(h.blocks@[i].free && h.blocks@[i + 1].free),
{
    lemma_noadj_step(h.blocks@, i);
}

/// Disjointness: two distinct blocks' payload spans never overlap; in
/// particular the spans of any two live allocations are disjoint.
pub proof fn lemma_payloads_disjoint(h: Allocator, i: int, j: int)
    requires
        h.wf(),
        0 <= i < h.blocks@.len(),
        0 <= j < h.blocks@.len(),
        i != j,
    ensures
        i < j ==> h.blocks@[i].off + HEADER_SIZE + h.blocks@[i].size <= h.blocks@[j].off,
        j < i ==> h.blocks@[j].off + HEADER_SIZE + h.blocks@[j].size <= h.blocks@[i].off,
{
    if i < j {
        lemma_order(h.blocks@, h.size as int, i, j);
    } else {
        lemma_order(h.blocks@, h.size as int, j, i);
    }
}

/// Full coalescing: once every block is free again, the region holds a
/// single block and the free total equals its value right after `init`.
pub proof fn lemma_all_free_single_block(h: Allocator)
    requires
        h.wf(),
        forall|i: int| 0 <= i < h.blocks@.len() ==> (#[trigger] h.blocks@[i]).free,
    ensures
        h.blocks@.len() == 1,
        h.free_size_spec() == h.size - HEADER_SIZE,
{
    let s = h.blocks@;
    if s.len() >= 2 {
        lemma_noadj_step(s, 0);
        assert(s[0int].free && s[0int + 1].free);
        assert(false);
    }
    assert(s.drop_last() =~= Seq::<Block>::empty());
    assert(free_sum(Seq::<Block>::empty()) == 0);
    assert(s.last() == s[0]);
    assert(free_sum(s) == s[0].size);
    assert(block_end(s[s.len() - 1]) == h.size);
}

/// Tests whether `n` is a power of two, by repeated halving.
fn check_pow2(n: usize) -> (r: bool)
    ensures
        r == is_pow2(n as int),
{
    if n == 0 {
        return false;
    }
    let mut m: usize = n;
    while m % 2 == 0
        invariant
            m >= 1,
            is_pow2(n as int) == is_pow2(m as int),
        decreases m,
    {
        m = m / 2;
    }
    m == 1
}

/// The free-byte total is never negative.
proof fn lemma_free_sum_nonneg(s: Seq<Block>)
    ensures
        free_sum(s) >= 0,
    decreases s.len(),
{
    if s.len() > 0 {
        lemma_free_sum_nonneg(s.drop_last());
    }
}

/// The live-byte total is never negative.
proof fn lemma_used_sum_nonneg(s: Seq<Block>)
    ensures
        used_sum(s) >= 0,
    decreases s.len(),
{
    if s.len() > 0 {
        lemma_used_sum_nonneg(s.drop_last());
    }
}

/// A free block's payload never exceeds the free-byte total.
proof fn lemma_free_block_le(s: Seq<Block>, i: int)
    requires
        0 <= i < s.len(),
        s[i].free,
    ensures
        s[i].size <= free_sum(s),
    decreases s.len(),
{
    lemma_free_sum_nonneg(s.drop_last());
    if i < s.len() - 1 {
        lemma_free_block_le(s.drop_last(), i);
    }
}

/// One step of the tiling: each block starts where its predecessor ends.
proof fn lemma_tiles_step(s: Seq<Block>, total: int, i: int)
    requires
        tiles(s, total),
        0 <= i < s.len() - 1,
    ensures
        s[i + 1].off == block_end(s[i]),
{
}

/// One step of the free-adjacency invariant: a block and its successor
/// are never both free.
proof fn lemma_noadj_step(s: Seq<Block>, i: int)
    requires
        no_adjacent_free(s),
        0 <= i < s.len() - 1,
    ensures
        !(s[i].free && s[i + 1].free),
{
}

/// In a tiled region, an earlier block ends no later than a later block
/// begins.
proof fn lemma_order(s: Seq<Block>, total: int, i: int, j: int)
    requires
        tiles(s, total),
        sizes_positive(s),
        0 <= i < j < s.len(),
    ensures
        block_end(s[i]) <= s[j].off,
    decreases j - i,
{
    if j == i + 1 {
        lemma_tiles_step(s, total, i);
        assert(s[i + 1] == s[j]);
    } else {
        lemma_order(s, total, i, j - 1);
        lemma_tiles_step(s, total, j - 1);
        assert(s[(j - 1) + 1] == s[j]);
    }
}

/// In a tiled region, every block lies inside the region.
proof fn lemma_end_in_region(s: Seq<Block>, total: int, i: int)
    requires
        tiles(s, total),
        sizes_positive(s),
        0 <= i < s.len(),
    ensures
        block_end(s[i]) <= total,
    decreases s.len() - i,
{
    if i < s.len() - 1 {
        lemma_order(s, total, i, s.len() - 1);
    }
}

/// Because block spans tile the region, free bytes, live bytes and one
/// header per block add up to the region's total size, exactly.
proof fn lemma_conservation_seq(s: Seq<Block>, total: int)
    requires
        tiles(s, total),
    ensures
        free_sum(s) + used_sum(s) + s.len() * HEADER_SIZE == total,
    decreases s.len(),
{
    if s.len() == 1 {
        assert(s.drop_last() =~= Seq::<Block>::empty());
        assert(free_sum(Seq::<Block>::empty()) == 0);
        assert(used_sum(Seq::<Block>::empty()) == 0);
        assert(s.last() == s[0]);
        assert(free_sum(s) == free_contrib(s[0]));
        assert(used_sum(s) == used_contrib(s[0]));
    } else {
        let t = s.drop_last();
        assert forall|i: int|
            #![trigger t[i], t[i + 1]]
            0 <= i < t.len() - 1 implies t[i + 1].off == block_end(t[i]) by {
            assert(t[i] == s[i]);
            assert(t[i + 1] == s[i + 1]);
        }
        assert(t[0] == s[0]);
        assert(t[t.len() - 1] == s[s.len() - 2]);
        lemma_tiles_step(s, total, s.len() - 2);
        assert(s[(s.len() - 2) + 1] == s[s.len() - 1]);
        assert(block_end(t[t.len() - 1]) == s[s.len() - 1].off);
        assert(tiles(t, s[s.len() - 1].off as int));
        lemma_conservation_seq(t, s[s.len() - 1].off as int);
        assert(free_sum(s) == free_sum(t) + free_contrib(s[s.len() - 1]));
        assert(used_sum(s) == used_sum(t) + used_contrib(s[s.len() - 1]));
        assert(block_end(s[s.len() - 1]) == total);
        assert(s.len() * HEADER_SIZE == t.len() * HEADER_SIZE + HEADER_SIZE) by (nonlinear_arith)
            requires s.len() == t.len() + 1;
    }
}

/// Concatenation splits the free-byte total.
proof fn lemma_free_sum_concat(a: Seq<Block>, b: Seq<Block>)
    ensures
        free_sum(a + b) == free_sum(a) + free_sum(b),
    decreases b.len(),
{
    if b.len() == 0 {
        assert(a + b =~= a);
    } else {
        assert((a + b).drop_last() =~= a + b.drop_last());
        assert((a + b).last() == b.last());
        lemma_free_sum_concat(a, b.drop_last());
    }
}

/// The new blocks that take a carved block's place, in address order.
pub open spec fn opt_mid(front: Option<Block>, allocb: Block, tail: Option<Block>) -> Seq<Block> {
    match (front, tail) {
        (Some(f), Some(t)) => seq![f, allocb, t],
        (Some(f), None) => seq![f, allocb],
        (None, Some(t)) => seq![allocb, t],
        (None, None) => seq![allocb],
    }
}

/// Free-byte totals of one-, two- and three-block sequences.
proof fn lemma_free_sum3(x: Block, y: Block, z: Block)
    ensures
        free_sum(seq![x]) == free_contrib(x),
        free_sum(seq![x, y]) == free_contrib(x) + free_contrib(y),
        free_sum(seq![x, y, z]) == free_contrib(x) + free_contrib(y) + free_contrib(z),
{
    assert(free_sum(Seq::<Block>::empty()) == 0);
    assert(seq![x].drop_last() =~= Seq::<Block>::empty());
    assert(seq![x].last() == x);
    assert(free_sum(seq![x]) == free_contrib(x));
    assert(seq![x, y].drop_last() =~= seq![x]);
    assert(seq![x, y].last() == y);
    assert(free_sum(seq![x, y]) == free_sum(seq![x]) + free_contrib(y));
    assert(seq![x, y, z].drop_last() =~= seq![x, y]);
    assert(seq![x, y, z].last() == z);
    assert(free_sum(seq![x, y, z]) == free_sum(seq![x, y]) + free_contrib(z));
}

/// The block sequence with blocks `k..=hi` replaced by `mid`.
pub open spec fn replace_range(s: Seq<Block>, k: int, hi: int, mid: Seq<Block>) -> Seq<Block> {
    s.take(k) + mid + s.skip(hi + 1)
}

/// Where each element of a replaced sequence comes from.
proof fn lemma_replace_elems(s: Seq<Block>, k: int, hi: int, mid: Seq<Block>)
    requires
        0 <= k <= hi < s.len(),
    ensures
        replace_range(s, k, hi, mid).len() == s.len() - (hi - k) - 1 + mid.len(),
        forall|i: int| 0 <= i < k ==> #[trigger] replace_range(s, k, hi, mid)[i] == s[i],
        forall|i: int|
            k <= i < k + mid.len() ==> #[trigger] replace_range(s, k, hi, mid)[i] == mid[i - k],
        forall|i: int|
            k + mid.len() <= i < replace_range(s, k, hi, mid).len()
                ==> #[trigger] replace_range(s, k, hi, mid)[i] == s[i + hi + 1 - k - mid.len()],
{
}

/// Replacement preserves the exact tiling of the region when the new
/// blocks cover exactly the replaced span.
proof fn lemma_replace_tiles(s: Seq<Block>, total: int, k: int, hi: int, mid: Seq<Block>)
    requires
        tiles(s, total),
        0 <= k <= hi < s.len(),
        mid.len() >= 1,
        mid[0].off == s[k].off,
        forall|i: int|
            #![trigger mid[i], mid[i + 1]]
            0 <= i < mid.len() - 1 ==> mid[i + 1].off == block_end(mid[i]),
        block_end(mid[mid.len() - 1]) == block_end(s[hi]),
    ensures
        tiles(replace_range(s, k, hi, mid), total),
{
    lemma_replace_elems(s, k, hi, mid);
    let t = replace_range(s, k, hi, mid);
    let m = mid.len();
    let shift = hi + 1 - k - m;
    assert(t[0].off == 0);
    assert forall|i: int|
        #![trigger t[i], t[i + 1]]
        0 <= i < t.len() - 1 implies t[i + 1].off == block_end(t[i]) by {
        let j = i + 1;
        if j < k {
            assert(t[i] == s[i]);
            assert(t[j] == s[j]);
            lemma_tiles_step(s, total, i);
            assert(s[i + 1] == s[j]);
        } else if j == k {
            assert(t[j] == mid[0]);
            assert(t[i] == s[i]);
            lemma_tiles_step(s, total, k - 1);
            assert(s[(k - 1) + 1] == s[k]);
        } else if j < k + m {
            assert(t[j] == mid[j - k]);
            assert(t[i] == mid[i - k]);
            assert(mid[(i - k) + 1] == mid[j - k]);
        } else if j == k + m {
            assert(t[j] == s[hi + 1]);
            assert(t[i] == mid[m - 1]);
            lemma_tiles_step(s, total, hi);
            assert(s[hi + 1].off == block_end(s[hi]));
        } else {
            assert(t[j] == s[j + shift]);
            assert(t[i] == s[i + shift]);
            assert(j + shift > hi + 1);
            lemma_tiles_step(s, total, i + shift);
            assert(s[(i + shift) + 1] == s[j + shift]);
        }
    }
    assert(block_end(t[t.len() - 1]) == total);
}

/// Replacement preserves positive payloads and the absence of adjacent
/// free blocks when the new blocks are sound at the two seams.
proof fn lemma_replace_sound(s: Seq<Block>, k: int, hi: int, mid: Seq<Block>)
    requires
        sizes_positive(s),
        no_adjacent_free(s),
        0 <= k <= hi < s.len(),
        mid.len() >= 1,
        sizes_positive(mid),
        no_adjacent_free(mid),
        k > 0 ==> !(mid[0].free && s[k - 1].free),
        hi < s.len() - 1 ==> !(mid[mid.len() - 1].free && s[hi + 1].free),
    ensures
        sizes_positive(replace_range(s, k, hi, mid)),
        no_adjacent_free(replace_range(s, k, hi, mid)),
{
    lemma_replace_elems(s, k, hi, mid);
    let t = replace_range(s, k, hi, mid);
    let m = mid.len();
    let shift = hi + 1 - k - m;
    assert forall|i: int| 0 <= i < t.len() implies (#[trigger] t[i]).size >= 1 by {
        if i < k {
        } else if i < k + m {
            assert(t[i] == mid[i - k]);
        } else {
            assert(t[i] == s[i + shift]);
        }
    }
    assert forall|i: int|
        #![trigger t[i], t[i + 1]]
        0 <= i < t.len() - 1 implies !(t[i].free && t[i + 1].free) by {
        let j = i + 1;
        if j < k {
            assert(t[i] == s[i]);
            assert(t[j] == s[j]);
            lemma_noadj_step(s, i);
            assert(s[i + 1] == s[j]);
        } else if j == k {
            assert(t[j] == mid[0]);
            assert(t[i] == s[i]);
        } else if j < k + m {
            assert(t[j] == mid[j - k]);
            assert(t[i] == mid[i - k]);
            assert(mid[(i - k) + 1] == mid[j - k]);
        } else if j == k + m {
            assert(t[j] == s[hi + 1]);
            assert(t[i] == mid[m - 1]);
        } else {
            assert(t[j] == s[j + shift]);
            assert(t[i] == s[i + shift]);
            lemma_noadj_step(s, i + shift);
            assert(s[(i + shift) + 1] == s[j + shift]);
        }
    }
}

/// Replacement changes the free-byte total by the difference between the
/// new blocks' and the replaced blocks' contributions.
proof fn lemma_replace_sum(s: Seq<Block>, k: int, hi: int, mid: Seq<Block>)
    requires
        0 <= k <= hi < s.len(),
    ensures
        free_sum(replace_range(s, k, hi, mid)) == free_sum(s) - free_sum(s.subrange(k, hi + 1))
            + free_sum(mid),
{
    assert(s =~= s.take(k) + s.subrange(k, hi + 1) + s.skip(hi + 1));
    lemma_free_sum_concat(s.take(k) + s.subrange(k, hi + 1), s.skip(hi + 1));
    lemma_free_sum_concat(s.take(k), s.subrange(k, hi + 1));
    lemma_free_sum_concat(s.take(k) + mid, s.skip(hi + 1));
    lemma_free_sum_concat(s.take(k), mid);
}

/// Replacing a run of blocks by new blocks that cover exactly the same
/// span preserves the region invariants, provided the new blocks are
/// sound in themselves and at the two seams.
proof fn lemma_replace_range(s: Seq<Block>, total: int, k: int, hi: int, mid: Seq<Block>)
    requires
        tiles(s, total),
        sizes_positive(s),
        no_adjacent_free(s),
        0 <= k <= hi < s.len(),
        mid.len() >= 1,
        mid[0].off == s[k].off,
        forall|i: int|
            #![trigger mid[i], mid[i + 1]]
            0 <= i < mid.len() - 1 ==> mid[i + 1].off == block_end(mid[i]),
        block_end(mid[mid.len() - 1]) == block_end(s[hi]),
        sizes_positive(mid),
        no_adjacent_free(mid),
        k > 0 ==> !(mid[0].free && s[k - 1].free),
        hi < s.len() - 1 ==> !(mid[mid.len() - 1].free && s[hi + 1].free),
    ensures
        tiles(replace_range(s, k, hi, mid), total),
        sizes_positive(replace_range(s, k, hi, mid)),
        no_adjacent_free(replace_range(s, k, hi, mid)),
        free_sum(replace_range(s, k, hi, mid)) == free_sum(s) - free_sum(s.subrange(k, hi + 1))
            + free_sum(mid),
        replace_range(s, k, hi, mid).len() == s.len() - (hi - k) - 1 + mid.len(),
{
    lemma_replace_elems(s, k, hi, mid);
    lemma_replace_tiles(s, total, k, hi, mid);
    lemma_replace_sound(s, k, hi, mid);
    lemma_replace_sum(s, k, hi, mid);
}

/// Placing a payload `align_pad` bytes into the block at `off` lands it
/// on an `align` boundary, and a front fragment is never empty and never
/// longer than `align`.
proof fn lemma_pad_aligns(base: int, off: int, align: int)
    requires
        align >= 1,
        base >= 0,
        off >= 0,
    ensures
        (base + off + HEADER_SIZE + align_pad(base, off, align)) % align == 0,
        1 <= front_gap(base, off, align) <= align,
{
    let p0 = base + off + HEADER_SIZE;
    if p0 % align != 0 {
        let x = base + off + 2 * HEADER_SIZE;
        let r2 = (x + 1) % align;
        let q = (x + 1) / align;
        vstd::arithmetic::div_mod::lemma_fundamental_div_mod(x + 1, align);
        if r2 == 0 {
            assert(x + front_gap(base, off, align) == align * q);
            vstd::arithmetic::div_mod::lemma_mod_multiples_basic(q, align);
        } else {
            assert(x + front_gap(base, off, align) == align * q + align);
            assert(align * q + align == align * (q + 1)) by (nonlinear_arith);
            vstd::arithmetic::div_mod::lemma_mod_multiples_basic(q + 1, align);
        }
    }
}

/// After carving an allocation out of a free block: every live
/// allocation of the old layout survives unchanged, and the only new
/// live allocation is the carved block itself.
proof fn lemma_alloc_live(s: Seq<Block>, t: Seq<Block>, k: int, m: int, aoff: int, asz: int)
    requires
        0 <= k < s.len(),
        s[k].free,
        m >= 1,
        t.len() == s.len() + m - 1,
        forall|i: int| 0 <= i < k ==> #[trigger] t[i] == s[i],
        forall|i: int| k + m <= i < t.len() ==> #[trigger] t[i] == s[i - m + 1],
        forall|i: int|
            k <= i < k + m ==> ((#[trigger] t[i]).free || (t[i].off == aoff && t[i].size == asz)),
    ensures
        forall|o: int, sz: int| has_live(s, o, sz) ==> has_live(t, o, sz),
        forall|o: int, sz: int|
            has_live(t, o, sz) ==> has_live(s, o, sz) || (o == aoff && sz == asz),
{
    assert forall|o: int, sz: int| has_live(s, o, sz) implies has_live(t, o, sz) by {
        let i = choose|i: int|
            0 <= i < s.len() && !(#[trigger] s[i]).free && s[i].off == o && s[i].size == sz;
        if i < k {
            assert(t[i] == s[i]);
        } else {
            assert(i != k);
            assert(t[i + m - 1] == s[i]);
        }
    }
    assert forall|o: int, sz: int| has_live(t, o, sz) implies has_live(s, o, sz) || (o == aoff
        && sz == asz) by {
        let i = choose|i: int|
            0 <= i < t.len() && !(#[trigger] t[i]).free && t[i].off == o && t[i].size == sz;
        if i < k {
            assert(t[i] == s[i]);
        } else if i >= k + m {
            assert(t[i] == s[i - m + 1]);
        }
    }
}

/// What carving gives back to the free total: the leading fragment and
/// the split remainder.
pub open spec fn opt_grew(front: Option<Block>, tail: Option<Block>) -> int {
    (match front {
        Some(f) => f.size as int,
        None => 0,
    }) + (match tail {
        Some(t) => t.size as int,
        None => 0,
    })
}

/// Shape of the blocks that take a carved block's place: they cover the
/// carved block's span exactly, only the allocation among them is live,
/// and their free payloads fall short of the carved payload by at least
/// the requested bytes.
proof fn lemma_opt_mid_shape(
    b: Block,
    pad: int,
    req: int,
    front: Option<Block>,
    allocb: Block,
    tail: Option<Block>,
)
    requires
        b.free,
        req >= 1,
        pad == 0 || pad > HEADER_SIZE,
        b.size >= pad + req,
        pad > 0 <==> front is Some,
        front matches Some(f) ==> f.off == b.off && f.size == pad - HEADER_SIZE && f.free,
        allocb.off == b.off + pad && !allocb.free,
        (b.size - pad - req > HEADER_SIZE <==> tail is Some),
        tail matches Some(t) ==> t.off == allocb.off + HEADER_SIZE + req && t.size == b.size - pad
            - req - HEADER_SIZE && t.free,
        tail is None ==> allocb.size == b.size - pad,
        tail is Some ==> allocb.size == req,
    ensures
        ({
            let mid = opt_mid(front, allocb, tail);
            let ai: int = if front is Some {
                1
            } else {
                0
            };
            &&& 1 <= mid.len() <= 3
            &&& mid[0].off == b.off
            &&& (forall|i: int|
                #![trigger mid[i], mid[i + 1]]
                0 <= i < mid.len() - 1 ==> mid[i + 1].off == block_end(mid[i]))
            &&& block_end(mid[mid.len() - 1]) == block_end(b)
            &&& sizes_positive(mid)
            &&& no_adjacent_free(mid)
            &&& 0 <= ai < mid.len()
            &&& mid[ai] == allocb
            &&& (forall|i: int| 0 <= i < mid.len() && i != ai ==> (#[trigger] mid[i]).free)
            &&& free_sum(mid) == opt_grew(front, tail)
            &&& free_sum(mid) + req <= b.size
            &&& allocb.size >= req
        }),
{
    match (front, tail) {
        (Some(f), Some(tl)) => lemma_free_sum3(f, allocb, tl),
        (Some(f), None) => lemma_free_sum3(f, allocb, allocb),
        (None, Some(tl)) => lemma_free_sum3(allocb, tl, tl),
        (None, None) => lemma_free_sum3(allocb, allocb, allocb),
    }
}

/// Replacing the free block at `k` by blocks of that shape keeps every
/// region invariant, lowers the free total by at least the requested
/// bytes, preserves the old live allocations and adds exactly the one
/// carved allocation.
proof fn lemma_replace_alloc(s: Seq<Block>, total: int, k: int, req: int, mid: Seq<Block>, ai: int)
    requires
        tiles(s, total),
        sizes_positive(s),
        no_adjacent_free(s),
        0 <= k < s.len(),
        s[k].free,
        mid.len() >= 1,
        mid[0].off == s[k].off,
        forall|i: int|
            #![trigger mid[i], mid[i + 1]]
            0 <= i < mid.len() - 1 ==> mid[i + 1].off == block_end(mid[i]),
        block_end(mid[mid.len() - 1]) == block_end(s[k]),
        sizes_positive(mid),
        no_adjacent_free(mid),
        0 <= ai < mid.len(),
        forall|i: int| 0 <= i < mid.len() && i != ai ==> (#[trigger] mid[i]).free,
        !mid[ai].free,
        free_sum(mid) + req <= s[k].size,
    ensures
        tiles(replace_range(s, k, k, mid), total),
        sizes_positive(replace_range(s, k, k, mid)),
        no_adjacent_free(replace_range(s, k, k, mid)),
        free_sum(replace_range(s, k, k, mid)) == free_sum(s) - s[k].size + free_sum(mid),
        free_sum(replace_range(s, k, k, mid)) + req <= free_sum(s),
        0 <= k + ai < replace_range(s, k, k, mid).len(),
        replace_range(s, k, k, mid)[k + ai] == mid[ai],
        forall|o: int, sz: int|
            has_live(s, o, sz) ==> has_live(replace_range(s, k, k, mid), o, sz),
        forall|o: int, sz: int|
            has_live(replace_range(s, k, k, mid), o, sz) ==> has_live(s, o, sz) || (o
                == mid[ai].off && sz == mid[ai].size),
{
    let t = replace_range(s, k, k, mid);
    assert(s.subrange(k, k + 1) =~= seq![s[k]]);
    lemma_free_sum3(s[k], s[k], s[k]);
    if k > 0 {
        lemma_noadj_step(s, k - 1);
        assert(s[(k - 1) + 1] == s[k]);
    }
    if k < s.len() - 1 {
        lemma_noadj_step(s, k);
    }
    lemma_replace_range(s, total, k, k, mid);
    lemma_replace_elems(s, k, k, mid);
    assert(t[k + ai] == mid[ai]);
    assert forall|i: int|
        k <= i < k + mid.len() implies ((#[trigger] t[i]).free || (t[i].off == mid[ai].off
        && t[i].size == mid[ai].size)) by {
        assert(t[i] == mid[i - k]);
    }
    lemma_alloc_live(s, t, k, mid.len() as int, mid[ai].off as int, mid[ai].size as int);
}

/// Merging a freed block with its free address-adjacent neighbors into
/// one free block keeps every region invariant, raises the free total
/// by the freed payload plus one header per absorbed neighbor, removes
/// exactly the freed allocation from the live set, and keeps every
/// other live allocation.
#[verifier::rlimit(100)]
#[verifier::spinoff_prover]
proof fn lemma_merge_props(s: Seq<Block>, total: int, kk: int, lo: int, hi: int, newb: Block)
    requires
        tiles(s, total),
        sizes_positive(s),
        no_adjacent_free(s),
        0 <= lo <= kk <= hi < s.len(),
        kk - 1 <= lo,
        hi <= kk + 1,
        !s[kk].free,
        (lo == kk - 1 <==> (kk > 0 && s[kk - 1].free)),
        (hi == kk + 1 <==> (kk + 1 < s.len() && s[kk + 1].free)),
        newb.free,
        newb.off == s[lo].off,
        newb.size == block_end(s[hi]) - s[lo].off - HEADER_SIZE,
    ensures
        tiles(replace_range(s, lo, hi, seq![newb]), total),
        sizes_positive(replace_range(s, lo, hi, seq![newb])),
        no_adjacent_free(replace_range(s, lo, hi, seq![newb])),
        free_sum(replace_range(s, lo, hi, seq![newb])) == free_sum(s) + freed_amount(s, kk),
        free_sum(replace_range(s, lo, hi, seq![newb])) <= total,
        forall|o: int, sz: int|
            has_live(replace_range(s, lo, hi, seq![newb]), o, sz) <==> (has_live(s, o, sz) && o
                != s[kk].off),
        forall|i: int|
            0 <= i < s.len() && (#[trigger] s[i]).off == s[kk].off ==> i == kk,
{
    let mid = seq![newb];
    let t = replace_range(s, lo, hi, mid);
    lemma_end_in_region(s, total, hi);
    lemma_free_sum3(newb, newb, newb);
    if lo > 0 {
        lemma_noadj_step(s, lo - 1);
        assert(s[(lo - 1) + 1] == s[lo]);
    }
    if hi < s.len() - 1 {
        lemma_noadj_step(s, hi);
    }
    if lo < kk {
        lemma_tiles_step(s, total, lo);
        assert(s[lo + 1] == s[kk]);
    }
    if hi > kk {
        lemma_tiles_step(s, total, kk);
        assert(s[kk + 1] == s[hi]);
    }
    if lo == kk && hi == kk {
        assert(s.subrange(lo, hi + 1) =~= seq![s[kk]]);
        lemma_free_sum3(s[kk], newb, newb);
    } else if lo < kk && hi == kk {
        assert(s.subrange(lo, hi + 1) =~= seq![s[lo], s[kk]]);
        lemma_free_sum3(s[lo], s[kk], newb);
    } else if lo == kk && hi > kk {
        assert(s.subrange(lo, hi + 1) =~= seq![s[kk], s[hi]]);
        lemma_free_sum3(s[kk], s[hi], newb);
    } else {
        assert(s.subrange(lo, hi + 1) =~= seq![s[lo], s[kk], s[hi]]);
        lemma_free_sum3(s[lo], s[kk], s[hi]);
    }
    lemma_replace_range(s, total, lo, hi, mid);
    lemma_free_live(s, total, lo, hi, kk, newb);
    lemma_conservation_seq(t, total);
    lemma_used_sum_nonneg(t);
    assert(t.len() * HEADER_SIZE >= 0) by (nonlinear_arith);
    assert forall|i: int| 0 <= i < s.len() && (#[trigger] s[i]).off == s[kk].off implies i
        == kk by {
        if i < kk {
            lemma_offsets_distinct(s, total, i, kk);
        } else if i > kk {
            lemma_offsets_distinct(s, total, kk, i);
        }
    }
}

/// After merging a freed block with its free neighbors into one free
/// block: the freed allocation is gone from the live set, and every
/// other live allocation survives unchanged.
proof fn lemma_free_live(s: Seq<Block>, total: int, lo: int, hi: int, kk: int, newb: Block)
    requires
        tiles(s, total),
        sizes_positive(s),
        0 <= lo <= kk <= hi < s.len(),
        forall|i: int| lo <= i <= hi && i != kk ==> (#[trigger] s[i]).free,
        !s[kk].free,
        newb.free,
    ensures
        forall|o: int, sz: int|
            has_live(s, o, sz) && o != s[kk].off ==> has_live(
                replace_range(s, lo, hi, seq![newb]),
                o,
                sz,
            ),
        forall|o: int, sz: int|
            has_live(replace_range(s, lo, hi, seq![newb]), o, sz) ==> has_live(s, o, sz) && o
                != s[kk].off,
{
    let t = replace_range(s, lo, hi, seq![newb]);
    lemma_replace_elems(s, lo, hi, seq![newb]);
    assert forall|o: int, sz: int| has_live(s, o, sz) && o != s[kk].off implies has_live(
        t,
        o,
        sz,
    ) by {
        let i = choose|i: int|
            0 <= i < s.len() && !(#[trigger] s[i]).free && s[i].off == o && s[i].size == sz;
        if i < lo {
            assert(t[i] == s[i]);
        } else if i > hi {
            assert(t[i - (hi - lo)] == s[i]);
        } else {
            assert(i == kk);
            if i < kk {
                lemma_offsets_distinct(s, total, i, kk);
            } else if i > kk {
                lemma_offsets_distinct(s, total, kk, i);
            }
        }
    }
    assert forall|o: int, sz: int| has_live(t, o, sz) implies has_live(s, o, sz) && o
        != s[kk].off by {
        let j = choose|j: int|
            0 <= j < t.len() && !(#[trigger] t[j]).free && t[j].off == o && t[j].size == sz;
        if j < lo {
            assert(t[j] == s[j]);
            lemma_offsets_distinct(s, total, j, kk);
        } else if j == lo {
            assert(t[j] == newb);
        } else {
            assert(t[j] == s[j + hi - lo]);
            lemma_offsets_distinct(s, total, kk, j + hi - lo);
        }
    }
}

/// In a tiled region, earlier blocks start at strictly smaller offsets,
/// so no two blocks share a payload address.
proof fn lemma_offsets_distinct(s: Seq<Block>, total: int, i: int, j: int)
    requires
        tiles(s, total),
        sizes_positive(s),
        0 <= i < j < s.len(),
    ensures
        s[i].off < s[j].off,
{
    lemma_order(s, total, i, j);
}

} // verus!
