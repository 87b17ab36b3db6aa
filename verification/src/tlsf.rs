//! A multi-pool two-level segregated fit (TLSF) allocator.
//!
//! The allocator manages caller-supplied backing regions ("pages") of type
//! `T` and hands out variable-sized blocks, identified by byte offset within
//! their page. Free blocks are kept in segregated free lists keyed by a
//! two-level size class, with a two-level occupancy bitmap so that the
//! smallest sufficient non-empty class is found by two bit scans. Blocks are
//! split on allocation and eagerly merged with free physical neighbours on
//! release, so no two adjacent blocks of a page are ever both free.
//!
//! All block metadata lives in one header arena (`headers`); free-list and
//! physical-list links are arena indices rather than pointers, and a
//! self-managed free list of header records keeps the hot paths from ever
//! touching the process allocator.
//!
//! The well-formedness invariant [`TLSF::wf`] ties the whole structure
//! together: every bound block spans a multiple of the minimum granularity
//! inside its page, linked neighbours agree on each other and tile the page
//! contiguously, no two adjacent blocks are both free, the occupancy
//! bitmaps mirror the list heads, and every list is doubly linked with
//! exactly its first member marked and seated in the head slot. Each public
//! operation requires and preserves `wf`; `allocate` additionally promises
//! success exactly when some occupied class is at or above the request's
//! class, a served block of exactly the rounded size inside its page, and
//! service from the first sufficient class; `free` promises that the block
//! absorbs exactly its free neighbours.

use vstd::prelude::*;
use vstd::arithmetic::power2::pow2;
use crate::bits::{
    bit32, bit64, lemma_bit32_clear, lemma_bit32_set, lemma_bit32_widen, lemma_bit32_zero,
    lemma_bit64_clear, lemma_bit64_set,
};
use crate::size_class::{
    block_class, class_le, class_lt, lemma_block_class, lemma_block_serves_request, lemma_pow2_le,
    lemma_request_class, log2_floor, pow2_usize, request_class, round_up_to_min_block,
    MISSING_MIN_BLOCKS, MIN_BLOCK_SIZE,
};

verus! {

/// The header of one contiguous memory block, free or allocated.
///
/// A header either describes a block bound to a page (`pool` is `Some`) or
/// rests in the allocator's header free list (`pool` is `None`). Links are
/// indices into the owning allocator's header arena.
#[derive(Clone, Copy)]
pub struct BlockHeader {
    /// The next header in the same free list (a size-class list for free
    /// blocks, the header free list for unbound headers), if any.
    pub next_free: Option<usize>,
    /// The previous header in the same free list; `None` for the first
    /// header of a list.
    pub prev_free: Option<usize>,
    /// The physically following block within the same page.
    pub next_physical: Option<usize>,
    /// The physically preceding block within the same page.
    pub prev_physical: Option<usize>,
    /// The index of the backing page this block belongs to, or `None` while
    /// the header rests in the header free list.
    pub pool: Option<usize>,
    /// The block length in bytes, always a multiple of [`MIN_BLOCK_SIZE`].
    pub size: usize,
    /// Whether the block is free. Meaningful only while the header is bound
    /// to a page.
    pub free_flag: bool,
    /// Whether this header is the first of the free list it is on.
    /// Meaningful only while the header is on a free list.
    pub first_free_flag: bool,
    /// The byte offset of the block within its backing page.
    pub base_offset: usize,
}

impl BlockHeader {
    /// A fresh header, bound to nothing.
    pub fn new() -> (r: BlockHeader)
        ensures
            r.next_free is None,
            r.prev_free is None,
            r.next_physical is None,
            r.prev_physical is None,
            r.pool is None,
            r.size == 0,
            !r.free_flag,
            !r.first_free_flag,
            r.base_offset == 0,
    {
        BlockHeader {
            next_free: None,
            prev_free: None,
            next_physical: None,
            prev_physical: None,
            pool: None,
            size: 0,
            free_flag: false,
            first_free_flag: false,
            base_offset: 0,
        }
    }

    /// Returns the block length in bytes.
    pub fn get_size(&self) -> (r: usize)
        ensures
            r == self.size,
    {
        self.size
    }

    /// True when the free flag is set.
    pub fn is_free_block(&self) -> (r: bool)
        ensures
            r == self.free_flag,
    {
        self.free_flag
    }

    /// Sets the free flag, leaving every other field as it was.
    pub fn set_free_block_flag(&mut self)
        ensures
            *final(self) == (BlockHeader { free_flag: true, ..*old(self) }),
    {
        self.free_flag = true;
    }

    /// Clears the free flag, leaving every other field as it was.
    pub fn clear_free_block_flag(&mut self)
        ensures
            *final(self) == (BlockHeader { free_flag: false, ..*old(self) }),
    {
        self.free_flag = false;
    }

    /// True when this header is marked first of its free list.
    pub fn is_first_free_block(&self) -> (r: bool)
        ensures
            r == self.first_free_flag,
    {
        self.first_free_flag
    }

    /// Marks this header first of its free list, leaving the rest as it was.
    pub fn set_first_free_block_flag(&mut self)
        ensures
            *final(self) == (BlockHeader { first_free_flag: true, ..*old(self) }),
    {
        self.first_free_flag = true;
    }

    /// Clears the first-of-list mark, leaving the rest as it was.
    pub fn clear_first_free_block_flag(&mut self)
        ensures
            *final(self) == (BlockHeader { first_free_flag: false, ..*old(self) }),
    {
        self.first_free_flag = false;
    }
}

/// One first-level size class: a 32-bit occupancy mask over its second-level
/// buckets and the list head of each bucket.
pub struct SecondLevel {
    /// Bit `s` is set exactly when `list_headers[s]` holds a block.
    pub free_mask: u32,
    /// The first free block of each second-level bucket, as an index into
    /// the header arena.
    pub list_headers: Vec<Option<usize>>,
}

impl SecondLevel {
    /// A first-level class with 32 empty buckets.
    pub fn new() -> (r: SecondLevel)
        ensures
            r.free_mask == 0,
            r.list_headers@.len() == 32,
            forall|s: int| 0 <= s < 32 ==> r.list_headers@[s] is None,
    {
        let mut list_headers: Vec<Option<usize>> = Vec::new();
        while list_headers.len() < 32
            invariant
                list_headers@.len() <= 32,
                forall|s: int| 0 <= s < list_headers@.len() ==> list_headers@[s] is None,
            decreases 32 - list_headers@.len(),
        {
            list_headers.push(None);
        }
        SecondLevel { free_mask: 0, list_headers }
    }
}

/// A handle for one allocated block: which header describes it, and the
/// block's place (page and byte offset) copied out for the caller.
pub struct Allocation {
    /// The header record describing the allocated block.
    pub header: usize,
    /// The block's byte offset within its page, copied out of the header.
    pub offset: usize,
    /// The block's page index, copied out of the header.
    pub pool: usize,
}

impl Allocation {
    /// The byte offset of the block within its backing page.
    pub fn get_offset(&self) -> (r: usize)
        ensures
            r == self.offset,
    {
        self.offset
    }

    /// The index of the backing page the block was served from.
    pub fn get_pool(&self) -> (r: usize)
        ensures
            r == self.pool,
    {
        self.pool
    }
}

/// The two-level segregated fit allocator over backing regions of type `T`.
pub struct TLSF<T> {
    /// Bit `f` is set exactly when first level `f` has any free block.
    pub free_first_level_mask: u64,
    /// One entry per first-level size class.
    pub segregated_lists: Vec<SecondLevel>,
    /// The first unused header record, if any.
    pub header_free_list: Option<usize>,
    /// The arena of all header records; it grows in batches and never
    /// shrinks while the allocator lives.
    pub headers: Vec<BlockHeader>,
    /// The registered backing regions, owned for the allocator's lifetime.
    pub page_pool: Vec<T>,
    /// The registered byte size of each backing region.
    pub page_sizes: Ghost<Seq<nat>>,
}

impl<T> TLSF<T> {
    /// The number of first-level size classes this instance serves.
    pub open spec fn num_first_levels(self) -> int {
        self.segregated_lists@.len() as int
    }

    /// The number of header records in the arena.
    pub open spec fn num_headers(self) -> int {
        self.headers@.len() as int
    }

    /// The number of registered backing regions.
    pub open spec fn num_pages(self) -> int {
        self.page_pool@.len() as int
    }

    /// The registered byte size of page `p`.
    pub open spec fn page_size(self, p: int) -> nat {
        self.page_sizes@[p]
    }

    /// Header record `i` of the arena.
    pub open spec fn hdr(self, i: int) -> BlockHeader {
        self.headers@[i]
    }

    /// True when header `i` describes a block bound to a page.
    pub open spec fn is_live(self, i: int) -> bool {
        0 <= i < self.num_headers() && self.hdr(i).pool is Some
    }

    /// True when header `i` describes a free block.
    pub open spec fn is_free_block_at(self, i: int) -> bool {
        self.is_live(i) && self.hdr(i).free_flag
    }

    /// The size class of the block that header `i` describes.
    pub open spec fn hdr_class(self, i: int) -> (nat, nat) {
        block_class(self.hdr(i).size as nat)
    }

    /// The list head of second-level bucket `(f, s)`.
    pub open spec fn head_of(self, f: int, s: int) -> Option<usize> {
        self.segregated_lists@[f].list_headers@[s]
    }

    /// True when bucket `(f, s)` is marked occupied in the occupancy masks.
    pub open spec fn occupied(self, f: int, s: int) -> bool {
        &&& 0 <= f < self.num_first_levels()
        &&& 0 <= s < 32
        &&& bit32(self.segregated_lists@[f].free_mask, s as u32)
    }

    /// The head slot of the free list that header `i` belongs on: the list
    /// of its size class for a block, the header free list otherwise.
    pub open spec fn list_head_for(self, i: int) -> Option<usize> {
        if self.hdr(i).pool is Some {
            let c = self.hdr_class(i);
            self.head_of(c.0 as int, c.1 as int)
        } else {
            self.header_free_list
        }
    }

    /// True when headers `i` and `j` may share a free list: two blocks of
    /// the same size class, or two unbound headers.
    pub open spec fn on_same_free_list(self, i: int, j: int) -> bool {
        if self.hdr(i).pool is Some {
            self.is_free_block_at(j) && self.hdr_class(j) == self.hdr_class(i)
        } else {
            0 <= j < self.num_headers() && self.hdr(j).pool is None
        }
    }

    /// The free-list links of header `i` are consistent: neighbours agree on
    /// each other, stay on the same list, and exactly the first header of a
    /// list carries the first-of-list mark and sits in the head slot.
    pub open spec fn wf_free_links(self, i: int) -> bool {
        let h = self.hdr(i);
        &&& (h.next_free matches Some(j) ==> {
            &&& 0 <= (j as int) < self.num_headers()
            &&& self.on_same_free_list(i, j as int)
            &&& self.hdr(j as int).prev_free == Some(i as usize)
            &&& !self.hdr(j as int).first_free_flag
        })
        &&& (h.first_free_flag <==> h.prev_free is None)
        &&& (h.first_free_flag ==> self.list_head_for(i) == Some(i as usize))
        &&& (h.prev_free matches Some(j) ==> {
            &&& 0 <= (j as int) < self.num_headers()
            &&& self.on_same_free_list(i, j as int)
            &&& self.hdr(j as int).next_free == Some(i as usize)
        })
    }

    /// The physical links of header `i` are consistent: neighbours agree on
    /// each other, live on the same page, their offsets tile exactly, and
    /// two adjacent blocks are never both free.
    pub open spec fn wf_physical_links(self, i: int) -> bool {
        let h = self.hdr(i);
        &&& (h.next_physical matches Some(j) ==> {
            &&& self.is_live(j as int)
            &&& self.hdr(j as int).pool == h.pool
            &&& self.hdr(j as int).prev_physical == Some(i as usize)
            &&& self.hdr(j as int).base_offset == h.base_offset + h.size
            &&& !(h.free_flag && self.hdr(j as int).free_flag)
        })
        &&& (h.prev_physical matches Some(j) ==> {
            &&& self.is_live(j as int)
            &&& self.hdr(j as int).pool == h.pool
            &&& self.hdr(j as int).next_physical == Some(i as usize)
        })
    }

    /// Everything that must hold of header `i` in whatever state it is in.
    pub open spec fn wf_header(self, i: int) -> bool {
        let h = self.hdr(i);
        &&& (h.pool matches Some(p) ==> {
            &&& (p as int) < self.num_pages()
            &&& h.size >= MIN_BLOCK_SIZE
            &&& h.size % MIN_BLOCK_SIZE == 0
            &&& h.base_offset % MIN_BLOCK_SIZE == 0
            &&& h.base_offset + h.size <= self.page_size(p as int)
            &&& (h.prev_physical is None ==> h.base_offset == 0)
            &&& (h.next_physical is None ==> h.base_offset + h.size == self.page_size(p as int))
            &&& self.wf_physical_links(i)
            &&& (h.free_flag ==> {
                &&& (self.hdr_class(i).0 as int) < self.num_first_levels()
                &&& self.wf_free_links(i)
            })
        })
        &&& (h.pool is None ==> self.wf_free_links(i))
    }

    /// The shape of the index: one entry of 32 buckets per first level, one
    /// registered size per page, and every page small enough that all of its
    /// blocks map within the served first levels.
    pub open spec fn wf_structure(self) -> bool {
        &&& self.num_first_levels() <= 59
        &&& self.page_sizes@.len() == self.num_pages()
        &&& forall|f: int|
            0 <= f < self.num_first_levels() ==> (#[trigger] self.segregated_lists@[f]).list_headers@.len()
                == 32
        &&& forall|p: int|
            0 <= p < self.num_pages() ==> {
                &&& 32 <= #[trigger] self.page_size(p) <= usize::MAX
                &&& self.page_size(p) % 32 == 0
                &&& (block_class(self.page_size(p)).0 as int) < self.num_first_levels()
            }
    }

    /// The occupancy masks mirror the list heads: a second-level bit is set
    /// exactly when its bucket has a first block, and a first-level bit is
    /// set exactly when its second-level mask is non-zero.
    pub open spec fn wf_masks(self) -> bool {
        &&& forall|f: int, s: int|
            0 <= f < self.num_first_levels() && 0 <= s < 32 ==> (#[trigger] self.occupied(f, s)
                <==> self.head_of(f, s) is Some)
        &&& forall|f: u32|
            f < 64 ==> (#[trigger] bit64(self.free_first_level_mask, f) <==> ((f as int)
                < self.num_first_levels() && self.segregated_lists@[f as int].free_mask != 0))
    }

    /// Every list head names a header of the right state: a bucket head is a
    /// free block of that very class marked first; the header free list head
    /// is an unbound header marked first.
    pub open spec fn wf_heads(self) -> bool {
        &&& forall|f: int, s: int|
            0 <= f < self.num_first_levels() && 0 <= s < 32 ==> (#[trigger] self.head_of(f, s)
                matches Some(i) ==> {
                &&& self.is_free_block_at(i as int)
                &&& self.hdr_class(i as int) == (f as nat, s as nat)
                &&& self.hdr(i as int).first_free_flag
            })
        &&& (self.header_free_list matches Some(i) ==> {
            &&& 0 <= (i as int) < self.num_headers()
            &&& self.hdr(i as int).pool is None
            &&& self.hdr(i as int).first_free_flag
        })
    }

    /// True when header `i` is the first block of its page's physical
    /// list: bound to a page with no physical predecessor. Well-formedness
    /// puts such a block at offset 0 and allows one per page, so every
    /// page's blocks form a single chain tiling `[0, page size)`.
    pub open spec fn is_page_head(self, i: int) -> bool {
        self.is_live(i) && self.hdr(i).prev_physical is None
    }

    /// The free physical predecessor of block `i`, if its predecessor
    /// exists and is free.
    pub open spec fn free_prev_neighbor(self, i: int) -> Option<usize> {
        match self.hdr(i).prev_physical {
            Some(p) => if self.hdr(p as int).free_flag {
                Some(p)
            } else {
                None
            },
            None => None,
        }
    }

    /// The free physical successor of block `i`, if its successor exists
    /// and is free.
    pub open spec fn free_next_neighbor(self, i: int) -> Option<usize> {
        match self.hdr(i).next_physical {
            Some(n) => if self.hdr(n as int).free_flag {
                Some(n)
            } else {
                None
            },
            None => None,
        }
    }

    /// Each page has at most one chain head, so its blocks form a single
    /// physical list.
    pub open spec fn wf_page_heads(self) -> bool {
        forall|i: int, j: int|
            #![trigger self.is_page_head(i), self.is_page_head(j)]
            self.is_page_head(i) && self.is_page_head(j) && self.hdr(i).pool == self.hdr(j).pool
                ==> i == j
    }

    /// The allocator's full well-formedness invariant.
    pub open spec fn wf(self) -> bool {
        &&& self.wf_structure()
        &&& self.wf_masks()
        &&& self.wf_heads()
        &&& self.wf_page_heads()
        &&& forall|i: int| 0 <= i < self.num_headers() ==> #[trigger] self.wf_header(i)
    }

    /// Well-formed except that header `x` is detached: it is bound to no
    /// page, sits on no list, and nothing in the allocator refers to it.
    pub open spec fn wf_except(self, x: int) -> bool {
        &&& self.wf_structure()
        &&& self.wf_masks()
        &&& self.wf_heads()
        &&& self.wf_page_heads()
        &&& forall|i: int| 0 <= i < self.num_headers() && i != x ==> #[trigger] self.wf_header(i)
        &&& 0 <= x < self.num_headers()
        &&& self.hdr(x).pool is None
        &&& self.header_free_list != Some(x as usize)
        &&& forall|i: int|
            0 <= i < self.num_headers() && i != x && (self.hdr(i).pool is None || self.hdr(
                i,
            ).free_flag) ==> (#[trigger] self.hdr(i)).next_free != Some(x as usize) && self.hdr(
                i,
            ).prev_free != Some(x as usize)
    }

    /// Creates an allocator able to serve blocks of up to `max_block_size`
    /// bytes, with no capacity registered yet.
    ///
    /// The instance pre-sizes one first level per size class up to the
    /// maximum's class. Every request of up to the start of that class maps
    /// within the served levels; the bound equals `max_block_size` itself
    /// whenever the maximum is a class boundary, as every power of two is.
    /// A request above the bound is answered `None`, since no registrable
    /// page could guarantee a block of its class.
    pub fn new_for_max_size(max_block_size: usize) -> (r: TLSF<T>)
        requires
            MIN_BLOCK_SIZE <= max_block_size,
        ensures
            r.wf(),
            r.num_pages() == 0,
            r.num_headers() == 0,
            r.num_first_levels() == block_class(max_block_size as nat).0 + 1,
            forall|f: int, s: int| !(#[trigger] r.occupied(f, s)),
            // the served bound: these requests map within the levels
            forall|req: nat|
                #![trigger request_class(req)]
                1 <= req <= crate::size_class::class_start(block_class(max_block_size as nat))
                    ==> (request_class(req).0 as int) < r.num_first_levels(),
    {
        let last_bit = log2_floor(max_block_size);
        proof {
            lemma_block_class(max_block_size as nat);
        }
        let first_level_count = last_bit - MISSING_MIN_BLOCKS + 1;
        let mut segregated_lists: Vec<SecondLevel> = Vec::new();
        while segregated_lists.len() < first_level_count as usize
            invariant
                segregated_lists@.len() <= first_level_count as int,
                forall|f: int|
                    0 <= f < segregated_lists@.len() ==> {
                        &&& (#[trigger] segregated_lists@[f]).list_headers@.len() == 32
                        &&& segregated_lists@[f].free_mask == 0
                        &&& forall|s: int| 0 <= s < 32 ==> segregated_lists@[f].list_headers@[s] is None
                    },
            decreases first_level_count as int - segregated_lists@.len(),
        {
            segregated_lists.push(SecondLevel::new());
        }
        let r = TLSF {
            free_first_level_mask: 0u64,
            segregated_lists,
            header_free_list: None,
            headers: Vec::new(),
            page_pool: Vec::new(),
            page_sizes: Ghost(Seq::empty()),
        };
        proof {
            assert forall|f: int, s: int|
                0 <= f < r.num_first_levels() && 0 <= s < 32 implies !r.occupied(f, s) by {
                lemma_bit32_zero(0u32);
            }
            assert forall|f: u32| f < 64 implies !bit64(0u64, f) by {
                assert((0u64 >> (f as u64)) & 1u64 == 0u64) by (bit_vector);
            }
            assert(r.wf());
            assert forall|req: nat| #![trigger request_class(req)]
                1 <= req <= crate::size_class::class_start(block_class(max_block_size as nat))
                    implies (request_class(req).0 as int) < r.num_first_levels() by {
                lemma_request_class(req);
                lemma_block_class(max_block_size as nat);
                assert(class_le(request_class(req), block_class(max_block_size as nat)));
            }
        }
        r
    }

    /// Maps a request of `size` bytes to the first size class whose blocks
    /// are all large enough to serve it.
    pub fn map_request_size(size: usize) -> (r: (u32, u32))
        requires
            size >= 1,
        ensures
            (r.0 as nat, r.1 as nat) == request_class(size as nat),
            r.1 < 32,
            r.0 < 60,
    {
        if size <= 32 {
            (0, 0)
        } else {
            let (f, s) = Self::map_block_size(size);
            proof {
                lemma_block_class(size as nat);
                lemma_pow2_le(f as nat, f as nat + 5);
            }
            let low = pow2_usize(f);
            let high = pow2_usize(f + 5);
            let class_base = high + (s as usize) * low;
            if size == class_base {
                (f, s)
            } else if s + 1 < 32 {
                (f, s + 1)
            } else {
                (f + 1, 0)
            }
        }
    }

    /// Maps a block of `size` bytes to the size class whose range contains
    /// it; a returned block is keyed under this class.
    pub fn map_block_size(size: usize) -> (r: (u32, u32))
        requires
            size >= MIN_BLOCK_SIZE,
        ensures
            (r.0 as nat, r.1 as nat) == block_class(size as nat),
            r.1 < 32,
            r.0 < 59,
    {
        let last_bit = log2_floor(size);
        proof {
            lemma_block_class(size as nat);
            lemma_pow2_le((last_bit - 5) as nat, last_bit as nat);
        }
        let f = last_bit - MISSING_MIN_BLOCKS;
        let low = pow2_usize(f);
        let q = size / low;
        proof {
            let d = pow2(f as nat) as int;
            let sz = size as int;
            vstd::arithmetic::power2::lemma_pow2_pos(f as nat);
            vstd::arithmetic::power2::lemma_pow2_adds(f as nat, 5);
            vstd::arithmetic::power2::lemma_pow2_adds(f as nat, 6);
            vstd::arithmetic::power2::lemma2_to64();
            // size / 2^f - 32 is the second-level index
            assert((sz - 32 * d) / d + 32 == ((sz - 32 * d) + 32 * d) / d) by {
                vstd::arithmetic::div_mod::lemma_hoist_over_denominator(
                    sz - 32 * d,
                    32,
                    d as nat,
                );
            }
            // bounds 32 <= size / 2^f < 64
            assert(sz / d >= 32) by {
                vstd::arithmetic::div_mod::lemma_div_is_ordered(32 * d, sz, d);
                vstd::arithmetic::div_mod::lemma_div_by_multiple(32, d);
            }
            assert(sz / d < 64) by {
                assert(sz < 64 * d);
                vstd::arithmetic::div_mod::lemma_multiply_divide_lt(sz, d, 64);
            }
        }
        let s = (q - 32) as u32;
        (f, s)
    }

    /// Scans `mask` for the first set bit at or after position `after_at`.
    pub fn first_one_after_at(mask: u64, after_at: u32) -> (r: Option<u32>)
        requires
            after_at < 64,
        ensures
            (r matches Some(k) ==> {
                &&& after_at <= k < 64
                &&& bit64(mask, k)
                &&& forall|j: u32| after_at <= j < k ==> !(#[trigger] bit64(mask, j))
            }),
            (r is None ==> forall|j: u32| after_at <= j < 64 ==> !(#[trigger] bit64(mask, j))),
    {
        proof {
            assert(1u64 << after_at >= 1) by (bit_vector)
                requires
                    after_at < 64,
            ;
        }
        let masked = mask & !((1u64 << after_at) - 1);
        proof {
            assert forall|j: u32| j < 64 implies (#[trigger] bit64(masked, j) <==> (bit64(mask, j)
                && j >= after_at)) by {
                let a = after_at;
                assert(((mask & !(((1u64 << a) - 1) as u64)) >> (j as u64)) & 1u64 == 1u64 <==> ((
                mask >> (j as u64)) & 1u64 == 1u64 && j >= a)) by (bit_vector)
                    requires
                        a < 64 && j < 64,
                ;
            }
            vstd::std_specs::bits::axiom_u64_trailing_zeros(masked);
        }
        let tz = masked.trailing_zeros();
        if tz < 64 {
            proof {
                assert(bit64(masked, tz));
                assert forall|j: u32| after_at <= j < tz implies !bit64(mask, j) by {
                    assert((masked >> (j as u64)) & 1u64 == 0u64);
                    assert(!bit64(masked, j));
                }
            }
            Some(tz)
        } else {
            proof {
                assert(masked == 0);
                assert forall|j: u32| after_at <= j < 64 implies !bit64(mask, j) by {
                    assert((0u64 >> (j as u64)) & 1u64 == 0u64) by (bit_vector);
                    assert(!bit64(masked, j));
                }
            }
            None
        }
    }

    /// A bucket marked occupied is one the masks point at: its second-level
    /// bit and its first-level bit are both set.
    proof fn lemma_occupied_bits(self, f: int, s: int)
        requires
            self.wf_masks(),
            self.wf_structure(),
            self.occupied(f, s),
        ensures
            self.segregated_lists@[f].free_mask != 0,
            bit64(self.free_first_level_mask, f as u32),
            f < 60,
    {
        lemma_bit32_zero(self.segregated_lists@[f].free_mask);
    }

    /// Searches the two-level occupancy bitmap for the first occupied size
    /// class at or above the request's class: the class whose list a request
    /// of `size` bytes is served from, or `None` when no occupied class is
    /// large enough.
    pub fn find_free_block_index(&self, size: usize) -> (r: Option<(u32, u32)>)
        requires
            self.wf(),
            size >= 1,
        ensures
            (r matches Some(c) ==> {
                &&& c.1 < 32
                &&& self.occupied(c.0 as int, c.1 as int)
                &&& class_le(request_class(size as nat), (c.0 as nat, c.1 as nat))
                &&& forall|f: int, s: int|
                    #![trigger self.occupied(f, s)]
                    self.occupied(f, s) && class_lt(
                        (f as nat, s as nat),
                        (c.0 as nat, c.1 as nat),
                    ) ==> class_lt((f as nat, s as nat), request_class(size as nat))
            }),
            (r is None ==> forall|f: int, s: int|
                #![trigger self.occupied(f, s)]
                self.occupied(f, s) ==> class_lt((f as nat, s as nat), request_class(size as nat))),
    {
        let (first_level, second_level) = Self::map_request_size(size);
        match Self::first_one_after_at(self.free_first_level_mask, first_level) {
            None => {
                proof {
                    assert forall|f: int, s: int| self.occupied(f, s) implies class_lt(
                        (f as nat, s as nat),
                        request_class(size as nat),
                    ) by {
                        self.lemma_occupied_bits(f, s);
                    }
                }
                None
            },
            Some(selected_first) => {
                if selected_first == first_level {
                    let second_mask = self.segregated_lists[selected_first as usize].free_mask;
                    proof {
                        lemma_bit32_widen(second_mask);
                    }
                    match Self::first_one_after_at(second_mask as u64, second_level) {
                        Some(selected_second) => {
                            proof {
                                assert(selected_second < 32 && bit32(
                                    second_mask,
                                    selected_second,
                                )) by {
                                    if selected_second >= 32 {
                                        assert(!bit64(second_mask as u64, selected_second));
                                    }
                                }
                                assert forall|f: int, s: int|
                                    self.occupied(f, s) && class_lt(
                                        (f as nat, s as nat),
                                        (selected_first as nat, selected_second as nat),
                                    ) implies class_lt(
                                    (f as nat, s as nat),
                                    request_class(size as nat),
                                ) by {
                                    self.lemma_occupied_bits(f, s);
                                    if f == first_level as int {
                                        assert(!bit64(second_mask as u64, s as u32) ==> !bit32(
                                            second_mask,
                                            s as u32,
                                        ));
                                    }
                                }
                            }
                            Some((selected_first, selected_second))
                        },
                        None => {
                            match Self::first_one_after_at(
                                self.free_first_level_mask,
                                first_level + 1,
                            ) {
                                None => {
                                    proof {
                                        assert forall|f: int, s: int|
                                            self.occupied(f, s) implies class_lt(
                                            (f as nat, s as nat),
                                            request_class(size as nat),
                                        ) by {
                                            self.lemma_occupied_bits(f, s);
                                            if f == first_level as int && s
                                                >= second_level as int {
                                                assert(!bit64(second_mask as u64, s as u32));
                                                assert(!bit32(second_mask, s as u32));
                                            }
                                        }
                                    }
                                    None
                                },
                                Some(new_first) => {
                                    let low_mask =
                                        self.segregated_lists[new_first as usize].free_mask;
                                    proof {
                                        lemma_bit32_widen(low_mask);
                                    }
                                    match Self::first_one_after_at(low_mask as u64, 0) {
                                        Some(new_second) => {
                                            proof {
                                                assert(new_second < 32 && bit32(
                                                    low_mask,
                                                    new_second,
                                                )) by {
                                                    if new_second >= 32 {
                                                        assert(!bit64(
                                                            low_mask as u64,
                                                            new_second,
                                                        ));
                                                    }
                                                }
                                                assert forall|f: int, s: int|
                                                    self.occupied(f, s) && class_lt(
                                                        (f as nat, s as nat),
                                                        (new_first as nat, new_second as nat),
                                                    ) implies class_lt(
                                                    (f as nat, s as nat),
                                                    request_class(size as nat),
                                                ) by {
                                                    self.lemma_occupied_bits(f, s);
                                                    if f == first_level as int && s
                                                        >= second_level as int {
                                                        assert(!bit64(
                                                            second_mask as u64,
                                                            s as u32,
                                                        ));
                                                        assert(!bit32(second_mask, s as u32));
                                                    }
                                                    if f == new_first as int {
                                                        assert(!bit64(low_mask as u64, s as u32));
                                                    }
                                                }
                                            }
                                            Some((new_first, new_second))
                                        },
                                        None => {
                                            // cannot happen: the first-level bit of
                                            // `new_first` is set, so its mask is non-zero
                                            proof {
                                                lemma_bit32_zero(low_mask);
                                                assert(exists|j: u32|
                                                    j < 32 && #[trigger] bit32(low_mask, j));
                                                let j = choose|j: u32|
                                                    j < 32 && #[trigger] bit32(low_mask, j);
                                                assert(bit64(low_mask as u64, j));
                                                assert(false);
                                            }
                                            None
                                        },
                                    }
                                },
                            }
                        },
                    }
                } else {
                    let second_mask = self.segregated_lists[selected_first as usize].free_mask;
                    proof {
                        lemma_bit32_widen(second_mask);
                    }
                    match Self::first_one_after_at(second_mask as u64, 0) {
                        Some(selected_second) => {
                            proof {
                                assert(selected_second < 32 && bit32(
                                    second_mask,
                                    selected_second,
                                )) by {
                                    if selected_second >= 32 {
                                        assert(!bit64(second_mask as u64, selected_second));
                                    }
                                }
                                assert forall|f: int, s: int|
                                    self.occupied(f, s) && class_lt(
                                        (f as nat, s as nat),
                                        (selected_first as nat, selected_second as nat),
                                    ) implies class_lt(
                                    (f as nat, s as nat),
                                    request_class(size as nat),
                                ) by {
                                    self.lemma_occupied_bits(f, s);
                                    if f == selected_first as int {
                                        assert(!bit64(second_mask as u64, s as u32));
                                    }
                                }
                            }
                            Some((selected_first, selected_second))
                        },
                        None => {
                            // cannot happen: the first-level bit of
                            // `selected_first` is set, so its mask is non-zero
                            proof {
                                lemma_bit32_zero(second_mask);
                                assert(exists|j: u32| j < 32 && #[trigger] bit32(second_mask, j));
                                let j = choose|j: u32| j < 32 && #[trigger] bit32(second_mask, j);
                                assert(bit64(second_mask as u64, j));
                                assert(false);
                            }
                            None
                        },
                    }
                }
            },
        }
    }

    /// The bitmap index and the registered pages carry over unchanged
    /// between two states that share them.
    proof fn lemma_index_preserved(a: Self, b: Self)
        requires
            a.wf_structure(),
            a.wf_masks(),
            b.segregated_lists@ == a.segregated_lists@,
            b.free_first_level_mask == a.free_first_level_mask,
            b.page_sizes@ == a.page_sizes@,
            b.page_pool@.len() == a.page_pool@.len(),
        ensures
            b.wf_structure(),
            b.wf_masks(),
    {
        assert forall|f: int|
            0 <= f < b.num_first_levels() implies (#[trigger] b.segregated_lists@[f]).list_headers@.len()
            == 32 by {
            assert(a.segregated_lists@[f].list_headers@.len() == 32);
        }
        assert forall|p: int| 0 <= p < b.num_pages() implies {
            &&& 32 <= #[trigger] b.page_size(p) <= usize::MAX
            &&& b.page_size(p) % 32 == 0
            &&& (block_class(b.page_size(p)).0 as int) < b.num_first_levels()
        } by {
            assert(32 <= a.page_size(p));
        }
        assert forall|f: int, s: int|
            0 <= f < b.num_first_levels() && 0 <= s < 32 implies (#[trigger] b.occupied(f, s)
            <==> b.head_of(f, s) is Some) by {
            assert(a.occupied(f, s) <==> a.head_of(f, s) is Some);
        }
        assert forall|f: u32| f < 64 implies (#[trigger] bit64(b.free_first_level_mask, f) <==> ((
        f as int) < b.num_first_levels() && b.segregated_lists@[f as int].free_mask != 0)) by {
            assert(bit64(a.free_first_level_mask, f) <==> ((f as int) < a.num_first_levels()
                && a.segregated_lists@[f as int].free_mask != 0));
        }
    }

    /// Page chain heads survive a step that neither binds a header to a
    /// new page nor removes a physical predecessor: any single header `e`
    /// that is no chain head afterwards may change freely, new headers must
    /// be unbound, and every other header keeps its page and keeps having
    /// or lacking a predecessor.
    proof fn lemma_page_heads_preserved(a: Self, b: Self, e: int)
        requires
            a.wf_page_heads(),
            b.num_headers() >= a.num_headers(),
            forall|x: int|
                0 <= x < a.num_headers() && x != e ==> (#[trigger] b.hdr(x)).pool == a.hdr(x).pool
                    && ((b.hdr(x).prev_physical is None) <==> (a.hdr(x).prev_physical is None)),
            forall|x: int|
                a.num_headers() <= x < b.num_headers() ==> (#[trigger] b.hdr(x)).pool is None,
            !b.is_page_head(e),
        ensures
            b.wf_page_heads(),
    {
        assert forall|x: int, y: int|
            #![trigger b.is_page_head(x), b.is_page_head(y)]
            b.is_page_head(x) && b.is_page_head(y) && b.hdr(x).pool == b.hdr(y).pool implies x
            == y by {
            if b.is_page_head(x) && b.is_page_head(y) && b.hdr(x).pool == b.hdr(y).pool {
                assert(x != e && y != e);
                assert(x < a.num_headers() && y < a.num_headers());
                assert(a.is_page_head(x) && a.is_page_head(y));
                assert(a.hdr(x).pool == a.hdr(y).pool);
            }
        }
    }

    /// The header arena is a vector, so its length fits a machine word.
    proof fn lemma_arena_len_bound(a: Self)
        ensures
            a.num_headers() <= usize::MAX as int,
    {
        vstd::std_specs::vec::axiom_spec_len(&a.headers);
    }

    /// Takes an unused header record off the header free list, growing the
    /// arena by a fixed batch when the list is empty. The returned record is
    /// detached: bound to nothing, on no list, referenced by nothing.
    #[verifier::rlimit(50)]
    fn allocate_block_header(&mut self) -> (i: usize)
        requires
            old(self).wf(),
        ensures
            final(self).wf_except(i as int),
            final(self).segregated_lists@ == old(self).segregated_lists@,
            final(self).free_first_level_mask == old(self).free_first_level_mask,
            final(self).page_pool@ == old(self).page_pool@,
            final(self).page_sizes@ == old(self).page_sizes@,
            final(self).num_headers() >= old(self).num_headers(),
            forall|j: int|
                0 <= j < old(self).num_headers() && old(self).hdr(j).pool is Some
                    ==> final(self).hdr(j) == old(self).hdr(j),
            forall|j: int|
                old(self).num_headers() <= j < final(self).num_headers()
                    ==> final(self).hdr(j).pool is None,
            forall|j: int|
                0 <= j < old(self).num_headers() && old(self).hdr(j).pool is None
                    ==> final(self).hdr(j).pool is None,
            // the record comes off the front of the header free list; an
            // empty list first grows the arena by one batch of 64 records
            (old(self).header_free_list matches Some(h) ==> i == h
                && final(self).header_free_list == old(self).hdr(h as int).next_free
                && final(self).num_headers() == old(self).num_headers()),
            (old(self).header_free_list is None
                ==> final(self).num_headers() == old(self).num_headers() + 64 && (i as int)
                == old(self).num_headers() + 63),
    {
        if self.header_free_list.is_none() {
            let mut added: usize = 0;
            while added < 64
                invariant
                    self.wf(),
                    added <= 64,
                    added >= 1 ==> self.header_free_list is Some,
                    self.num_headers() == old(self).num_headers() + added,
                    added >= 1 ==> self.header_free_list == Some(
                        (old(self).num_headers() + added - 1) as usize,
                    ),
                    self.segregated_lists@ == old(self).segregated_lists@,
                    self.free_first_level_mask == old(self).free_first_level_mask,
                    self.page_pool@ == old(self).page_pool@,
                    self.page_sizes@ == old(self).page_sizes@,
                    self.num_headers() >= old(self).num_headers(),
                    forall|j: int|
                        0 <= j < old(self).num_headers() && old(self).hdr(j).pool is Some ==> self.hdr(
                            j,
                        ) == old(self).hdr(j),
                    forall|j: int|
                        old(self).num_headers() <= j < self.num_headers() ==> self.hdr(
                            j,
                        ).pool is None,
                    forall|j: int|
                        0 <= j < old(self).num_headers() && old(self).hdr(j).pool is None
                            ==> self.hdr(j).pool is None,
                decreases 64 - added,
            {
                let ghost pre = *self;
                let idx = self.headers.len();
                let mut fresh = BlockHeader::new();
                fresh.first_free_flag = true;
                fresh.next_free = self.header_free_list;
                if let Some(old_head) = self.header_free_list {
                    proof {
                        assert(pre.wf_header(old_head as int));
                    }
                    self.headers[old_head].prev_free = Some(idx);
                    self.headers[old_head].first_free_flag = false;
                }
                self.headers.push(fresh);
                self.header_free_list = Some(idx);
                added = added + 1;
                proof {
                    Self::lemma_index_preserved(pre, *self);
                    Self::lemma_arena_len_bound(pre);
                    let ghost oh_int: int = match pre.header_free_list {
                        Some(oh) => oh as int,
                        None => -1,
                    };
                    assert forall|f: int, s: int|
                        0 <= f < self.num_first_levels() && 0 <= s < 32 implies ((
                    #[trigger] self.head_of(f, s)) matches Some(h) ==> {
                        &&& self.is_free_block_at(h as int)
                        &&& self.hdr_class(h as int) == (f as nat, s as nat)
                        &&& self.hdr(h as int).first_free_flag
                    }) by {
                        match pre.head_of(f, s) {
                            Some(h) => {
                                assert(pre.is_free_block_at(h as int));
                                assert(self.hdr(h as int) == pre.hdr(h as int));
                            },
                            None => {},
                        }
                    }
                    assert forall|j: int|
                        old(self).num_headers() <= j < self.num_headers() implies self.hdr(
                        j,
                    ).pool is None by {
                        if j != idx && j != oh_int {
                            assert(self.hdr(j) == pre.hdr(j));
                        } else if j == oh_int {
                            assert(pre.hdr(j).pool is None);
                        }
                    }
                    assert forall|j: int|
                        0 <= j < old(self).num_headers() && old(self).hdr(j).pool is None
                            implies self.hdr(j).pool is None by {
                        if j != idx && j != oh_int {
                            assert(self.hdr(j) == pre.hdr(j));
                        }
                    }
                    assert forall|j: int| 0 <= j < self.num_headers() implies self.wf_header(
                        j,
                    ) by {
                        if j < idx && j != oh_int {
                            assert(pre.wf_header(j));
                            let hj = pre.hdr(j);
                            if hj.pool is None || hj.free_flag {
                                if hj.next_free == Some(idx as usize) || hj.prev_free == Some(
                                    idx as usize,
                                ) {
                                    assert(false);
                                }
                                if oh_int >= 0 && hj.next_free == Some(oh_int as usize) {
                                    // only the head slot pointed at the old head
                                    assert(pre.hdr(oh_int).prev_free == Some(j as usize));
                                    assert(false);
                                }
                                if hj.first_free_flag && hj.pool is None {
                                    assert(pre.list_head_for(j) == Some(j as usize));
                                    assert(false);
                                }
                            }
                        } else if j == oh_int {
                            assert(pre.wf_header(j));
                            match pre.hdr(j).next_free {
                                Some(r) => {
                                    assert(pre.hdr(r as int).prev_free == Some(j as usize));
                                    assert(self.hdr(r as int) == pre.hdr(r as int));
                                },
                                None => {},
                            }
                        }
                    }
                    Self::lemma_page_heads_preserved(pre, *self, -1);
                    assert(self.wf());
                }
            }
        }
        let i: usize;
        match self.header_free_list {
            Some(head) => {
                i = head;
            },
            None => {
                proof {
                    assert(false);
                }
                i = 0;
            },
        }
        let ghost pre = *self;
        proof {
            assert(pre.wf_header(i as int));
            Self::lemma_arena_len_bound(pre);
        }
        let next = self.headers[i].next_free;
        self.header_free_list = next;
        if let Some(q) = next {
            proof {
                // the old head is first of its list, so its successor is not itself
                assert(pre.hdr(i as int).first_free_flag);
                assert(pre.wf_header(q as int));
                assert(!pre.hdr(q as int).first_free_flag);
            }
            self.headers[q].prev_free = None;
            self.headers[q].first_free_flag = true;
        }
        proof {
            let ghost q_int: int = match next {
                Some(q) => q as int,
                None => -1,
            };
            Self::lemma_index_preserved(pre, *self);
            assert forall|f: int, s: int|
                0 <= f < self.num_first_levels() && 0 <= s < 32 implies ((#[trigger] self.head_of(
                f,
                s,
            )) matches Some(h) ==> {
                &&& self.is_free_block_at(h as int)
                &&& self.hdr_class(h as int) == (f as nat, s as nat)
                &&& self.hdr(h as int).first_free_flag
            }) by {
                match pre.head_of(f, s) {
                    Some(h) => {
                        assert(pre.is_free_block_at(h as int));
                        assert(self.hdr(h as int) == pre.hdr(h as int));
                    },
                    None => {},
                }
            }
            assert forall|j: int| 0 <= j < self.num_headers() && j != i implies self.wf_header(
                j,
            ) by {
                assert(pre.wf_header(j));
                if j != q_int {
                    let hj = pre.hdr(j);
                    if hj.pool is None || hj.free_flag {
                        if hj.next_free == Some(i as usize) {
                            assert(pre.hdr(i as int).prev_free == Some(j as usize));
                            assert(false);
                        }
                        if q_int >= 0 && hj.next_free == Some(q_int as usize) {
                            assert(pre.wf_free_links(j));
                            assert(pre.hdr(q_int).prev_free == Some(j as usize));
                            assert(pre.hdr(i as int).pool is None);
                            assert(pre.hdr(i as int).next_free == Some(q_int as usize));
                            assert(pre.wf_free_links(i as int));
                            assert(pre.hdr(q_int).prev_free == Some(i as usize));
                            assert(false);
                        }
                        if hj.pool is None && hj.first_free_flag {
                            assert(pre.wf_free_links(j));
                            assert(pre.list_head_for(j) == Some(j as usize));
                            assert(pre.header_free_list == Some(i));
                            assert(false);
                        }
                    }
                } else {
                    match pre.hdr(j).next_free {
                        Some(r) => {
                            assert(pre.wf_header(r as int));
                            assert(pre.hdr(r as int).prev_free == Some(j as usize));
                            assert(self.hdr(r as int) == pre.hdr(r as int));
                        },
                        None => {},
                    }
                }
            }
            assert forall|j: int|
                0 <= j < self.num_headers() && j != i && (self.hdr(j).pool is None || self.hdr(
                    j,
                ).free_flag) implies (#[trigger] self.hdr(j)).next_free != Some(i as usize)
                && self.hdr(j).prev_free != Some(i as usize) by {
                assert(pre.wf_header(j));
                if j != q_int {
                    if pre.hdr(j).next_free == Some(i as usize) {
                        assert(pre.hdr(i as int).prev_free == Some(j as usize));
                        assert(false);
                    }
                    if pre.hdr(j).prev_free == Some(i as usize) {
                        assert(pre.hdr(i as int).next_free == Some(j as usize));
                        assert(j == q_int);
                    }
                }
            }
            assert forall|j: int|
                0 <= j < old(self).num_headers() && old(self).hdr(j).pool is Some implies self.hdr(
                j,
            ) == old(self).hdr(j) by {
                assert(pre.hdr(j) == old(self).hdr(j));
                if j == q_int {
                    assert(pre.wf_header(i as int));
                    assert(pre.hdr(j).pool is None);
                } else {
                    assert(self.hdr(j) == pre.hdr(j));
                }
            }
            Self::lemma_page_heads_preserved(pre, *self, -1);
            assert forall|j: int|
                0 <= j < old(self).num_headers() && old(self).hdr(j).pool is None implies self.hdr(
                j,
            ).pool is None by {
                if j != q_int {
                    assert(self.hdr(j).pool == pre.hdr(j).pool);
                }
            }
            assert(self.wf_except(i as int));
        }
        i
    }

    /// Unlinks free block `i` from its size-class list, clears its class
    /// bits when the bucket empties, and clears its free flag: the header
    /// then describes an allocated block of unchanged page, place and size.
    #[verifier::rlimit(100)]
    fn remove_free_block(&mut self, i: usize)
        requires
            old(self).wf(),
            old(self).is_free_block_at(i as int),
        ensures
            final(self).wf(),
            final(self).hdr(i as int) == (BlockHeader {
                free_flag: false,
                ..old(self).hdr(i as int)
            }),
            final(self).num_headers() == old(self).num_headers(),
            final(self).page_pool@ == old(self).page_pool@,
            final(self).page_sizes@ == old(self).page_sizes@,
            final(self).header_free_list == old(self).header_free_list,
            final(self).num_first_levels() == old(self).num_first_levels(),
            forall|j: int|
                0 <= j < old(self).num_headers() && j != i ==> {
                    &&& (#[trigger] final(self).hdr(j)).pool == old(self).hdr(j).pool
                    &&& final(self).hdr(j).size == old(self).hdr(j).size
                    &&& final(self).hdr(j).base_offset == old(self).hdr(j).base_offset
                    &&& final(self).hdr(j).free_flag == old(self).hdr(j).free_flag
                    &&& final(self).hdr(j).next_physical == old(self).hdr(j).next_physical
                    &&& final(self).hdr(j).prev_physical == old(self).hdr(j).prev_physical
                },
            forall|j: int|
                0 <= j < old(self).num_headers() && j != i && old(self).hdr(j).pool is None
                    ==> final(self).hdr(j) == old(self).hdr(j),
            // the index after the unlinking: the class's head skips `i`
            // when `i` was first, its bits clear exactly when the bucket
            // empties, and no other class changes
            ({
                let c = old(self).hdr_class(i as int);
                &&& (old(self).hdr(i as int).prev_free is None ==> final(self).head_of(
                    c.0 as int,
                    c.1 as int,
                ) == old(self).hdr(i as int).next_free)
                &&& (old(self).hdr(i as int).prev_free is Some ==> final(self).head_of(
                    c.0 as int,
                    c.1 as int,
                ) == old(self).head_of(c.0 as int, c.1 as int))
                &&& forall|f: int, s: int|
                    #![trigger final(self).head_of(f, s)]
                    0 <= f < old(self).num_first_levels() && 0 <= s < 32 && !(f == c.0 as int
                        && s == c.1 as int) ==> final(self).head_of(f, s) == old(self).head_of(
                        f,
                        s,
                    )
                &&& forall|f: int, s: int|
                    #![trigger final(self).occupied(f, s)]
                    final(self).occupied(f, s) <==> (old(self).occupied(f, s) && !(f
                        == c.0 as int && s == c.1 as int && old(self).hdr(
                        i as int,
                    ).prev_free is None && old(self).hdr(i as int).next_free is None))
            }),
            // the list neighbours of `i` are relinked around it
            (old(self).hdr(i as int).next_free matches Some(q) ==> final(self).hdr(
                q as int,
            ).prev_free == old(self).hdr(i as int).prev_free && final(self).hdr(
                q as int,
            ).first_free_flag == (old(self).hdr(i as int).prev_free is None)),
            (old(self).hdr(i as int).prev_free matches Some(p) ==> final(self).hdr(
                p as int,
            ).next_free == old(self).hdr(i as int).next_free),
            forall|j: int|
                0 <= j < old(self).num_headers() && j != i && Some(j as usize) != old(self).hdr(
                    i as int,
                ).prev_free && Some(j as usize) != old(self).hdr(i as int).next_free ==> {
                    &&& (#[trigger] final(self).hdr(j)).next_free == old(self).hdr(j).next_free
                    &&& final(self).hdr(j).prev_free == old(self).hdr(j).prev_free
                    &&& final(self).hdr(j).first_free_flag == old(self).hdr(j).first_free_flag
                },
    {
        let ghost pre = *self;
        proof {
            assert(pre.wf_header(i as int));
            Self::lemma_arena_len_bound(pre);
        }
        let h = self.headers[i];
        let (first_level, second_level) = Self::map_block_size(h.size);
        proof {
            assert((first_level as nat, second_level as nat) == pre.hdr_class(i as int));
        }
        self.headers[i].free_flag = false;
        match h.prev_free {
            None => {
                // `i` is first of its bucket: the head moves to its successor
                proof {
                    assert(pre.hdr(i as int).first_free_flag);
                    assert(pre.head_of(first_level as int, second_level as int) == Some(i));
                    assert(pre.occupied(first_level as int, second_level as int));
                }
                if let Some(q) = h.next_free {
                    proof {
                        assert(pre.wf_header(q as int));
                    }
                    self.headers[q].prev_free = None;
                    self.headers[q].first_free_flag = true;
                    self.segregated_lists[first_level as usize].list_headers[second_level
                        as usize] = Some(q);
                    proof {
                        assert(self.segregated_lists@ =~= pre.segregated_lists@.update(
                            first_level as int,
                            self.segregated_lists@[first_level as int],
                        ));
                        self.lemma_after_remove(pre, i as int, first_level, second_level);
                        assert(pre.hdr_class(i as int).0 as int == first_level as int
                            && pre.hdr_class(i as int).1 as int == second_level as int);
                        assert(self.head_of(first_level as int, second_level as int) == Some(q));
                        assert forall|f: int, s: int|
                            #![trigger self.head_of(f, s)]
                            0 <= f < pre.num_first_levels() && 0 <= s < 32 && !(f
                                == first_level as int && s == second_level as int) implies self.head_of(
                            f,
                            s,
                        ) == pre.head_of(f, s) by {
                            if f != first_level as int {
                                assert(self.segregated_lists@[f] == pre.segregated_lists@[f]);
                            }
                        }
                        assert forall|f: int, s: int|
                            #![trigger self.occupied(f, s)]
                            self.occupied(f, s) <==> pre.occupied(f, s) by {
                            if 0 <= f < self.num_first_levels() {
                                assert(self.segregated_lists@[f].free_mask
                                    == pre.segregated_lists@[f].free_mask);
                            }
                        }
                    }
                } else {
                    self.segregated_lists[first_level as usize].list_headers[second_level
                        as usize] = None;
                    let mask = self.segregated_lists[first_level as usize].free_mask;
                    let new_mask = mask & !(1u32 << second_level);
                    self.segregated_lists[first_level as usize].free_mask = new_mask;
                    proof {
                        lemma_bit32_clear(mask, second_level);
                    }
                    if new_mask == 0 {
                        proof {
                            lemma_bit64_clear(self.free_first_level_mask, first_level);
                            lemma_bit32_zero(new_mask);
                        }
                        self.free_first_level_mask = self.free_first_level_mask & !(1u64 << (
                        first_level as u64));
                    }
                    proof {
                        assert(self.segregated_lists@ =~= pre.segregated_lists@.update(
                            first_level as int,
                            self.segregated_lists@[first_level as int],
                        ));
                        assert(self.segregated_lists@[first_level as int].list_headers@
                            =~= pre.segregated_lists@[first_level as int].list_headers@.update(
                            second_level as int,
                            None,
                        ));
                        self.lemma_after_remove(pre, i as int, first_level, second_level);
                        assert(pre.hdr_class(i as int).0 as int == first_level as int
                            && pre.hdr_class(i as int).1 as int == second_level as int);
                        assert(self.head_of(first_level as int, second_level as int) is None);
                        assert forall|f: int, s: int|
                            #![trigger self.head_of(f, s)]
                            0 <= f < pre.num_first_levels() && 0 <= s < 32 && !(f
                                == first_level as int && s == second_level as int) implies self.head_of(
                            f,
                            s,
                        ) == pre.head_of(f, s) by {
                            if f != first_level as int {
                                assert(self.segregated_lists@[f] == pre.segregated_lists@[f]);
                            }
                        }
                        assert forall|f: int, s: int|
                            #![trigger self.occupied(f, s)]
                            self.occupied(f, s) <==> (pre.occupied(f, s) && !(f
                                == first_level as int && s == second_level as int)) by {
                            if 0 <= f < self.num_first_levels() && 0 <= s < 32 {
                                if f == first_level as int {
                                    assert(bit32(self.segregated_lists@[f].free_mask, s as u32)
                                        <==> (bit32(pre.segregated_lists@[f].free_mask, s as u32)
                                        && s as u32 != second_level));
                                } else {
                                    assert(self.segregated_lists@[f] == pre.segregated_lists@[f]);
                                }
                            }
                        }
                    }
                }
            },
            Some(p) => {
                proof {
                    assert(pre.wf_header(p as int));
                    assert(pre.hdr(p as int).next_free == Some(i));
                }
                self.headers[p].next_free = h.next_free;
                if let Some(q) = h.next_free {
                    proof {
                        assert(pre.wf_header(q as int));
                        assert(!pre.hdr(q as int).first_free_flag);
                    }
                    self.headers[q].prev_free = Some(p);
                }
                proof {
                    self.lemma_after_remove(pre, i as int, first_level, second_level);
                    assert(pre.hdr_class(i as int).0 as int == first_level as int
                        && pre.hdr_class(i as int).1 as int == second_level as int);
                    assert forall|f: int, s: int|
                        #![trigger self.occupied(f, s)]
                        self.occupied(f, s) <==> pre.occupied(f, s) by {
                        if 0 <= f < self.num_first_levels() {
                            let pm = pre.segregated_lists@[f].free_mask;
                            assert(self.segregated_lists@[f].free_mask == pm);
                        }
                    }
                }
            },
        }
    }

    /// After free block `i` of class `(first_level, second_level)` has been
    /// unlinked from its bucket and its free flag cleared, the allocator is
    /// well formed again. `self` is the state after the writes, `pre` the
    /// well-formed state before them; the requires spell out exactly which
    /// records and slots the unlinking touched.
    #[verifier::rlimit(100)]
    proof fn lemma_after_remove(self, pre: Self, i: int, first_level: u32, second_level: u32)
        requires
            pre.wf(),
            pre.is_free_block_at(i),
            (first_level as nat, second_level as nat) == pre.hdr_class(i),
            second_level < 32,
            (first_level as int) < pre.num_first_levels(),
            self.num_headers() == pre.num_headers(),
            self.page_pool@ == pre.page_pool@,
            self.page_sizes@ == pre.page_sizes@,
            self.header_free_list == pre.header_free_list,
            self.hdr(i) == (BlockHeader { free_flag: false, ..pre.hdr(i) }),
            // the touched records and slots, by the shape of the unlinking
            ({
                let fl = first_level as int;
                let sl = second_level as int;
                match pre.hdr(i).prev_free {
                    None => {
                        &&& pre.head_of(fl, sl) == Some(i as usize)
                        &&& match pre.hdr(i).next_free {
                            Some(q) => {
                                &&& self.hdr(q as int) == (BlockHeader {
                                    prev_free: None,
                                    first_free_flag: true,
                                    ..pre.hdr(q as int)
                                })
                                &&& self.head_of(fl, sl) == Some(q)
                                &&& self.segregated_lists@ == pre.segregated_lists@.update(
                                    fl,
                                    self.segregated_lists@[fl],
                                )
                                &&& self.segregated_lists@[fl].free_mask
                                    == pre.segregated_lists@[fl].free_mask
                                &&& self.segregated_lists@[fl].list_headers@
                                    == pre.segregated_lists@[fl].list_headers@.update(
                                    sl,
                                    Some(q),
                                )
                                &&& self.free_first_level_mask == pre.free_first_level_mask
                                &&& forall|j: int|
                                    0 <= j < pre.num_headers() && j != i && j != q as int
                                        ==> self.hdr(j) == pre.hdr(j)
                            },
                            None => {
                                &&& self.head_of(fl, sl) is None
                                &&& self.segregated_lists@ == pre.segregated_lists@.update(
                                    fl,
                                    self.segregated_lists@[fl],
                                )
                                &&& self.segregated_lists@[fl].list_headers@
                                    == pre.segregated_lists@[fl].list_headers@.update(sl, None)
                                &&& (forall|t: u32|
                                    t < 32 ==> (bit32(
                                        #[trigger] self.segregated_lists@[fl].free_mask,
                                        t,
                                    ) <==> (bit32(pre.segregated_lists@[fl].free_mask, t) && t
                                        != second_level)))
                                &&& (self.segregated_lists@[fl].free_mask == 0
                                    ==> forall|t: u32|
                                        t < 64 ==> (bit64(
                                            #[trigger] self.free_first_level_mask,
                                            t,
                                        ) <==> (bit64(pre.free_first_level_mask, t) && t
                                            != first_level)))
                                &&& (self.segregated_lists@[fl].free_mask != 0
                                    ==> self.free_first_level_mask
                                        == pre.free_first_level_mask)
                                &&& forall|j: int|
                                    0 <= j < pre.num_headers() && j != i ==> self.hdr(j)
                                        == pre.hdr(j)
                            },
                        }
                    },
                    Some(p) => {
                        &&& self.segregated_lists@ == pre.segregated_lists@
                        &&& self.free_first_level_mask == pre.free_first_level_mask
                        &&& (p as int == i ==> forall|j: int|
                            0 <= j < pre.num_headers() && j != i ==> self.hdr(j) == pre.hdr(j))
                        &&& (p as int != i ==> match pre.hdr(i).next_free {
                            None => {
                                &&& self.hdr(p as int) == (BlockHeader {
                                    next_free: None,
                                    ..pre.hdr(p as int)
                                })
                                &&& forall|j: int|
                                    0 <= j < pre.num_headers() && j != i && j != p as int
                                        ==> self.hdr(j) == pre.hdr(j)
                            },
                            Some(q) => {
                                &&& (q == p ==> self.hdr(p as int) == (BlockHeader {
                                    next_free: Some(q),
                                    prev_free: Some(p),
                                    ..pre.hdr(p as int)
                                }))
                                &&& (q != p ==> self.hdr(p as int) == (BlockHeader {
                                    next_free: Some(q),
                                    ..pre.hdr(p as int)
                                }) && self.hdr(q as int) == (BlockHeader {
                                    prev_free: Some(p),
                                    ..pre.hdr(q as int)
                                }))
                                &&& forall|j: int|
                                    0 <= j < pre.num_headers() && j != i && j != q as int && j
                                        != p as int ==> self.hdr(j) == pre.hdr(j)
                            },
                        })
                    },
                }
            }),
        ensures
            self.wf(),
    {
        Self::lemma_arena_len_bound(pre);
        assert(pre.wf_header(i));
        let fl = first_level as int;
        let sl = second_level as int;
        let cls = (first_level as nat, second_level as nat);
        let ghost p_int: int = match pre.hdr(i).prev_free {
            Some(p) => p as int,
            None => -1,
        };
        let ghost q_int: int = match pre.hdr(i).next_free {
            Some(q) => q as int,
            None => -1,
        };
        if p_int >= 0 {
            assert(pre.wf_header(p_int));
        }
        if q_int >= 0 {
            assert(pre.wf_header(q_int));
        }
        assert(self.wf_structure()) by {
            assert forall|f: int|
                0 <= f < self.num_first_levels() implies (#[trigger] self.segregated_lists@[f]).list_headers@.len()
                == 32 by {
                assert(pre.segregated_lists@[f].list_headers@.len() == 32);
            }
            assert forall|p: int| 0 <= p < self.num_pages() implies {
                &&& 32 <= #[trigger] self.page_size(p) <= usize::MAX
                &&& self.page_size(p) % 32 == 0
                &&& (block_class(self.page_size(p)).0 as int) < self.num_first_levels()
            } by {
                assert(32 <= pre.page_size(p));
            }
        }
        assert(self.wf_masks()) by {
            assert forall|f: int, s: int|
                0 <= f < self.num_first_levels() && 0 <= s < 32 implies (#[trigger] self.occupied(
                f,
                s,
            ) <==> self.head_of(f, s) is Some) by {
                assert(pre.occupied(f, s) <==> pre.head_of(f, s) is Some);
            }
            assert forall|f: u32|
                f < 64 implies (#[trigger] bit64(self.free_first_level_mask, f) <==> ((f as int)
                < self.num_first_levels() && self.segregated_lists@[f as int].free_mask != 0)) by {
                assert(bit64(pre.free_first_level_mask, f) <==> ((f as int)
                    < pre.num_first_levels() && pre.segregated_lists@[f as int].free_mask != 0));
                if p_int < 0 && q_int < 0 && self.segregated_lists@[fl].free_mask != 0
                    && f == first_level {
                    lemma_bit32_zero(self.segregated_lists@[fl].free_mask);
                    lemma_bit32_zero(pre.segregated_lists@[fl].free_mask);
                }
            }
        }
        assert forall|f: int, s: int|
            0 <= f < self.num_first_levels() && 0 <= s < 32 implies ((#[trigger] self.head_of(
            f,
            s,
        )) matches Some(t) ==> {
            &&& self.is_free_block_at(t as int)
            &&& self.hdr_class(t as int) == (f as nat, s as nat)
            &&& self.hdr(t as int).first_free_flag
        }) by {
            if f == fl && s == sl && p_int < 0 {
                if q_int >= 0 {
                    assert(self.hdr_class(q_int) == cls);
                }
            } else {
                assert(self.head_of(f, s) == pre.head_of(f, s));
                match pre.head_of(f, s) {
                    Some(t) => {
                        assert(pre.is_free_block_at(t as int));
                        assert(pre.hdr_class(t as int) == (f as nat, s as nat));
                        if t as int == i {
                            assert((f as nat, s as nat) == cls);
                            assert(pre.hdr(i).prev_free is None);
                            assert(false);
                        }
                        if q_int >= 0 && t as int == q_int && p_int < 0 {
                            assert(pre.hdr(q_int).first_free_flag);
                            assert(pre.hdr(q_int).prev_free == Some(i as usize));
                            assert(false);
                        }
                    },
                    None => {},
                }
            }
        }
        match self.header_free_list {
            Some(t) => {
                assert(pre.hdr(t as int).pool is None);
                assert(self.hdr(t as int) == pre.hdr(t as int));
            },
            None => {},
        }
        assert forall|j: int| 0 <= j < self.num_headers() implies self.wf_header(j) by {
            assert(pre.wf_header(j));
            let hj = pre.hdr(j);
            if j == i {
                assert(self.wf_physical_links(j));
            } else if p_int == i {
                // a floating self-referential record: nothing else changed
                assert(self.hdr(j) == pre.hdr(j));
                if hj.pool is None || hj.free_flag {
                    if hj.next_free == Some(i as usize) {
                        assert(pre.hdr(i).prev_free == Some(j as usize));
                        assert(false);
                    }
                    if hj.prev_free == Some(i as usize) {
                        assert(pre.hdr(i).next_free == Some(j as usize));
                        assert(false);
                    }
                    if hj.first_free_flag && hj.pool is Some {
                        assert(pre.list_head_for(j) == Some(j as usize));
                        assert(self.list_head_for(j) == pre.list_head_for(j));
                    }
                    assert(self.wf_free_links(j));
                }
            } else if j == q_int && p_int < 0 {
                match pre.hdr(q_int).next_free {
                    Some(r) => {
                        assert(pre.wf_header(r as int));
                        assert(pre.hdr(r as int).prev_free == Some(q_int as usize));
                    },
                    None => {},
                }
                assert(self.wf_free_links(j));
            } else if j == q_int && p_int >= 0 {
                assert(self.hdr(q_int).prev_free == Some(p_int as usize));
                assert(self.wf_free_links(j));
            } else if j == p_int {
                assert(self.wf_free_links(j));
            } else {
                if hj.pool is None || hj.free_flag {
                    if hj.next_free == Some(i as usize) {
                        assert(pre.hdr(i).prev_free == Some(j as usize));
                        assert(false);
                    }
                    if hj.prev_free == Some(i as usize) {
                        assert(pre.hdr(i).next_free == Some(j as usize));
                        assert(false);
                    }
                    if q_int >= 0 && hj.next_free == Some(q_int as usize) {
                        assert(pre.hdr(q_int).prev_free == Some(j as usize));
                        assert(pre.hdr(q_int).prev_free == Some(i as usize));
                        assert(false);
                    }
                    if p_int >= 0 && hj.prev_free == Some(p_int as usize) {
                        assert(pre.hdr(p_int).next_free == Some(j as usize));
                        assert(pre.hdr(p_int).next_free == Some(i as usize));
                        assert(false);
                    }
                    if hj.first_free_flag && hj.pool is Some {
                        assert(pre.list_head_for(j) == Some(j as usize));
                        let cj = pre.hdr_class(j);
                        assert(self.hdr_class(j) == cj);
                        lemma_block_class(pre.hdr(j).size as nat);
                        assert(cj.1 < 32);
                        if p_int < 0 {
                            if cj.0 == cls.0 && cj.1 == cls.1 {
                                assert(cj == cls);
                                assert(pre.head_of(fl, sl) == Some(i as usize));
                                assert(false);
                            }
                            assert(self.head_of(cj.0 as int, cj.1 as int) == pre.head_of(
                                cj.0 as int,
                                cj.1 as int,
                            ));
                        }
                        assert(self.list_head_for(j) == pre.list_head_for(j));
                    }
                    assert(self.wf_free_links(j));
                }
            }
        }
        assert forall|x: int|
            0 <= x < pre.num_headers() implies (#[trigger] self.hdr(x)).pool == pre.hdr(x).pool
            && ((self.hdr(x).prev_physical is None) <==> (pre.hdr(x).prev_physical is None)) by {
            if x != i && x != p_int && x != q_int {
                assert(self.hdr(x) == pre.hdr(x));
            }
        }
        Self::lemma_page_heads_preserved(pre, self, -1);
        assert(self.wf());
    }

    /// Takes the first block of bucket `(first_level, second_level)` out of
    /// the free lists, clearing its free flag and, when the bucket empties,
    /// its occupancy bits. Returns the block's header index, or `None` when
    /// the bucket is empty.
    fn take_block(&mut self, first_level: u32, second_level: u32) -> (r: Option<usize>)
        requires
            old(self).wf(),
            (first_level as int) < old(self).num_first_levels(),
            second_level < 32,
        ensures
            final(self).wf(),
            old(self).occupied(first_level as int, second_level as int) <==> r is Some,
            (r matches Some(i) ==> {
                &&& old(self).head_of(first_level as int, second_level as int) == Some(i)
                &&& old(self).is_free_block_at(i as int)
                &&& old(self).hdr_class(i as int) == (first_level as nat, second_level as nat)
                &&& final(self).hdr(i as int) == (BlockHeader {
                    free_flag: false,
                    ..old(self).hdr(i as int)
                })
                &&& final(self).num_headers() == old(self).num_headers()
                &&& final(self).page_pool@ == old(self).page_pool@
                &&& final(self).page_sizes@ == old(self).page_sizes@
                &&& final(self).num_first_levels() == old(self).num_first_levels()
                &&& forall|j: int|
                    0 <= j < old(self).num_headers() && j != i ==> {
                        &&& (#[trigger] final(self).hdr(j)).pool == old(self).hdr(j).pool
                        &&& final(self).hdr(j).size == old(self).hdr(j).size
                        &&& final(self).hdr(j).base_offset == old(self).hdr(j).base_offset
                        &&& final(self).hdr(j).free_flag == old(self).hdr(j).free_flag
                        &&& final(self).hdr(j).next_physical == old(self).hdr(j).next_physical
                        &&& final(self).hdr(j).prev_physical == old(self).hdr(j).prev_physical
                    }
                // the taken block's successor becomes the bucket's head and
                // inherits the first-of-list mark; the bucket's bits clear
                // exactly when it empties; no other class changes
                &&& final(self).head_of(first_level as int, second_level as int)
                    == old(self).hdr(i as int).next_free
                &&& (old(self).hdr(i as int).next_free matches Some(q) ==> final(self).hdr(
                    q as int,
                ).first_free_flag && final(self).hdr(q as int).prev_free is None)
                &&& forall|f: int, s: int|
                    #![trigger final(self).head_of(f, s)]
                    0 <= f < old(self).num_first_levels() && 0 <= s < 32 && !(f
                        == first_level as int && s == second_level as int)
                        ==> final(self).head_of(f, s) == old(self).head_of(f, s)
                &&& forall|f: int, s: int|
                    #![trigger final(self).occupied(f, s)]
                    final(self).occupied(f, s) <==> (old(self).occupied(f, s) && !(f
                        == first_level as int && s == second_level as int && old(self).hdr(
                        i as int,
                    ).next_free is None))
                &&& forall|j: int|
                    0 <= j < old(self).num_headers() && j != i && Some(j as usize)
                        != old(self).hdr(i as int).next_free ==> {
                        &&& (#[trigger] final(self).hdr(j)).next_free == old(self).hdr(
                            j,
                        ).next_free
                        &&& final(self).hdr(j).prev_free == old(self).hdr(j).prev_free
                        &&& final(self).hdr(j).first_free_flag == old(self).hdr(
                            j,
                        ).first_free_flag
                    }
            }),
            (r is None ==> *final(self) == *old(self)),
    {
        let head = self.segregated_lists[first_level as usize].list_headers[second_level as usize];
        match head {
            Some(i) => {
                proof {
                    assert(old(self).head_of(first_level as int, second_level as int) == Some(i));
                    assert(old(self).is_free_block_at(i as int));
                    assert(old(self).wf_header(i as int));
                    assert(old(self).hdr(i as int).first_free_flag);
                    assert(old(self).hdr(i as int).prev_free is None);
                    assert(old(self).hdr_class(i as int).0 as int == first_level as int && old(
                        self,
                    ).hdr_class(i as int).1 as int == second_level as int);
                }
                self.remove_free_block(i);
                Some(i)
            },
            None => None,
        }
    }

    /// After allocated block `i` of class `(first_level, second_level)` has
    /// been pushed onto the front of its bucket, its class bits set and its
    /// free flag raised, the allocator is well formed again. `self` is the
    /// state after the writes, `pre` the well-formed state before them.
    #[verifier::rlimit(100)]
    proof fn lemma_after_insert(self, pre: Self, i: int, first_level: u32, second_level: u32)
        requires
            pre.wf(),
            pre.is_live(i),
            !pre.hdr(i).free_flag,
            (pre.hdr(i).next_physical matches Some(t) ==> !pre.hdr(t as int).free_flag),
            (pre.hdr(i).prev_physical matches Some(t) ==> !pre.hdr(t as int).free_flag),
            (first_level as nat, second_level as nat) == pre.hdr_class(i),
            second_level < 32,
            (first_level as int) < pre.num_first_levels(),
            self.num_headers() == pre.num_headers(),
            self.page_pool@ == pre.page_pool@,
            self.page_sizes@ == pre.page_sizes@,
            self.header_free_list == pre.header_free_list,
            self.hdr(i) == (BlockHeader {
                free_flag: true,
                first_free_flag: true,
                prev_free: None,
                next_free: pre.head_of(first_level as int, second_level as int),
                ..pre.hdr(i)
            }),
            self.segregated_lists@ == pre.segregated_lists@.update(
                first_level as int,
                self.segregated_lists@[first_level as int],
            ),
            self.segregated_lists@[first_level as int].list_headers@
                == pre.segregated_lists@[first_level as int].list_headers@.update(
                second_level as int,
                Some(i as usize),
            ),
            forall|t: u32|
                t < 32 ==> (bit32(#[trigger] self.segregated_lists@[first_level as int].free_mask, t)
                    <==> (bit32(pre.segregated_lists@[first_level as int].free_mask, t) || t
                        == second_level)),
            forall|t: u32|
                t < 64 ==> (bit64(#[trigger] self.free_first_level_mask, t) <==> (bit64(
                    pre.free_first_level_mask,
                    t,
                ) || t == first_level)),
            match pre.head_of(first_level as int, second_level as int) {
                Some(h0) => {
                    &&& self.hdr(h0 as int) == (BlockHeader {
                        prev_free: Some(i as usize),
                        first_free_flag: false,
                        ..pre.hdr(h0 as int)
                    })
                    &&& forall|j: int|
                        0 <= j < pre.num_headers() && j != i && j != h0 as int ==> self.hdr(j)
                            == pre.hdr(j)
                },
                None => forall|j: int|
                    0 <= j < pre.num_headers() && j != i ==> self.hdr(j) == pre.hdr(j),
            },
        ensures
            self.wf(),
            self.occupied(first_level as int, second_level as int),
    {
        Self::lemma_arena_len_bound(pre);
        assert(pre.wf_header(i));
        let fl = first_level as int;
        let sl = second_level as int;
        let cls = (first_level as nat, second_level as nat);
        let ghost h0_int: int = match pre.head_of(fl, sl) {
            Some(h0) => h0 as int,
            None => -1,
        };
        if h0_int >= 0 {
            assert(pre.is_free_block_at(h0_int));
            assert(pre.wf_header(h0_int));
            assert(h0_int != i);
        }
        assert(self.wf_structure()) by {
            assert forall|f: int|
                0 <= f < self.num_first_levels() implies (#[trigger] self.segregated_lists@[f]).list_headers@.len()
                == 32 by {
                assert(pre.segregated_lists@[f].list_headers@.len() == 32);
            }
            assert forall|p: int| 0 <= p < self.num_pages() implies {
                &&& 32 <= #[trigger] self.page_size(p) <= usize::MAX
                &&& self.page_size(p) % 32 == 0
                &&& (block_class(self.page_size(p)).0 as int) < self.num_first_levels()
            } by {
                assert(32 <= pre.page_size(p));
            }
        }
        assert(self.occupied(fl, sl));
        assert(self.wf_masks()) by {
            assert forall|f: int, s: int|
                0 <= f < self.num_first_levels() && 0 <= s < 32 implies (#[trigger] self.occupied(
                f,
                s,
            ) <==> self.head_of(f, s) is Some) by {
                assert(pre.occupied(f, s) <==> pre.head_of(f, s) is Some);
            }
            assert forall|f: u32|
                f < 64 implies (#[trigger] bit64(self.free_first_level_mask, f) <==> ((f as int)
                < self.num_first_levels() && self.segregated_lists@[f as int].free_mask != 0)) by {
                assert(bit64(pre.free_first_level_mask, f) <==> ((f as int)
                    < pre.num_first_levels() && pre.segregated_lists@[f as int].free_mask != 0));
                if f == first_level {
                    assert(bit32(self.segregated_lists@[fl].free_mask, second_level));
                    lemma_bit32_zero(self.segregated_lists@[fl].free_mask);
                } else if (f as int) < self.num_first_levels() {
                    lemma_bit32_zero(self.segregated_lists@[f as int].free_mask);
                    lemma_bit32_zero(pre.segregated_lists@[f as int].free_mask);
                }
            }
        }
        assert forall|f: int, s: int|
            0 <= f < self.num_first_levels() && 0 <= s < 32 implies ((#[trigger] self.head_of(
            f,
            s,
        )) matches Some(t) ==> {
            &&& self.is_free_block_at(t as int)
            &&& self.hdr_class(t as int) == (f as nat, s as nat)
            &&& self.hdr(t as int).first_free_flag
        }) by {
            if f == fl && s == sl {
                assert(self.head_of(f, s) == Some(i as usize));
                assert(self.hdr_class(i) == cls);
            } else {
                assert(self.head_of(f, s) == pre.head_of(f, s));
                match pre.head_of(f, s) {
                    Some(t) => {
                        assert(pre.is_free_block_at(t as int));
                        assert(pre.hdr_class(t as int) == (f as nat, s as nat));
                        if t as int == i {
                            assert(false);
                        }
                        if h0_int >= 0 && t as int == h0_int {
                            assert(pre.hdr_class(h0_int) == cls);
                            assert(false);
                        }
                    },
                    None => {},
                }
            }
        }
        match self.header_free_list {
            Some(t) => {
                assert(pre.hdr(t as int).pool is None);
                assert(self.hdr(t as int) == pre.hdr(t as int));
            },
            None => {},
        }
        assert forall|j: int| 0 <= j < self.num_headers() implies self.wf_header(j) by {
            assert(pre.wf_header(j));
            let hj = pre.hdr(j);
            if j == i {
                assert(self.wf_physical_links(j));
                assert(self.wf_free_links(j));
            } else if j == h0_int {
                assert(self.hdr(j).prev_free == Some(i as usize));
                match pre.hdr(h0_int).next_free {
                    Some(r) => {
                        assert(pre.wf_header(r as int));
                        assert(pre.hdr(r as int).prev_free == Some(h0_int as usize));
                        assert(r as int != i);
                        assert(r as int != h0_int);
                        assert(self.hdr(r as int) == pre.hdr(r as int));
                    },
                    None => {},
                }
                assert(self.wf_free_links(j));
                assert(self.wf_physical_links(j));
            } else {
                if hj.pool is None || hj.free_flag {
                    if hj.next_free == Some(i as usize) || hj.prev_free == Some(i as usize) {
                        assert(false);
                    }
                    if h0_int >= 0 && hj.next_free == Some(h0_int as usize) {
                        assert(pre.hdr(h0_int).prev_free == Some(j as usize));
                        assert(pre.hdr(h0_int).prev_free is None);
                        assert(false);
                    }
                    if hj.first_free_flag && hj.pool is Some {
                        assert(pre.list_head_for(j) == Some(j as usize));
                        let cj = pre.hdr_class(j);
                        assert(self.hdr_class(j) == cj);
                        lemma_block_class(pre.hdr(j).size as nat);
                        assert(cj.1 < 32);
                        if cj.0 == cls.0 && cj.1 == cls.1 {
                            assert(cj == cls);
                            assert(pre.head_of(fl, sl) == Some(j as usize));
                            assert(j == h0_int);
                            assert(false);
                        }
                        assert(self.head_of(cj.0 as int, cj.1 as int) == pre.head_of(
                            cj.0 as int,
                            cj.1 as int,
                        ));
                        assert(self.list_head_for(j) == pre.list_head_for(j));
                    }
                    assert(self.wf_free_links(j));
                }
                if hj.pool is Some {
                    if hj.next_physical == Some(i as usize) {
                        // `j` is the physical predecessor of `i`, which the
                        // caller guaranteed is not free
                        assert(pre.hdr(i).prev_physical == Some(j as usize));
                        assert(!hj.free_flag);
                    }
                    assert(self.wf_physical_links(j));
                }
            }
        }
        assert forall|x: int|
            0 <= x < pre.num_headers() implies (#[trigger] self.hdr(x)).pool == pre.hdr(x).pool
            && ((self.hdr(x).prev_physical is None) <==> (pre.hdr(x).prev_physical is None)) by {
            if x != i && x != h0_int {
                assert(self.hdr(x) == pre.hdr(x));
            }
        }
        Self::lemma_page_heads_preserved(pre, self, -1);
        assert(self.wf());
    }

    /// Marks allocated block `i` free and inserts it at the front of its
    /// size class's free list, setting the class's occupancy bits. The
    /// block's physical neighbours must not be free, so no merge is needed.
    fn return_block_no_merge(&mut self, i: usize)
        requires
            old(self).wf(),
            old(self).is_live(i as int),
            !old(self).hdr(i as int).free_flag,
            (old(self).hdr(i as int).next_physical matches Some(t) ==> !old(self).hdr(
                t as int,
            ).free_flag),
            (old(self).hdr(i as int).prev_physical matches Some(t) ==> !old(self).hdr(
                t as int,
            ).free_flag),
        ensures
            final(self).wf(),
            final(self).is_free_block_at(i as int),
            final(self).hdr(i as int).pool == old(self).hdr(i as int).pool,
            final(self).hdr(i as int).size == old(self).hdr(i as int).size,
            final(self).hdr(i as int).base_offset == old(self).hdr(i as int).base_offset,
            final(self).hdr(i as int).next_physical == old(self).hdr(i as int).next_physical,
            final(self).hdr(i as int).prev_physical == old(self).hdr(i as int).prev_physical,
            final(self).occupied(
                old(self).hdr_class(i as int).0 as int,
                old(self).hdr_class(i as int).1 as int,
            ),
            final(self).head_of(
                old(self).hdr_class(i as int).0 as int,
                old(self).hdr_class(i as int).1 as int,
            ) == Some(i),
            forall|f: int, s: int|
                #![trigger final(self).occupied(f, s)]
                final(self).occupied(f, s) <==> (old(self).occupied(f, s) || (f == old(
                    self,
                ).hdr_class(i as int).0 as int && s == old(self).hdr_class(i as int).1 as int)),
            forall|f: int, s: int|
                #![trigger final(self).head_of(f, s)]
                0 <= f < old(self).num_first_levels() && 0 <= s < 32 && !(f == old(self).hdr_class(
                    i as int,
                ).0 as int && s == old(self).hdr_class(i as int).1 as int) ==> final(self).head_of(
                    f,
                    s,
                ) == old(self).head_of(f, s),
            forall|j: int|
                0 <= j < old(self).num_headers() && j != i && Some(j as usize) != old(
                    self,
                ).head_of(
                    old(self).hdr_class(i as int).0 as int,
                    old(self).hdr_class(i as int).1 as int,
                ) ==> {
                    &&& (#[trigger] final(self).hdr(j)).next_free == old(self).hdr(j).next_free
                    &&& final(self).hdr(j).prev_free == old(self).hdr(j).prev_free
                    &&& final(self).hdr(j).first_free_flag == old(self).hdr(j).first_free_flag
                },
            final(self).num_headers() == old(self).num_headers(),
            final(self).page_pool@ == old(self).page_pool@,
            final(self).page_sizes@ == old(self).page_sizes@,
            final(self).header_free_list == old(self).header_free_list,
            final(self).num_first_levels() == old(self).num_first_levels(),
            forall|j: int|
                0 <= j < old(self).num_headers() && j != i ==> {
                    &&& (#[trigger] final(self).hdr(j)).pool == old(self).hdr(j).pool
                    &&& final(self).hdr(j).size == old(self).hdr(j).size
                    &&& final(self).hdr(j).base_offset == old(self).hdr(j).base_offset
                    &&& final(self).hdr(j).free_flag == old(self).hdr(j).free_flag
                    &&& final(self).hdr(j).next_physical == old(self).hdr(j).next_physical
                    &&& final(self).hdr(j).prev_physical == old(self).hdr(j).prev_physical
                },
            forall|j: int|
                0 <= j < old(self).num_headers() && j != i && old(self).hdr(j).pool is None
                    ==> final(self).hdr(j) == old(self).hdr(j),
    {
        let ghost pre = *self;
        proof {
            assert(pre.wf_header(i as int));
            Self::lemma_arena_len_bound(pre);
        }
        let size = self.headers[i].size;
        let (first_level, second_level) = Self::map_block_size(size);
        proof {
            // the block fits its page, whose class is served: so is the block's
            let p = pre.hdr(i as int).pool->0;
            lemma_block_class(size as nat);
            lemma_block_class(pre.page_size(p as int));
            crate::size_class::lemma_log2_mono(size as nat, pre.page_size(p as int));
            assert((first_level as nat, second_level as nat) == pre.hdr_class(i as int));
            assert((first_level as int) < pre.num_first_levels());
        }
        let mask = self.segregated_lists[first_level as usize].free_mask;
        self.segregated_lists[first_level as usize].free_mask = mask | (1u32 << second_level);
        proof {
            lemma_bit32_set(mask, second_level);
        }
        self.free_first_level_mask = self.free_first_level_mask | (1u64 << (first_level as u64));
        proof {
            lemma_bit64_set(pre.free_first_level_mask, first_level);
        }
        let head = self.segregated_lists[first_level as usize].list_headers[second_level as usize];
        if let Some(h0) = head {
            proof {
                assert(pre.head_of(first_level as int, second_level as int) == Some(h0));
                assert(pre.is_free_block_at(h0 as int));
            }
            self.headers[h0].prev_free = Some(i);
            self.headers[h0].first_free_flag = false;
        }
        self.headers[i].next_free = head;
        self.headers[i].prev_free = None;
        self.headers[i].first_free_flag = true;
        self.headers[i].free_flag = true;
        self.segregated_lists[first_level as usize].list_headers[second_level as usize] = Some(i);
        proof {
            assert(self.segregated_lists@ =~= pre.segregated_lists@.update(
                first_level as int,
                self.segregated_lists@[first_level as int],
            ));
            assert(self.segregated_lists@[first_level as int].list_headers@
                =~= pre.segregated_lists@[first_level as int].list_headers@.update(
                second_level as int,
                Some(i),
            ));
            self.lemma_after_insert(pre, i as int, first_level, second_level);
            assert(pre.hdr_class(i as int).0 as int == first_level as int && pre.hdr_class(
                i as int,
            ).1 as int == second_level as int);
            assert forall|f: int, s: int|
                #![trigger self.head_of(f, s)]
                0 <= f < pre.num_first_levels() && 0 <= s < 32 && !(f == first_level as int && s
                    == second_level as int) implies self.head_of(f, s) == pre.head_of(f, s) by {
                if f != first_level as int {
                    assert(self.segregated_lists@[f] == pre.segregated_lists@[f]);
                }
            }
            assert(self.wf_header(i as int));
            assert(self.hdr(i as int).first_free_flag && self.hdr(i as int).pool is Some);
            assert(self.hdr_class(i as int) == (first_level as nat, second_level as nat));
            assert(self.list_head_for(i as int) == Some(i));
            assert(self.head_of(first_level as int, second_level as int) == Some(i)) by {
                let c = self.hdr_class(i as int);
                assert(c.0 as int == first_level as int && c.1 as int == second_level as int);
                assert(self.list_head_for(i as int) == self.head_of(c.0 as int, c.1 as int));
            }
            assert forall|f: int, s: int|
                #![trigger self.occupied(f, s)]
                self.occupied(f, s) <==> (pre.occupied(f, s) || (f == pre.hdr_class(
                    i as int,
                ).0 as int && s == pre.hdr_class(i as int).1 as int)) by {
                assert(pre.hdr_class(i as int).0 as int == first_level as int && pre.hdr_class(
                    i as int,
                ).1 as int == second_level as int);
                if 0 <= f < self.num_first_levels() && 0 <= s < 32 {
                    if f == first_level as int && s == second_level as int {
                        assert(self.occupied(f, s));
                    } else if f == first_level as int {
                        assert(bit32(self.segregated_lists@[f].free_mask, s as u32) <==> (bit32(
                            pre.segregated_lists@[f].free_mask,
                            s as u32,
                        ) || s as u32 == second_level));
                    } else {
                        assert(self.segregated_lists@[f] == pre.segregated_lists@[f]);
                    }
                }
            }
        }
    }

    /// Registering one more backing page extends the page table and touches
    /// nothing else, so the allocator stays well formed.
    proof fn lemma_wf_after_page_push(pre: Self, post: Self, size: nat)
        requires
            pre.wf(),
            32 <= size <= usize::MAX,
            size % 32 == 0,
            (block_class(size).0 as int) < pre.num_first_levels(),
            post.headers@ == pre.headers@,
            post.segregated_lists@ == pre.segregated_lists@,
            post.free_first_level_mask == pre.free_first_level_mask,
            post.header_free_list == pre.header_free_list,
            post.page_pool@.len() == pre.page_pool@.len() + 1,
            post.page_sizes@ == pre.page_sizes@.push(size),
        ensures
            post.wf(),
    {
        assert(post.wf_structure()) by {
            assert forall|f: int|
                0 <= f < post.num_first_levels() implies (#[trigger] post.segregated_lists@[f]).list_headers@.len()
                == 32 by {
                assert(pre.segregated_lists@[f].list_headers@.len() == 32);
            }
            assert forall|p: int| 0 <= p < post.num_pages() implies {
                &&& 32 <= #[trigger] post.page_size(p) <= usize::MAX
                &&& post.page_size(p) % 32 == 0
                &&& (block_class(post.page_size(p)).0 as int) < post.num_first_levels()
            } by {
                if p < pre.num_pages() {
                    assert(32 <= pre.page_size(p));
                    assert(post.page_size(p) == pre.page_size(p));
                }
            }
        }
        assert(post.wf_masks()) by {
            assert forall|f: int, s: int|
                0 <= f < post.num_first_levels() && 0 <= s < 32 implies (#[trigger] post.occupied(
                f,
                s,
            ) <==> post.head_of(f, s) is Some) by {
                assert(pre.occupied(f, s) <==> pre.head_of(f, s) is Some);
            }
            assert forall|f: u32|
                f < 64 implies (#[trigger] bit64(post.free_first_level_mask, f) <==> ((f as int)
                < post.num_first_levels() && post.segregated_lists@[f as int].free_mask != 0)) by {
                assert(bit64(pre.free_first_level_mask, f) <==> ((f as int)
                    < pre.num_first_levels() && pre.segregated_lists@[f as int].free_mask != 0));
            }
        }
        assert forall|f: int, s: int|
            0 <= f < post.num_first_levels() && 0 <= s < 32 implies ((#[trigger] post.head_of(
            f,
            s,
        )) matches Some(t) ==> {
            &&& post.is_free_block_at(t as int)
            &&& post.hdr_class(t as int) == (f as nat, s as nat)
            &&& post.hdr(t as int).first_free_flag
        }) by {
            assert(post.head_of(f, s) == pre.head_of(f, s));
            match pre.head_of(f, s) {
                Some(t) => {
                    assert(pre.is_free_block_at(t as int));
                },
                None => {},
            }
        }
        assert forall|j: int| 0 <= j < post.num_headers() implies post.wf_header(j) by {
            assert(pre.wf_header(j));
            assert(post.hdr(j) == pre.hdr(j));
            match pre.hdr(j).pool {
                Some(p) => {
                    assert(post.page_size(p as int) == pre.page_size(p as int));
                },
                None => {},
            }
        }
        Self::lemma_page_heads_preserved(pre, post, -1);
        assert(post.wf());
    }

    /// A detached header that has just been bound to a page, with no list
    /// membership and no physical neighbours, leaves the allocator well
    /// formed: nothing refers to it and its block covers a valid range.
    proof fn lemma_after_bind_detached(self, mid: Self, i: int, page: int, size: nat)
        requires
            mid.wf_except(i),
            0 <= page < mid.num_pages(),
            32 <= size <= usize::MAX,
            size % 32 == 0,
            size == mid.page_size(page),
            forall|j: int| mid.is_live(j) ==> (#[trigger] mid.hdr(j)).pool != Some(page as usize),
            self.hdr(i) == (BlockHeader {
                next_free: None,
                prev_free: None,
                next_physical: None,
                prev_physical: None,
                pool: Some(page as usize),
                size: size as usize,
                free_flag: false,
                first_free_flag: false,
                base_offset: 0,
            }),
            self.num_headers() == mid.num_headers(),
            self.segregated_lists@ == mid.segregated_lists@,
            self.free_first_level_mask == mid.free_first_level_mask,
            self.header_free_list == mid.header_free_list,
            self.page_pool@ == mid.page_pool@,
            self.page_sizes@ == mid.page_sizes@,
            forall|j: int| 0 <= j < mid.num_headers() && j != i ==> self.hdr(j) == mid.hdr(j),
        ensures
            self.wf(),
    {
        Self::lemma_arena_len_bound(mid);
        vstd::std_specs::vec::axiom_spec_len(&mid.page_pool);
        assert(self.wf_structure()) by {
            assert forall|f: int|
                0 <= f < self.num_first_levels() implies (#[trigger] self.segregated_lists@[f]).list_headers@.len()
                == 32 by {
                assert(mid.segregated_lists@[f].list_headers@.len() == 32);
            }
            assert forall|p: int| 0 <= p < self.num_pages() implies {
                &&& 32 <= #[trigger] self.page_size(p) <= usize::MAX
                &&& self.page_size(p) % 32 == 0
                &&& (block_class(self.page_size(p)).0 as int) < self.num_first_levels()
            } by {
                assert(32 <= mid.page_size(p));
            }
        }
        assert(self.wf_masks()) by {
            assert forall|f: int, s: int|
                0 <= f < self.num_first_levels() && 0 <= s < 32 implies (#[trigger] self.occupied(
                f,
                s,
            ) <==> self.head_of(f, s) is Some) by {
                assert(mid.occupied(f, s) <==> mid.head_of(f, s) is Some);
            }
            assert forall|f: u32|
                f < 64 implies (#[trigger] bit64(self.free_first_level_mask, f) <==> ((f as int)
                < self.num_first_levels() && self.segregated_lists@[f as int].free_mask != 0)) by {
                assert(bit64(mid.free_first_level_mask, f) <==> ((f as int)
                    < mid.num_first_levels() && mid.segregated_lists@[f as int].free_mask != 0));
            }
        }
        assert forall|f: int, s: int|
            0 <= f < self.num_first_levels() && 0 <= s < 32 implies ((#[trigger] self.head_of(
            f,
            s,
        )) matches Some(t) ==> {
            &&& self.is_free_block_at(t as int)
            &&& self.hdr_class(t as int) == (f as nat, s as nat)
            &&& self.hdr(t as int).first_free_flag
        }) by {
            assert(self.head_of(f, s) == mid.head_of(f, s));
            match mid.head_of(f, s) {
                Some(t) => {
                    assert(mid.is_free_block_at(t as int));
                    assert(t as int != i);
                },
                None => {},
            }
        }
        match self.header_free_list {
            Some(t) => {
                assert(mid.hdr(t as int).pool is None);
                assert(t as int != i);
                assert(self.hdr(t as int) == mid.hdr(t as int));
            },
            None => {},
        }
        assert forall|j: int| 0 <= j < self.num_headers() implies self.wf_header(j) by {
            if j == i {
                assert(self.wf_physical_links(j));
                assert(self.wf_header(j));
            } else {
                assert(mid.wf_header(j));
                let hj = mid.hdr(j);
                assert(self.hdr(j) == hj);
                if hj.pool is None || hj.free_flag {
                    assert(hj.next_free != Some(i as usize) && hj.prev_free != Some(i as usize));
                    if hj.first_free_flag && hj.pool is Some {
                        assert(mid.list_head_for(j) == Some(j as usize));
                        assert(self.list_head_for(j) == mid.list_head_for(j));
                    }
                    assert(self.wf_free_links(j));
                }
                if hj.pool is Some {
                    if hj.next_physical == Some(i as usize) || hj.prev_physical == Some(
                        i as usize,
                    ) {
                        // physical links of live headers reach only live
                        // headers, and `i` was unbound
                        assert(false);
                    }
                    assert(self.wf_physical_links(j));
                    match hj.pool {
                        Some(p) => {
                            assert(self.page_size(p as int) == mid.page_size(p as int));
                        },
                        None => {},
                    }
                }
                assert(self.wf_header(j));
            }
        }
        // the bound block is the sole chain head of its fresh page
        assert forall|x: int, y: int|
            #![trigger self.is_page_head(x), self.is_page_head(y)]
            self.is_page_head(x) && self.is_page_head(y) && self.hdr(x).pool == self.hdr(
                y,
            ).pool implies x == y by {
            if self.is_page_head(x) && self.is_page_head(y) && self.hdr(x).pool == self.hdr(
                y,
            ).pool {
                if x == i && y != i {
                    assert(self.hdr(y) == mid.hdr(y));
                    assert(mid.is_live(y) && mid.hdr(y).pool == Some(page as usize));
                    assert(false);
                } else if y == i && x != i {
                    assert(self.hdr(x) == mid.hdr(x));
                    assert(mid.is_live(x) && mid.hdr(x).pool == Some(page as usize));
                    assert(false);
                } else if x != i && y != i {
                    assert(self.hdr(x) == mid.hdr(x) && self.hdr(y) == mid.hdr(y));
                    assert(mid.is_page_head(x) && mid.is_page_head(y));
                }
            }
        }
        assert(self.wf());
    }

    /// Registers a backing region of `size` bytes: the whole region becomes
    /// one free block, available to subsequent allocations. The page itself
    /// is kept for the allocator's lifetime.
    pub fn new_page(&mut self, page: T, size: usize)
        requires
            old(self).wf(),
            MIN_BLOCK_SIZE <= size,
            size % MIN_BLOCK_SIZE == 0,
            (block_class(size as nat).0 as int) < old(self).num_first_levels(),
        ensures
            final(self).wf(),
            final(self).num_pages() == old(self).num_pages() + 1,
            final(self).page_pool@ == old(self).page_pool@.push(page),
            final(self).page_sizes@ == old(self).page_sizes@.push(size as nat),
            final(self).occupied(
                block_class(size as nat).0 as int,
                block_class(size as nat).1 as int,
            ),
            // the whole region is one free block: first of its class's
            // list, spanning [0, size) of the new page, alone in its
            // physical list
            (match final(self).head_of(
                block_class(size as nat).0 as int,
                block_class(size as nat).1 as int,
            ) {
                Some(b) => {
                    &&& final(self).is_free_block_at(b as int)
                    &&& final(self).hdr(b as int).base_offset == 0
                    &&& final(self).hdr(b as int).size == size
                    &&& (match final(self).hdr(b as int).pool {
                        Some(q) => q as int == old(self).num_pages(),
                        None => false,
                    })
                    &&& final(self).hdr(b as int).next_physical is None
                    &&& final(self).hdr(b as int).prev_physical is None
                },
                None => false,
            }),
            // occupancy grows by exactly the new block's class
            forall|f: int, s: int|
                #![trigger final(self).occupied(f, s)]
                final(self).occupied(f, s) <==> (old(self).occupied(f, s) || (f == block_class(
                    size as nat,
                ).0 as int && s == block_class(size as nat).1 as int)),
            // existing headers keep their page, place, size, state and
            // physical links
            forall|j: int|
                0 <= j < old(self).num_headers() && old(self).hdr(j).pool is Some ==> {
                    &&& (#[trigger] final(self).hdr(j)).pool == old(self).hdr(j).pool
                    &&& final(self).hdr(j).size == old(self).hdr(j).size
                    &&& final(self).hdr(j).base_offset == old(self).hdr(j).base_offset
                    &&& final(self).hdr(j).free_flag == old(self).hdr(j).free_flag
                    &&& final(self).hdr(j).next_physical == old(self).hdr(j).next_physical
                    &&& final(self).hdr(j).prev_physical == old(self).hdr(j).prev_physical
                },
    {
        let ghost pre = *self;
        self.page_pool.push(page);
        proof {
            self.page_sizes@ = pre.page_sizes@.push(size as nat);
            Self::lemma_wf_after_page_push(pre, *self, size as nat);
        }
        let ghost paged = *self;
        let page_index = self.page_pool.len() - 1;
        let block = self.allocate_block_header();
        let ghost mid = *self;
        proof {
            assert(mid.page_size(page_index as int) == size as nat);
            // no existing block lives on the fresh page
            assert forall|j: int| mid.is_live(j) implies (#[trigger] mid.hdr(j)).pool != Some(
                page_index,
            ) by {
                if j < paged.num_headers() {
                    if paged.hdr(j).pool is Some {
                        assert(mid.hdr(j) == paged.hdr(j));
                        assert(paged.hdr(j) == pre.hdr(j));
                        assert(pre.wf_header(j));
                    } else {
                        assert(mid.hdr(j).pool is None);
                    }
                } else {
                    assert(mid.hdr(j).pool is None);
                }
            }
        }
        self.headers[block] = BlockHeader {
            next_free: None,
            prev_free: None,
            next_physical: None,
            prev_physical: None,
            pool: Some(page_index),
            size,
            free_flag: false,
            first_free_flag: false,
            base_offset: 0,
        };
        proof {
            self.lemma_after_bind_detached(mid, block as int, page_index as int, size as nat);
            assert(self.hdr_class(block as int) == block_class(size as nat));
        }
        let ghost bound = *self;
        self.return_block_no_merge(block);
        proof {
            let cls = block_class(size as nat);
            assert(self.head_of(cls.0 as int, cls.1 as int) == Some(block));
            assert(self.is_free_block_at(block as int));
            assert forall|f: int, s: int|
                #![trigger self.occupied(f, s)]
                self.occupied(f, s) <==> (old(self).occupied(f, s) || (f == cls.0 as int && s
                    == cls.1 as int)) by {
                assert(self.occupied(f, s) <==> (bound.occupied(f, s) || (f == bound.hdr_class(
                    block as int,
                ).0 as int && s == bound.hdr_class(block as int).1 as int)));
                assert(bound.segregated_lists@ == old(self).segregated_lists@);
            }
            assert forall|j: int|
                0 <= j < old(self).num_headers() && old(self).hdr(j).pool is Some implies {
                &&& (#[trigger] self.hdr(j)).pool == old(self).hdr(j).pool
                &&& self.hdr(j).size == old(self).hdr(j).size
                &&& self.hdr(j).base_offset == old(self).hdr(j).base_offset
                &&& self.hdr(j).free_flag == old(self).hdr(j).free_flag
                &&& self.hdr(j).next_physical == old(self).hdr(j).next_physical
                &&& self.hdr(j).prev_physical == old(self).hdr(j).prev_physical
            } by {
                assert(mid.hdr(j) == old(self).hdr(j));
                if j == block as int {
                    assert(mid.hdr(j).pool is None);
                    assert(false);
                }
                assert(bound.hdr(j) == mid.hdr(j));
            }
        }
    }

    /// After allocated block `i` has been split — its tail handed to the
    /// fresh header `hi` and spliced into the physical list right after `i`
    /// — the allocator is well formed again. `mid` is the state before the
    /// writes, in which `hi` was detached.
    #[verifier::rlimit(100)]
    proof fn lemma_after_split(self, mid: Self, i: int, hi: int, rounded: nat)
        requires
            mid.wf_except(hi),
            mid.is_live(i),
            !mid.hdr(i).free_flag,
            i != hi,
            32 <= rounded,
            rounded % 32 == 0,
            rounded < mid.hdr(i).size,
            self.num_headers() == mid.num_headers(),
            self.segregated_lists@ == mid.segregated_lists@,
            self.free_first_level_mask == mid.free_first_level_mask,
            self.header_free_list == mid.header_free_list,
            self.page_pool@ == mid.page_pool@,
            self.page_sizes@ == mid.page_sizes@,
            self.hdr(hi) == (BlockHeader {
                next_free: None,
                prev_free: None,
                next_physical: mid.hdr(i).next_physical,
                prev_physical: Some(i as usize),
                pool: mid.hdr(i).pool,
                size: (mid.hdr(i).size - rounded) as usize,
                free_flag: false,
                first_free_flag: false,
                base_offset: (mid.hdr(i).base_offset + rounded) as usize,
            }),
            self.hdr(i) == (BlockHeader {
                size: rounded as usize,
                next_physical: Some(hi as usize),
                ..mid.hdr(i)
            }),
            match mid.hdr(i).next_physical {
                Some(k) => {
                    &&& self.hdr(k as int) == (BlockHeader {
                        prev_physical: Some(hi as usize),
                        ..mid.hdr(k as int)
                    })
                    &&& forall|j: int|
                        0 <= j < mid.num_headers() && j != i && j != hi && j != k as int
                            ==> self.hdr(j) == mid.hdr(j)
                },
                None => forall|j: int|
                    0 <= j < mid.num_headers() && j != i && j != hi ==> self.hdr(j) == mid.hdr(j),
            },
        ensures
            self.wf(),
            !self.hdr(hi).free_flag,
    {
        Self::lemma_arena_len_bound(mid);
        assert(mid.wf_header(i));
        let ghost k_int: int = match mid.hdr(i).next_physical {
            Some(k) => k as int,
            None => -1,
        };
        if k_int >= 0 {
            assert(mid.wf_header(k_int));
            assert(mid.hdr(k_int).base_offset == mid.hdr(i).base_offset + mid.hdr(i).size);
            assert(k_int != i);
            assert(k_int != hi);
        }
        assert(self.wf_structure()) by {
            assert forall|f: int|
                0 <= f < self.num_first_levels() implies (#[trigger] self.segregated_lists@[f]).list_headers@.len()
                == 32 by {
                assert(mid.segregated_lists@[f].list_headers@.len() == 32);
            }
            assert forall|p: int| 0 <= p < self.num_pages() implies {
                &&& 32 <= #[trigger] self.page_size(p) <= usize::MAX
                &&& self.page_size(p) % 32 == 0
                &&& (block_class(self.page_size(p)).0 as int) < self.num_first_levels()
            } by {
                assert(32 <= mid.page_size(p));
            }
        }
        assert(self.wf_masks()) by {
            assert forall|f: int, s: int|
                0 <= f < self.num_first_levels() && 0 <= s < 32 implies (#[trigger] self.occupied(
                f,
                s,
            ) <==> self.head_of(f, s) is Some) by {
                assert(mid.occupied(f, s) <==> mid.head_of(f, s) is Some);
            }
            assert forall|f: u32|
                f < 64 implies (#[trigger] bit64(self.free_first_level_mask, f) <==> ((f as int)
                < self.num_first_levels() && self.segregated_lists@[f as int].free_mask != 0)) by {
                assert(bit64(mid.free_first_level_mask, f) <==> ((f as int)
                    < mid.num_first_levels() && mid.segregated_lists@[f as int].free_mask != 0));
            }
        }
        assert forall|f: int, s: int|
            0 <= f < self.num_first_levels() && 0 <= s < 32 implies ((#[trigger] self.head_of(
            f,
            s,
        )) matches Some(t) ==> {
            &&& self.is_free_block_at(t as int)
            &&& self.hdr_class(t as int) == (f as nat, s as nat)
            &&& self.hdr(t as int).first_free_flag
        }) by {
            assert(self.head_of(f, s) == mid.head_of(f, s));
            match mid.head_of(f, s) {
                Some(t) => {
                    assert(mid.is_free_block_at(t as int));
                    assert(t as int != i);
                    assert(t as int != hi);
                    if k_int >= 0 && t as int == k_int {
                        assert(self.hdr(t as int).free_flag == mid.hdr(t as int).free_flag);
                        assert(self.hdr(t as int).size == mid.hdr(t as int).size);
                        assert(self.hdr(t as int).first_free_flag == mid.hdr(
                            t as int,
                        ).first_free_flag);
                    }
                },
                None => {},
            }
        }
        match self.header_free_list {
            Some(t) => {
                assert(mid.hdr(t as int).pool is None);
                assert(t as int != i);
                assert(t as int != hi);
                assert(t as int != k_int);
                assert(self.hdr(t as int) == mid.hdr(t as int));
            },
            None => {},
        }
        assert forall|j: int| 0 <= j < self.num_headers() implies self.wf_header(j) by {
            if j == i {
                assert(self.wf_physical_links(j));
                assert(self.wf_header(j));
            } else if j == hi {
                assert(self.wf_physical_links(j));
                assert(self.wf_header(j));
            } else {
                assert(mid.wf_header(j));
                let hj = mid.hdr(j);
                if hj.pool is None || hj.free_flag {
                    assert(hj.next_free != Some(hi as usize) && hj.prev_free != Some(
                        hi as usize,
                    ));
                    if hj.next_free == Some(i as usize) || hj.prev_free == Some(i as usize) {
                        // a used block is on no free list
                        assert(false);
                    }
                    if j == k_int {
                        assert(self.hdr(j).free_flag == hj.free_flag);
                    }
                    if hj.first_free_flag && hj.pool is Some {
                        assert(mid.list_head_for(j) == Some(j as usize));
                        assert(self.list_head_for(j) == mid.list_head_for(j));
                    }
                    assert(self.wf_free_links(j));
                }
                if hj.pool is Some {
                    if hj.next_physical == Some(hi as usize) || hj.prev_physical == Some(
                        hi as usize,
                    ) {
                        assert(false);
                    }
                    if hj.next_physical == Some(i as usize) {
                        assert(mid.hdr(i).prev_physical == Some(j as usize));
                    }
                    if hj.prev_physical == Some(i as usize) {
                        assert(mid.hdr(i).next_physical == Some(j as usize));
                        assert(j == k_int);
                    }
                    if k_int >= 0 && hj.next_physical == Some(k_int as usize) && j != i {
                        assert(mid.hdr(k_int).prev_physical == Some(j as usize));
                        assert(mid.hdr(k_int).prev_physical == Some(i as usize));
                        assert(false);
                    }
                    assert(self.wf_physical_links(j));
                }
                assert(self.wf_header(j));
            }
        }
        assert forall|x: int|
            0 <= x < mid.num_headers() && x != hi implies (#[trigger] self.hdr(x)).pool
            == mid.hdr(x).pool && ((self.hdr(x).prev_physical is None) <==> (mid.hdr(
            x,
        ).prev_physical is None)) by {
            if x != i && x != k_int {
                assert(self.hdr(x) == mid.hdr(x));
            }
        }
        assert(!self.is_page_head(hi));
        Self::lemma_page_heads_preserved(mid, self, hi);
        assert(self.wf());
    }

    /// Serves a request of `size` bytes: finds the first occupied class
    /// that is certainly large enough, takes its first block, splits off
    /// everything beyond the rounded request as a new free block, and hands
    /// back a handle naming the served block's page and byte offset.
    /// Returns `None`, changing nothing, exactly when no occupied class is
    /// at or above the request's class; registering another page is then
    /// the caller's recourse.
    #[verifier::rlimit(100)]
    pub fn allocate(&mut self, size: usize) -> (r: Option<Allocation>)
        requires
            old(self).wf(),
            1 <= size,
        ensures
            final(self).wf(),
            final(self).page_pool@ == old(self).page_pool@,
            final(self).page_sizes@ == old(self).page_sizes@,
            (r is Some <==> exists|f: int, s: int|
                (#[trigger] old(self).occupied(f, s)) && class_le(
                    request_class(size as nat),
                    (f as nat, s as nat),
                )),
            (r matches Some(a) ==> {
                &&& final(self).is_live(a.header as int)
                &&& !final(self).hdr(a.header as int).free_flag
                &&& final(self).hdr(a.header as int).base_offset == a.offset
                &&& final(self).hdr(a.header as int).pool == Some(a.pool)
                &&& (a.pool as int) < final(self).num_pages()
                &&& final(self).hdr(a.header as int).size == round_up_to_min_block(size as nat)
                &&& a.offset % MIN_BLOCK_SIZE == 0
                &&& a.offset + round_up_to_min_block(size as nat) <= final(self).page_size(
                    a.pool as int,
                )
                // the block is served from the first occupied class at or
                // above the request's class
                &&& old(self).is_free_block_at(a.header as int)
                &&& class_le(request_class(size as nat), old(self).hdr_class(a.header as int))
                &&& forall|f: int, s: int|
                    #![trigger old(self).occupied(f, s)]
                    old(self).occupied(f, s) && class_lt(
                        (f as nat, s as nat),
                        old(self).hdr_class(a.header as int),
                    ) ==> class_lt((f as nat, s as nat), request_class(size as nat))
                // and it is that class's first block, at its old place
                &&& a.offset == old(self).hdr(a.header as int).base_offset
                &&& old(self).head_of(
                    old(self).hdr_class(a.header as int).0 as int,
                    old(self).hdr_class(a.header as int).1 as int,
                ) == Some(a.header)
                // an exact fit is served whole; a larger block is split and
                // its tail becomes a free block right behind the served one
                &&& (old(self).hdr(a.header as int).size == round_up_to_min_block(size as nat)
                    ==> final(self).hdr(a.header as int).next_physical == old(self).hdr(
                        a.header as int,
                    ).next_physical && final(self).num_headers() == old(self).num_headers())
                &&& (old(self).hdr(a.header as int).size > round_up_to_min_block(size as nat)
                    ==> (match final(self).hdr(a.header as int).next_physical {
                        Some(t) => {
                            &&& final(self).is_free_block_at(t as int)
                            &&& final(self).hdr(t as int).pool == Some(a.pool)
                            &&& final(self).hdr(t as int).base_offset == a.offset
                                + round_up_to_min_block(size as nat)
                            &&& final(self).hdr(t as int).size == old(self).hdr(
                                a.header as int,
                            ).size - round_up_to_min_block(size as nat)
                            &&& final(self).hdr(t as int).prev_physical == Some(a.header)
                        },
                        None => false,
                    }))
                // every other header keeps its page, place, size and state
                &&& forall|j: int|
                    0 <= j < old(self).num_headers() && j != a.header && old(self).hdr(
                        j,
                    ).pool is Some ==> {
                        &&& (#[trigger] final(self).hdr(j)).pool == old(self).hdr(j).pool
                        &&& final(self).hdr(j).size == old(self).hdr(j).size
                        &&& final(self).hdr(j).base_offset == old(self).hdr(j).base_offset
                        &&& final(self).hdr(j).free_flag == old(self).hdr(j).free_flag
                    }
                // the free-list index after the call: the served class's
                // bits clear exactly when its bucket emptied, the split
                // tail's class gains its bit with the tail at its head, and
                // every other class keeps its bits, its head and the links
                // of its blocks
                &&& ({
                    let served = old(self).hdr_class(a.header as int);
                    let leftover = old(self).hdr(a.header as int).size - round_up_to_min_block(
                        size as nat,
                    );
                    &&& forall|f: int, s: int|
                        #![trigger final(self).occupied(f, s)]
                        final(self).occupied(f, s) <==> ((old(self).occupied(f, s) && !(f
                            == served.0 as int && s == served.1 as int && old(self).hdr(
                            a.header as int,
                        ).next_free is None)) || (leftover > 0 && f == block_class(
                            leftover as nat,
                        ).0 as int && s == block_class(leftover as nat).1 as int))
                    &&& (leftover > 0 ==> (match final(self).hdr(
                        a.header as int,
                    ).next_physical {
                        Some(t) => final(self).head_of(
                            block_class(leftover as nat).0 as int,
                            block_class(leftover as nat).1 as int,
                        ) == Some(t),
                        None => false,
                    }))
                    &&& (leftover == 0 ==> final(self).head_of(served.0 as int, served.1 as int)
                        == old(self).hdr(a.header as int).next_free)
                    &&& forall|f: int, s: int|
                        #![trigger final(self).head_of(f, s)]
                        0 <= f < old(self).num_first_levels() && 0 <= s < 32 && !(f
                            == served.0 as int && s == served.1 as int) && !(leftover > 0 && f
                            == block_class(leftover as nat).0 as int && s == block_class(
                            leftover as nat,
                        ).1 as int) ==> final(self).head_of(f, s) == old(self).head_of(f, s)
                    &&& forall|j: int|
                        0 <= j < old(self).num_headers() && j != a.header && old(self).hdr(
                            j,
                        ).pool is Some && old(self).hdr_class(j) != served && (leftover == 0
                            || old(self).hdr_class(j) != block_class(leftover as nat)) ==> {
                            &&& (#[trigger] final(self).hdr(j)).next_free == old(self).hdr(
                                j,
                            ).next_free
                            &&& final(self).hdr(j).prev_free == old(self).hdr(j).prev_free
                            &&& final(self).hdr(j).first_free_flag == old(self).hdr(
                                j,
                            ).first_free_flag
                        }
                })
            }),
            (r is None ==> *final(self) == *old(self)),
    {
        let found = self.find_free_block_index(size);
        match found {
            None => {
                proof {
                    assert forall|f: int, s: int|
                        !((#[trigger] old(self).occupied(f, s)) && class_le(
                            request_class(size as nat),
                            (f as nat, s as nat),
                        )) by {
                        if old(self).occupied(f, s) {
                            let c = (f as nat, s as nat);
                            let rc = request_class(size as nat);
                            assert(class_lt(c, rc));
                            if class_le(rc, c) {
                                assert(c == (c.0, c.1) && rc == (rc.0, rc.1));
                                assert(false);
                            }
                        }
                    }
                }
                None
            },
            Some((first_level, second_level)) => {
                proof {
                    assert(self.occupied(first_level as int, second_level as int));
                }
                let taken = self.take_block(first_level, second_level);
                let i: usize;
                match taken {
                    Some(t) => {
                        i = t;
                    },
                    None => {
                        proof {
                            assert(false);
                        }
                        i = 0;
                    },
                }
                let ghost post_take = *self;
                let block_size = self.headers[i].size;
                proof {
                    assert(old(self).wf_header(i as int));
                    assert(block_size == old(self).hdr(i as int).size);
                    assert(block_class(block_size as nat) == old(self).hdr_class(i as int));
                    assert(old(self).head_of(
                        old(self).hdr_class(i as int).0 as int,
                        old(self).hdr_class(i as int).1 as int,
                    ) == Some(i));
                    lemma_request_class(size as nat);
                    crate::size_class::lemma_round_up(size as nat);
                    lemma_block_serves_request(block_size as nat, size as nat);
                    vstd::arithmetic::div_mod::lemma_hoist_over_denominator(
                        size as int - 1,
                        1,
                        32,
                    );
                }
                let rounded = ((size - 1) / 32 + 1) * 32;
                proof {
                    assert(rounded as nat == round_up_to_min_block(size as nat));
                    assert(rounded <= block_size);
                }
                if block_size > rounded {
                    let hi = self.allocate_block_header();
                    let ghost mid = *self;
                    proof {
                        assert(mid.wf_header(i as int));
                        assert(i != hi);
                    }
                    let cur = self.headers[i];
                    let split_size = cur.size - rounded;
                    self.headers[hi] = BlockHeader {
                        next_free: None,
                        prev_free: None,
                        next_physical: cur.next_physical,
                        prev_physical: Some(i),
                        pool: cur.pool,
                        size: split_size,
                        free_flag: false,
                        first_free_flag: false,
                        base_offset: cur.base_offset + rounded,
                    };
                    self.headers[i].size = rounded;
                    self.headers[i].next_physical = Some(hi);
                    if let Some(k) = cur.next_physical {
                        proof {
                            assert(mid.is_live(k as int));
                            assert(k != hi);
                            assert(mid.hdr(k as int).base_offset == mid.hdr(i as int).base_offset
                                + mid.hdr(i as int).size);
                            assert(k != i);
                        }
                        self.headers[k].prev_physical = Some(hi);
                    }
                    proof {
                        self.lemma_after_split(mid, i as int, hi as int, rounded as nat);
                        // the tail cannot border another free block: the
                        // served block was free a moment ago, so its old
                        // physical successor is not free
                        match self.hdr(hi as int).next_physical {
                            Some(t) => {
                                assert(old(self).hdr(i as int).next_physical == Some(t));
                                assert(old(self).is_free_block_at(i as int));
                                assert(!old(self).hdr(t as int).free_flag);
                                assert(mid.hdr(t as int).free_flag == old(self).hdr(
                                    t as int,
                                ).free_flag);
                                assert(!self.hdr(t as int).free_flag);
                            },
                            None => {},
                        }
                    }
                    let ghost post_split = *self;
                    self.return_block_no_merge(hi);
                    proof {
                        Self::lemma_arena_len_bound(*old(self));
                        Self::lemma_arena_len_bound(post_split);
                        assert(self.hdr(i as int).size == rounded);
                        assert(self.hdr(i as int).base_offset == old(self).hdr(
                            i as int,
                        ).base_offset);
                        // the split tail right behind the served block
                        assert(self.hdr(i as int).next_physical == Some(hi));
                        assert(self.is_free_block_at(hi as int));
                        assert(self.hdr(hi as int).pool == old(self).hdr(i as int).pool);
                        assert(self.hdr(hi as int).size == block_size - rounded);
                        assert(self.hdr(hi as int).base_offset == old(self).hdr(
                            i as int,
                        ).base_offset + rounded);
                        assert(self.hdr(hi as int).prev_physical == Some(i));
                        // every other live header of the starting state kept
                        // its page, place, size and state
                        assert forall|j: int|
                            0 <= j < old(self).num_headers() && j != i && old(self).hdr(
                                j,
                            ).pool is Some implies {
                            &&& (#[trigger] self.hdr(j)).pool == old(self).hdr(j).pool
                            &&& self.hdr(j).size == old(self).hdr(j).size
                            &&& self.hdr(j).base_offset == old(self).hdr(j).base_offset
                            &&& self.hdr(j).free_flag == old(self).hdr(j).free_flag
                        } by {
                            assert(post_take.hdr(j).pool == old(self).hdr(j).pool
                                && post_take.hdr(j).size == old(self).hdr(j).size
                                && post_take.hdr(j).base_offset == old(self).hdr(j).base_offset
                                && post_take.hdr(j).free_flag == old(self).hdr(j).free_flag);
                            assert(mid.hdr(j) == post_take.hdr(j));
                            if j == hi as int {
                                assert(mid.hdr(j).pool is None);
                                assert(false);
                            }
                            assert(post_split.hdr(j).pool == mid.hdr(j).pool && post_split.hdr(
                                j,
                            ).size == mid.hdr(j).size && post_split.hdr(j).base_offset == mid.hdr(
                                j,
                            ).base_offset && post_split.hdr(j).free_flag == mid.hdr(j).free_flag);
                            assert(self.hdr(j).pool == post_split.hdr(j).pool && self.hdr(j).size
                                == post_split.hdr(j).size && self.hdr(j).base_offset
                                == post_split.hdr(j).base_offset && self.hdr(j).free_flag
                                == post_split.hdr(j).free_flag);
                        }
                        // the index, chained through take, the split writes
                        // and the tail's insertion
                        let fl = first_level as int;
                        let sl = second_level as int;
                        let tail = block_class(split_size as nat);
                        assert(old(self).hdr_class(i as int).0 as int == fl && old(
                            self,
                        ).hdr_class(i as int).1 as int == sl);
                        assert(post_split.hdr(hi as int).size == split_size);
                        assert(post_split.hdr_class(hi as int) == tail);
                        assert(post_split.hdr_class(hi as int).0 as int == tail.0 as int
                            && post_split.hdr_class(hi as int).1 as int == tail.1 as int);
                        assert(post_split.segregated_lists@ == post_take.segregated_lists@);
                        assert forall|f: int, s: int|
                            #![trigger self.occupied(f, s)]
                            self.occupied(f, s) <==> ((old(self).occupied(f, s) && !(f == fl && s
                                == sl && old(self).hdr(i as int).next_free is None)) || (f
                                == tail.0 as int && s == tail.1 as int)) by {
                            assert(post_take.occupied(f, s) <==> (old(self).occupied(f, s) && !(f
                                == fl && s == sl && old(self).hdr(i as int).next_free is None)));
                            assert(post_split.occupied(f, s) <==> post_take.occupied(f, s));
                            assert(self.occupied(f, s) <==> (post_split.occupied(f, s) || (f
                                == post_split.hdr_class(hi as int).0 as int && s
                                == post_split.hdr_class(hi as int).1 as int)));
                        }
                        assert(self.head_of(tail.0 as int, tail.1 as int) == Some(hi));
                        assert forall|f: int, s: int|
                            #![trigger self.head_of(f, s)]
                            0 <= f < old(self).num_first_levels() && 0 <= s < 32 && !(f == fl && s
                                == sl) && !(f == tail.0 as int && s == tail.1 as int) implies self.head_of(
                            f,
                            s,
                        ) == old(self).head_of(f, s) by {
                            assert(post_take.head_of(f, s) == old(self).head_of(f, s));
                            assert(post_split.head_of(f, s) == post_take.head_of(f, s));
                            assert(self.head_of(f, s) == post_split.head_of(f, s));
                        }
                        assert forall|j: int|
                            0 <= j < old(self).num_headers() && j != i && old(self).hdr(
                                j,
                            ).pool is Some && old(self).hdr_class(j) != old(self).hdr_class(
                                i as int,
                            ) && old(self).hdr_class(j) != tail implies {
                            &&& (#[trigger] self.hdr(j)).next_free == old(self).hdr(j).next_free
                            &&& self.hdr(j).prev_free == old(self).hdr(j).prev_free
                            &&& self.hdr(j).first_free_flag == old(self).hdr(j).first_free_flag
                        } by {
                            if Some(j as usize) == old(self).hdr(i as int).next_free {
                                // the served head's successor shares its class
                                assert(old(self).wf_header(i as int));
                                assert(old(self).wf_free_links(i as int));
                                assert(old(self).on_same_free_list(i as int, j));
                                assert(old(self).hdr_class(j) == old(self).hdr_class(i as int));
                                assert(false);
                            }
                            assert(post_take.hdr(j).next_free == old(self).hdr(j).next_free
                                && post_take.hdr(j).prev_free == old(self).hdr(j).prev_free
                                && post_take.hdr(j).first_free_flag == old(self).hdr(
                                j,
                            ).first_free_flag);
                            assert(mid.hdr(j) == post_take.hdr(j));
                            if j == hi as int {
                                assert(mid.hdr(j).pool is None);
                                assert(false);
                            }
                            assert(post_split.hdr(j).next_free == mid.hdr(j).next_free
                                && post_split.hdr(j).prev_free == mid.hdr(j).prev_free
                                && post_split.hdr(j).first_free_flag == mid.hdr(
                                j,
                            ).first_free_flag);
                            if Some(j as usize) == post_split.head_of(
                                tail.0 as int,
                                tail.1 as int,
                            ) {
                                // the tail class's old head is a free block
                                // of that very class
                                assert(post_split.wf());
                                assert((tail.0 as int) < post_split.num_first_levels() && tail.1
                                    < 32) by {
                                    assert(post_split.wf_header(hi as int));
                                    lemma_block_class(split_size as nat);
                                }
                                assert(((tail.0 as int) as nat, (tail.1 as int) as nat) == tail);
                                assert(post_split.is_free_block_at(j));
                                assert(post_split.hdr_class(j) == tail);
                                assert(post_split.hdr(j).size == old(self).hdr(j).size);
                                assert(old(self).hdr_class(j) == tail);
                                assert(false);
                            }
                            assert(self.hdr(j).next_free == post_split.hdr(j).next_free
                                && self.hdr(j).prev_free == post_split.hdr(j).prev_free
                                && self.hdr(j).first_free_flag == post_split.hdr(
                                j,
                            ).first_free_flag);
                        }
                    }
                } else {
                    proof {
                        Self::lemma_arena_len_bound(*old(self));
                        // an exact fit: nothing was written since the take
                        assert(block_size == rounded);
                        assert(self.hdr(i as int).next_physical == old(self).hdr(
                            i as int,
                        ).next_physical);
                        assert(self.num_headers() == old(self).num_headers());
                        assert forall|j: int|
                            0 <= j < old(self).num_headers() && j != i && old(self).hdr(
                                j,
                            ).pool is Some implies {
                            &&& (#[trigger] self.hdr(j)).pool == old(self).hdr(j).pool
                            &&& self.hdr(j).size == old(self).hdr(j).size
                            &&& self.hdr(j).base_offset == old(self).hdr(j).base_offset
                            &&& self.hdr(j).free_flag == old(self).hdr(j).free_flag
                        } by {
                            assert(post_take.hdr(j).pool == old(self).hdr(j).pool
                                && post_take.hdr(j).size == old(self).hdr(j).size
                                && post_take.hdr(j).base_offset == old(self).hdr(j).base_offset
                                && post_take.hdr(j).free_flag == old(self).hdr(j).free_flag);
                        }
                        // nothing was inserted: the index is exactly the
                        // take's
                        let fl = first_level as int;
                        let sl = second_level as int;
                        assert(old(self).hdr_class(i as int).0 as int == fl && old(
                            self,
                        ).hdr_class(i as int).1 as int == sl);
                        assert(self.head_of(fl, sl) == old(self).hdr(i as int).next_free);
                        assert forall|j: int|
                            0 <= j < old(self).num_headers() && j != i && old(self).hdr(
                                j,
                            ).pool is Some && old(self).hdr_class(j) != old(self).hdr_class(
                                i as int,
                            ) implies {
                            &&& (#[trigger] self.hdr(j)).next_free == old(self).hdr(j).next_free
                            &&& self.hdr(j).prev_free == old(self).hdr(j).prev_free
                            &&& self.hdr(j).first_free_flag == old(self).hdr(j).first_free_flag
                        } by {
                            if Some(j as usize) == old(self).hdr(i as int).next_free {
                                assert(old(self).wf_header(i as int));
                                assert(old(self).wf_free_links(i as int));
                                assert(old(self).on_same_free_list(i as int, j));
                                assert(old(self).hdr_class(j) == old(self).hdr_class(i as int));
                                assert(false);
                            }
                        }
                    }
                }
                proof {
                    assert(self.wf_header(i as int));
                    assert(self.hdr(i as int).size == rounded);
                    assert(self.hdr(i as int).base_offset == old(self).hdr(i as int).base_offset);
                }
                let final_header = self.headers[i];
                let pool_index: usize;
                match final_header.pool {
                    Some(p) => {
                        pool_index = p;
                    },
                    None => {
                        proof {
                            assert(false);
                        }
                        pool_index = 0;
                    },
                }
                proof {
                    assert((#[trigger] old(self).occupied(
                        first_level as int,
                        second_level as int,
                    )) && class_le(
                        request_class(size as nat),
                        (first_level as nat, second_level as nat),
                    ));
                }
                Some(Allocation { header: i, offset: final_header.base_offset, pool: pool_index })
            },
        }
    }

    /// After the freed block `i` has absorbed its physical predecessor `p`
    /// — `p` unlinked from the free lists beforehand, its bytes folded into
    /// `i`, its header recycled onto the header free list — the allocator
    /// is well formed again. `mid` is the state right after the unlinking.
    #[verifier::rlimit(100)]
    proof fn lemma_after_absorb_prev(self, mid: Self, i: int, p: int)
        requires
            mid.wf(),
            mid.is_live(i),
            !mid.hdr(i).free_flag,
            mid.is_live(p),
            !mid.hdr(p).free_flag,
            p != i,
            mid.hdr(i).prev_physical == Some(p as usize),
            (mid.hdr(p).prev_physical matches Some(t) ==> !mid.hdr(t as int).free_flag),
            self.num_headers() == mid.num_headers(),
            self.segregated_lists@ == mid.segregated_lists@,
            self.free_first_level_mask == mid.free_first_level_mask,
            self.page_pool@ == mid.page_pool@,
            self.page_sizes@ == mid.page_sizes@,
            self.header_free_list == Some(p as usize),
            self.hdr(i) == (BlockHeader {
                base_offset: mid.hdr(p).base_offset,
                size: (mid.hdr(i).size + mid.hdr(p).size) as usize,
                prev_physical: mid.hdr(p).prev_physical,
                ..mid.hdr(i)
            }),
            self.hdr(p) == (BlockHeader {
                next_free: mid.header_free_list,
                prev_free: None,
                next_physical: None,
                prev_physical: None,
                pool: None,
                size: 0,
                free_flag: false,
                first_free_flag: true,
                base_offset: 0,
            }),
            (mid.hdr(p).prev_physical matches Some(t) ==> self.hdr(t as int) == (BlockHeader {
                next_physical: Some(i as usize),
                ..mid.hdr(t as int)
            })),
            (mid.header_free_list matches Some(h0) ==> self.hdr(h0 as int) == (BlockHeader {
                prev_free: Some(p as usize),
                first_free_flag: false,
                ..mid.hdr(h0 as int)
            })),
            forall|j: int|
                0 <= j < mid.num_headers() && j != i && j != p && Some(j as usize) != mid.hdr(
                    p,
                ).prev_physical && Some(j as usize) != mid.header_free_list ==> self.hdr(j)
                    == mid.hdr(j),
        ensures
            self.wf(),
            !self.hdr(i).free_flag,
            self.hdr(i).next_physical == mid.hdr(i).next_physical,
            self.hdr(i).prev_physical == mid.hdr(p).prev_physical,
            (self.hdr(i).prev_physical matches Some(t) ==> !self.hdr(t as int).free_flag),
            forall|j: int|
                0 <= j < mid.num_headers() && j != i && j != p ==> (#[trigger] self.hdr(
                    j,
                )).free_flag == mid.hdr(j).free_flag && self.hdr(j).pool == mid.hdr(j).pool
                    && self.hdr(j).size == mid.hdr(j).size && self.hdr(j).base_offset == mid.hdr(
                    j,
                ).base_offset,
    {
        Self::lemma_arena_len_bound(mid);
        assert(mid.wf_header(i));
        assert(mid.wf_header(p));
        assert(mid.hdr(p).next_physical == Some(i as usize));
        assert(mid.hdr(i).base_offset == mid.hdr(p).base_offset + mid.hdr(p).size);
        let ghost p2: int = match mid.hdr(p).prev_physical {
            Some(t) => t as int,
            None => -1,
        };
        let ghost h0: int = match mid.header_free_list {
            Some(t) => t as int,
            None => -1,
        };
        if p2 >= 0 {
            assert(mid.wf_header(p2));
            assert(mid.hdr(p2).next_physical == Some(p as usize));
            assert(mid.hdr(p).base_offset == mid.hdr(p2).base_offset + mid.hdr(p2).size);
            assert(p2 != i);
            assert(p2 != p);
        }
        if h0 >= 0 {
            assert(mid.wf_header(h0));
            assert(mid.hdr(h0).pool is None);
            assert(h0 != i && h0 != p && h0 != p2);
        }
        assert(self.wf_structure()) by {
            assert forall|f: int|
                0 <= f < self.num_first_levels() implies (#[trigger] self.segregated_lists@[f]).list_headers@.len()
                == 32 by {
                assert(mid.segregated_lists@[f].list_headers@.len() == 32);
            }
            assert forall|q: int| 0 <= q < self.num_pages() implies {
                &&& 32 <= #[trigger] self.page_size(q) <= usize::MAX
                &&& self.page_size(q) % 32 == 0
                &&& (block_class(self.page_size(q)).0 as int) < self.num_first_levels()
            } by {
                assert(32 <= mid.page_size(q));
            }
        }
        assert(self.wf_masks()) by {
            assert forall|f: int, s: int|
                0 <= f < self.num_first_levels() && 0 <= s < 32 implies (#[trigger] self.occupied(
                f,
                s,
            ) <==> self.head_of(f, s) is Some) by {
                assert(mid.occupied(f, s) <==> mid.head_of(f, s) is Some);
            }
            assert forall|f: u32|
                f < 64 implies (#[trigger] bit64(self.free_first_level_mask, f) <==> ((f as int)
                < self.num_first_levels() && self.segregated_lists@[f as int].free_mask != 0)) by {
                assert(bit64(mid.free_first_level_mask, f) <==> ((f as int)
                    < mid.num_first_levels() && mid.segregated_lists@[f as int].free_mask != 0));
            }
        }
        assert forall|f: int, s: int|
            0 <= f < self.num_first_levels() && 0 <= s < 32 implies ((#[trigger] self.head_of(
            f,
            s,
        )) matches Some(t) ==> {
            &&& self.is_free_block_at(t as int)
            &&& self.hdr_class(t as int) == (f as nat, s as nat)
            &&& self.hdr(t as int).first_free_flag
        }) by {
            assert(self.head_of(f, s) == mid.head_of(f, s));
            match mid.head_of(f, s) {
                Some(t) => {
                    assert(mid.is_free_block_at(t as int));
                    assert(t as int != i && t as int != p && t as int != h0);
                    if p2 >= 0 && t as int == p2 {
                        assert(self.hdr(t as int).free_flag == mid.hdr(t as int).free_flag);
                        assert(self.hdr(t as int).size == mid.hdr(t as int).size);
                        assert(self.hdr(t as int).first_free_flag == mid.hdr(
                            t as int,
                        ).first_free_flag);
                    }
                },
                None => {},
            }
        }
        assert forall|j: int| 0 <= j < self.num_headers() implies self.wf_header(j) by {
            assert(mid.wf_header(j));
            let hj = mid.hdr(j);
            if j == i {
                assert(self.wf_physical_links(j));
                assert(self.wf_header(j));
            } else if j == p {
                assert(self.wf_free_links(j));
                assert(self.wf_header(j));
            } else if j == p2 {
                assert(self.wf_physical_links(j));
                if hj.free_flag {
                    assert(self.hdr(j).free_flag == hj.free_flag);
                    assert(false);
                }
                assert(self.wf_header(j));
            } else if j == h0 {
                assert(self.hdr(j).prev_free == Some(p as usize));
                match mid.hdr(h0).next_free {
                    Some(r) => {
                        assert(mid.wf_header(r as int));
                        assert(mid.hdr(r as int).prev_free == Some(h0 as usize));
                        assert(r as int != h0 && r as int != p && r as int != i && r as int
                            != p2);
                        assert(self.hdr(r as int) == mid.hdr(r as int));
                    },
                    None => {},
                }
                assert(self.wf_free_links(j));
                assert(self.wf_header(j));
            } else {
                if hj.pool is None || hj.free_flag {
                    if hj.next_free == Some(p as usize) || hj.prev_free == Some(p as usize) {
                        // `p` was just unlinked: a used block is on no list
                        assert(false);
                    }
                    if h0 >= 0 && hj.next_free == Some(h0 as usize) {
                        assert(mid.hdr(h0).prev_free == Some(j as usize));
                        assert(mid.hdr(h0).prev_free is None);
                        assert(false);
                    }
                    if hj.first_free_flag && hj.pool is None {
                        assert(mid.list_head_for(j) == Some(j as usize));
                        assert(j == h0);
                        assert(false);
                    }
                    if hj.first_free_flag && hj.pool is Some {
                        assert(mid.list_head_for(j) == Some(j as usize));
                        assert(self.list_head_for(j) == mid.list_head_for(j));
                    }
                    assert(self.wf_free_links(j));
                }
                if hj.pool is Some {
                    if hj.next_physical == Some(p as usize) {
                        assert(mid.hdr(p).prev_physical == Some(j as usize));
                        assert(j == p2);
                        assert(false);
                    }
                    if hj.prev_physical == Some(p as usize) {
                        assert(mid.hdr(p).next_physical == Some(j as usize));
                        assert(j == i);
                        assert(false);
                    }
                    if hj.prev_physical == Some(i as usize) {
                        assert(mid.hdr(i).next_physical == Some(j as usize));
                    }
                    if p2 >= 0 && hj.next_physical == Some(p2 as usize) {
                        assert(mid.hdr(p2).prev_physical == Some(j as usize));
                    }
                    assert(self.wf_physical_links(j));
                }
                assert(self.wf_header(j));
            }
        }
        // at most one chain head per page: if the absorbed predecessor was
        // the head, the merged block takes its place
        assert forall|x: int, y: int|
            #![trigger self.is_page_head(x), self.is_page_head(y)]
            self.is_page_head(x) && self.is_page_head(y) && self.hdr(x).pool == self.hdr(
                y,
            ).pool implies x == y by {
            if self.is_page_head(x) && self.is_page_head(y) && self.hdr(x).pool == self.hdr(
                y,
            ).pool && x != y {
                let mx: int = if x == i {
                    p
                } else {
                    x
                };
                let my: int = if y == i {
                    p
                } else {
                    y
                };
                if x == i {
                    assert(mid.hdr(p).prev_physical is None);
                    assert(mid.is_page_head(p));
                } else {
                    assert(x != p && x != h0);
                    assert(self.hdr(x).pool == mid.hdr(x).pool && self.hdr(x).prev_physical
                        == mid.hdr(x).prev_physical);
                    assert(mid.is_page_head(x));
                }
                if y == i {
                    assert(mid.hdr(p).prev_physical is None);
                    assert(mid.is_page_head(p));
                } else {
                    assert(y != p && y != h0);
                    assert(self.hdr(y).pool == mid.hdr(y).pool && self.hdr(y).prev_physical
                        == mid.hdr(y).prev_physical);
                    assert(mid.is_page_head(y));
                }
                assert(mid.hdr(mx).pool == mid.hdr(my).pool);
                assert(mx == my);
                assert(false);
            }
        }
        assert(self.wf());
    }

    /// After the freed block `i` has absorbed its physical successor `n` —
    /// `n` unlinked from the free lists beforehand, its bytes folded into
    /// `i`, its header recycled onto the header free list — the allocator
    /// is well formed again. `mid` is the state right after the unlinking.
    #[verifier::rlimit(100)]
    proof fn lemma_after_absorb_next(self, mid: Self, i: int, n: int)
        requires
            mid.wf(),
            mid.is_live(i),
            !mid.hdr(i).free_flag,
            mid.is_live(n),
            !mid.hdr(n).free_flag,
            n != i,
            mid.hdr(i).next_physical == Some(n as usize),
            (mid.hdr(n).next_physical matches Some(t) ==> !mid.hdr(t as int).free_flag),
            self.num_headers() == mid.num_headers(),
            self.segregated_lists@ == mid.segregated_lists@,
            self.free_first_level_mask == mid.free_first_level_mask,
            self.page_pool@ == mid.page_pool@,
            self.page_sizes@ == mid.page_sizes@,
            self.header_free_list == Some(n as usize),
            self.hdr(i) == (BlockHeader {
                size: (mid.hdr(i).size + mid.hdr(n).size) as usize,
                next_physical: mid.hdr(n).next_physical,
                ..mid.hdr(i)
            }),
            self.hdr(n) == (BlockHeader {
                next_free: mid.header_free_list,
                prev_free: None,
                next_physical: None,
                prev_physical: None,
                pool: None,
                size: 0,
                free_flag: false,
                first_free_flag: true,
                base_offset: 0,
            }),
            (mid.hdr(n).next_physical matches Some(t) ==> self.hdr(t as int) == (BlockHeader {
                prev_physical: Some(i as usize),
                ..mid.hdr(t as int)
            })),
            (mid.header_free_list matches Some(h0) ==> self.hdr(h0 as int) == (BlockHeader {
                prev_free: Some(n as usize),
                first_free_flag: false,
                ..mid.hdr(h0 as int)
            })),
            forall|j: int|
                0 <= j < mid.num_headers() && j != i && j != n && Some(j as usize) != mid.hdr(
                    n,
                ).next_physical && Some(j as usize) != mid.header_free_list ==> self.hdr(j)
                    == mid.hdr(j),
        ensures
            self.wf(),
            !self.hdr(i).free_flag,
            self.hdr(i).prev_physical == mid.hdr(i).prev_physical,
            self.hdr(i).next_physical == mid.hdr(n).next_physical,
            (self.hdr(i).next_physical matches Some(t) ==> !self.hdr(t as int).free_flag),
            forall|j: int|
                0 <= j < mid.num_headers() && j != i && j != n ==> (#[trigger] self.hdr(
                    j,
                )).free_flag == mid.hdr(j).free_flag && self.hdr(j).pool == mid.hdr(j).pool
                    && self.hdr(j).size == mid.hdr(j).size && self.hdr(j).base_offset == mid.hdr(
                    j,
                ).base_offset,
    {
        Self::lemma_arena_len_bound(mid);
        assert(mid.wf_header(i));
        assert(mid.wf_header(n));
        assert(mid.hdr(n).prev_physical == Some(i as usize));
        assert(mid.hdr(n).base_offset == mid.hdr(i).base_offset + mid.hdr(i).size);
        let ghost n2: int = match mid.hdr(n).next_physical {
            Some(t) => t as int,
            None => -1,
        };
        let ghost h0: int = match mid.header_free_list {
            Some(t) => t as int,
            None => -1,
        };
        if n2 >= 0 {
            assert(mid.wf_header(n2));
            assert(mid.hdr(n2).prev_physical == Some(n as usize));
            assert(mid.hdr(n2).base_offset == mid.hdr(n).base_offset + mid.hdr(n).size);
            assert(n2 != i);
            assert(n2 != n);
        }
        if h0 >= 0 {
            assert(mid.wf_header(h0));
            assert(mid.hdr(h0).pool is None);
            assert(h0 != i && h0 != n && h0 != n2);
        }
        assert(self.wf_structure()) by {
            assert forall|f: int|
                0 <= f < self.num_first_levels() implies (#[trigger] self.segregated_lists@[f]).list_headers@.len()
                == 32 by {
                assert(mid.segregated_lists@[f].list_headers@.len() == 32);
            }
            assert forall|q: int| 0 <= q < self.num_pages() implies {
                &&& 32 <= #[trigger] self.page_size(q) <= usize::MAX
                &&& self.page_size(q) % 32 == 0
                &&& (block_class(self.page_size(q)).0 as int) < self.num_first_levels()
            } by {
                assert(32 <= mid.page_size(q));
            }
        }
        assert(self.wf_masks()) by {
            assert forall|f: int, s: int|
                0 <= f < self.num_first_levels() && 0 <= s < 32 implies (#[trigger] self.occupied(
                f,
                s,
            ) <==> self.head_of(f, s) is Some) by {
                assert(mid.occupied(f, s) <==> mid.head_of(f, s) is Some);
            }
            assert forall|f: u32|
                f < 64 implies (#[trigger] bit64(self.free_first_level_mask, f) <==> ((f as int)
                < self.num_first_levels() && self.segregated_lists@[f as int].free_mask != 0)) by {
                assert(bit64(mid.free_first_level_mask, f) <==> ((f as int)
                    < mid.num_first_levels() && mid.segregated_lists@[f as int].free_mask != 0));
            }
        }
        assert forall|f: int, s: int|
            0 <= f < self.num_first_levels() && 0 <= s < 32 implies ((#[trigger] self.head_of(
            f,
            s,
        )) matches Some(t) ==> {
            &&& self.is_free_block_at(t as int)
            &&& self.hdr_class(t as int) == (f as nat, s as nat)
            &&& self.hdr(t as int).first_free_flag
        }) by {
            assert(self.head_of(f, s) == mid.head_of(f, s));
            match mid.head_of(f, s) {
                Some(t) => {
                    assert(mid.is_free_block_at(t as int));
                    assert(t as int != i && t as int != n && t as int != h0);
                    if n2 >= 0 && t as int == n2 {
                        assert(self.hdr(t as int).free_flag == mid.hdr(t as int).free_flag);
                        assert(self.hdr(t as int).size == mid.hdr(t as int).size);
                        assert(self.hdr(t as int).first_free_flag == mid.hdr(
                            t as int,
                        ).first_free_flag);
                    }
                },
                None => {},
            }
        }
        assert forall|j: int| 0 <= j < self.num_headers() implies self.wf_header(j) by {
            assert(mid.wf_header(j));
            let hj = mid.hdr(j);
            if j == i {
                assert(self.wf_physical_links(j));
                assert(self.wf_header(j));
            } else if j == n {
                assert(self.wf_free_links(j));
                assert(self.wf_header(j));
            } else if j == n2 {
                assert(self.wf_physical_links(j));
                if hj.free_flag {
                    assert(self.hdr(j).free_flag == hj.free_flag);
                    assert(false);
                }
                assert(self.wf_header(j));
            } else if j == h0 {
                assert(self.hdr(j).prev_free == Some(n as usize));
                match mid.hdr(h0).next_free {
                    Some(r) => {
                        assert(mid.wf_header(r as int));
                        assert(mid.hdr(r as int).prev_free == Some(h0 as usize));
                        assert(r as int != h0 && r as int != n && r as int != i && r as int
                            != n2);
                        assert(self.hdr(r as int) == mid.hdr(r as int));
                    },
                    None => {},
                }
                assert(self.wf_free_links(j));
                assert(self.wf_header(j));
            } else {
                if hj.pool is None || hj.free_flag {
                    if hj.next_free == Some(n as usize) || hj.prev_free == Some(n as usize) {
                        assert(false);
                    }
                    if h0 >= 0 && hj.next_free == Some(h0 as usize) {
                        assert(mid.hdr(h0).prev_free == Some(j as usize));
                        assert(mid.hdr(h0).prev_free is None);
                        assert(false);
                    }
                    if hj.first_free_flag && hj.pool is None {
                        assert(mid.list_head_for(j) == Some(j as usize));
                        assert(j == h0);
                        assert(false);
                    }
                    if hj.first_free_flag && hj.pool is Some {
                        assert(mid.list_head_for(j) == Some(j as usize));
                        assert(self.list_head_for(j) == mid.list_head_for(j));
                    }
                    assert(self.wf_free_links(j));
                }
                if hj.pool is Some {
                    if hj.next_physical == Some(n as usize) {
                        assert(mid.hdr(n).prev_physical == Some(j as usize));
                        assert(j == i);
                        assert(false);
                    }
                    if hj.prev_physical == Some(n as usize) {
                        assert(mid.hdr(n).next_physical == Some(j as usize));
                        assert(j == n2);
                        assert(false);
                    }
                    if hj.next_physical == Some(i as usize) {
                        assert(mid.hdr(i).prev_physical == Some(j as usize));
                    }
                    if n2 >= 0 && hj.prev_physical == Some(n2 as usize) {
                        assert(mid.hdr(n2).next_physical == Some(j as usize));
                    }
                    assert(self.wf_physical_links(j));
                }
                assert(self.wf_header(j));
            }
        }
        assert forall|x: int|
            0 <= x < mid.num_headers() && x != n implies (#[trigger] self.hdr(x)).pool
            == mid.hdr(x).pool && ((self.hdr(x).prev_physical is None) <==> (mid.hdr(
            x,
        ).prev_physical is None)) by {
            if x != i && x != n2 && x != h0 {
                assert(self.hdr(x) == mid.hdr(x));
            }
        }
        assert(!self.is_page_head(n));
        Self::lemma_page_heads_preserved(mid, self, n);
        assert(self.wf());
    }

    /// Folds a free physical predecessor of the allocated block `i` into
    /// it, recycling the absorbed header; afterwards the block's physical
    /// predecessor, if any, is certainly not free.
    #[verifier::rlimit(100)]
    fn absorb_prev_neighbor(&mut self, i: usize)
        requires
            old(self).wf(),
            old(self).is_live(i as int),
            !old(self).hdr(i as int).free_flag,
        ensures
            final(self).wf(),
            final(self).is_live(i as int),
            !final(self).hdr(i as int).free_flag,
            final(self).page_pool@ == old(self).page_pool@,
            final(self).page_sizes@ == old(self).page_sizes@,
            final(self).num_headers() == old(self).num_headers(),
            final(self).num_first_levels() == old(self).num_first_levels(),
            final(self).hdr(i as int).pool == old(self).hdr(i as int).pool,
            final(self).hdr(i as int).next_physical == old(self).hdr(i as int).next_physical,
            (final(self).hdr(i as int).prev_physical matches Some(t) ==> !final(self).hdr(
                t as int,
            ).free_flag),
            (old(self).free_prev_neighbor(i as int) matches Some(p) ==> {
                &&& final(self).hdr(i as int).size == old(self).hdr(i as int).size + old(
                    self,
                ).hdr(p as int).size
                &&& final(self).hdr(i as int).base_offset == old(self).hdr(p as int).base_offset
                &&& final(self).hdr(p as int).pool is None
                &&& forall|j: int|
                    0 <= j < old(self).num_headers() && j != i && j != p as int ==> (
                    #[trigger] final(self).hdr(j)).free_flag == old(self).hdr(j).free_flag
                        && final(self).hdr(j).size == old(self).hdr(j).size && final(self).hdr(
                        j,
                    ).pool == old(self).hdr(j).pool && final(self).hdr(j).base_offset == old(
                        self,
                    ).hdr(j).base_offset
            }),
            (old(self).free_prev_neighbor(i as int) is None ==> *final(self) == *old(self)),
            // the index: only the absorbed neighbour's class can lose its
            // bit and head; other classes and their blocks' links keep
            ({
                let fc0: int = match old(self).free_prev_neighbor(i as int) {
                    Some(p) => old(self).hdr_class(p as int).0 as int,
                    None => -1,
                };
                let fc1: int = match old(self).free_prev_neighbor(i as int) {
                    Some(p) => old(self).hdr_class(p as int).1 as int,
                    None => -1,
                };
                &&& forall|f: int, s: int|
                    #![trigger final(self).occupied(f, s)]
                    final(self).occupied(f, s) ==> old(self).occupied(f, s)
                &&& forall|f: int, s: int|
                    #![trigger old(self).occupied(f, s)]
                    old(self).occupied(f, s) && !(f == fc0 && s == fc1) ==> final(self).occupied(
                        f,
                        s,
                    )
                &&& forall|f: int, s: int|
                    #![trigger final(self).head_of(f, s)]
                    0 <= f < old(self).num_first_levels() && 0 <= s < 32 && !(f == fc0 && s
                        == fc1) ==> final(self).head_of(f, s) == old(self).head_of(f, s)
                &&& forall|j: int|
                    0 <= j < old(self).num_headers() && j != i && Some(j as usize) != old(
                        self,
                    ).free_prev_neighbor(i as int) && old(self).hdr(j).pool is Some && !(old(
                        self,
                    ).hdr_class(j).0 as int == fc0 && old(self).hdr_class(j).1 as int == fc1)
                        ==> {
                        &&& (#[trigger] final(self).hdr(j)).next_free == old(self).hdr(
                            j,
                        ).next_free
                        &&& final(self).hdr(j).prev_free == old(self).hdr(j).prev_free
                        &&& final(self).hdr(j).first_free_flag == old(self).hdr(
                            j,
                        ).first_free_flag
                    }
            }),
    {
        let ghost pre = *self;
        proof {
            assert(pre.wf_header(i as int));
            Self::lemma_arena_len_bound(pre);
        }
        let prev_opt = self.headers[i].prev_physical;
        if let Some(p) = prev_opt {
            proof {
                assert(pre.is_live(p as int));
            }
            if self.headers[p].is_free_block() {
                proof {
                    assert(pre.is_free_block_at(p as int));
                    assert(p != i);
                    assert(pre.wf_header(p as int));
                }
                let ghost before = *self;
                self.remove_free_block(p);
                let ghost mid = *self;
                proof {
                    assert(mid.wf_header(i as int));
                    assert(mid.wf_header(p as int));
                    assert(mid.hdr(p as int).next_physical == Some(i));
                    assert(mid.hdr(i as int).base_offset == mid.hdr(p as int).base_offset
                        + mid.hdr(p as int).size);
                    // the predecessor of the absorbed free block is not free
                    match mid.hdr(p as int).prev_physical {
                        Some(t) => {
                            assert(before.wf_header(p as int));
                            assert(before.hdr(t as int).next_physical == Some(p));
                            assert(before.wf_header(t as int));
                            assert(!before.hdr(t as int).free_flag);
                            assert(!mid.hdr(t as int).free_flag);
                        },
                        None => {},
                    }
                }
                let ph = self.headers[p];
                let cur_size = self.headers[i].size;
                self.headers[i].base_offset = ph.base_offset;
                self.headers[i].size = cur_size + ph.size;
                self.headers[i].prev_physical = ph.prev_physical;
                if let Some(p2) = ph.prev_physical {
                    proof {
                        assert(mid.is_live(p2 as int));
                        assert(p2 != i && p2 != p);
                    }
                    self.headers[p2].next_physical = Some(i);
                }
                let old_head = self.header_free_list;
                self.headers[p] = BlockHeader {
                    next_free: old_head,
                    prev_free: None,
                    next_physical: None,
                    prev_physical: None,
                    pool: None,
                    size: 0,
                    free_flag: false,
                    first_free_flag: true,
                    base_offset: 0,
                };
                if let Some(h0) = old_head {
                    proof {
                        assert(mid.hdr(h0 as int).pool is None);
                        assert(h0 != i && h0 != p);
                        assert(Some(h0) != mid.hdr(p as int).prev_physical);
                    }
                    self.headers[h0].prev_free = Some(p);
                    self.headers[h0].first_free_flag = false;
                }
                self.header_free_list = Some(p);
                proof {
                    self.lemma_after_absorb_prev(mid, i as int, p as int);

                    // the index changed only at the absorbed block's class
                    assert(self.segregated_lists@ == mid.segregated_lists@);
                    let c0 = pre.hdr_class(p as int).0 as int;
                    let c1 = pre.hdr_class(p as int).1 as int;
                    assert forall|f: int, s: int|
                        #![trigger self.occupied(f, s)]
                        self.occupied(f, s) implies pre.occupied(f, s) by {
                        assert(mid.occupied(f, s) ==> pre.occupied(f, s));
                        assert(self.occupied(f, s) <==> mid.occupied(f, s));
                    }
                    assert forall|f: int, s: int|
                        #![trigger pre.occupied(f, s)]
                        pre.occupied(f, s) && !(f == c0 && s == c1) implies self.occupied(
                        f,
                        s,
                    ) by {
                        assert(mid.occupied(f, s));
                        assert(self.occupied(f, s) <==> mid.occupied(f, s));
                    }
                    assert forall|f: int, s: int|
                        #![trigger self.head_of(f, s)]
                        0 <= f < pre.num_first_levels() && 0 <= s < 32 && !(f == c0 && s == c1)
                            implies self.head_of(f, s) == pre.head_of(f, s) by {
                        assert(mid.head_of(f, s) == pre.head_of(f, s));
                        assert(self.head_of(f, s) == mid.head_of(f, s));
                    }
                    assert forall|j: int|
                        0 <= j < pre.num_headers() && j != i && j != p as int && pre.hdr(
                            j,
                        ).pool is Some && !(pre.hdr_class(j).0 as int == c0 && pre.hdr_class(
                            j,
                        ).1 as int == c1) implies {
                        &&& (#[trigger] self.hdr(j)).next_free == pre.hdr(j).next_free
                        &&& self.hdr(j).prev_free == pre.hdr(j).prev_free
                        &&& self.hdr(j).first_free_flag == pre.hdr(j).first_free_flag
                    } by {
                        assert(pre.wf_header(p as int));
                        if Some(j as usize) == pre.hdr(p as int).next_free {
                            assert(pre.wf_free_links(p as int));
                            assert(pre.on_same_free_list(p as int, j));
                            assert(pre.hdr_class(j) == pre.hdr_class(p as int));
                            assert(false);
                        }
                        if Some(j as usize) == pre.hdr(p as int).prev_free {
                            assert(pre.wf_free_links(p as int));
                            assert(pre.on_same_free_list(p as int, j));
                            assert(pre.hdr_class(j) == pre.hdr_class(p as int));
                            assert(false);
                        }
                        assert(mid.hdr(j).next_free == pre.hdr(j).next_free && mid.hdr(
                            j,
                        ).prev_free == pre.hdr(j).prev_free && mid.hdr(j).first_free_flag
                            == pre.hdr(j).first_free_flag);
                        match mid.header_free_list {
                            Some(h0) => {
                                if j == h0 as int {
                                    assert(pre.hdr(j).pool is None);
                                    assert(false);
                                }
                            },
                            None => {},
                        }
                        match mid.hdr(p as int).prev_physical {
                            Some(t) => {
                                if j == t as int {
                                    assert(self.hdr(j).next_free == mid.hdr(j).next_free
                                        && self.hdr(j).prev_free == mid.hdr(j).prev_free
                                        && self.hdr(j).first_free_flag == mid.hdr(
                                        j,
                                    ).first_free_flag);
                                }
                            },
                            None => {},
                        }
                        assert(self.hdr(j).next_free == mid.hdr(j).next_free && self.hdr(
                            j,
                        ).prev_free == mid.hdr(j).prev_free && self.hdr(j).first_free_flag
                            == mid.hdr(j).first_free_flag);
                    }
                }
            }
        }
    }

    /// Folds a free physical successor of the allocated block `i` into it,
    /// recycling the absorbed header; afterwards the block's physical
    /// successor, if any, is certainly not free.
    #[verifier::rlimit(100)]
    fn absorb_next_neighbor(&mut self, i: usize)
        requires
            old(self).wf(),
            old(self).is_live(i as int),
            !old(self).hdr(i as int).free_flag,
        ensures
            final(self).wf(),
            final(self).is_live(i as int),
            !final(self).hdr(i as int).free_flag,
            final(self).page_pool@ == old(self).page_pool@,
            final(self).page_sizes@ == old(self).page_sizes@,
            final(self).num_headers() == old(self).num_headers(),
            final(self).num_first_levels() == old(self).num_first_levels(),
            final(self).hdr(i as int).pool == old(self).hdr(i as int).pool,
            final(self).hdr(i as int).prev_physical == old(self).hdr(i as int).prev_physical,
            final(self).hdr(i as int).base_offset == old(self).hdr(i as int).base_offset,
            (final(self).hdr(i as int).next_physical matches Some(t) ==> !final(self).hdr(
                t as int,
            ).free_flag),
            (old(self).free_next_neighbor(i as int) matches Some(n) ==> {
                &&& final(self).hdr(i as int).size == old(self).hdr(i as int).size + old(
                    self,
                ).hdr(n as int).size
                &&& final(self).hdr(n as int).pool is None
                &&& forall|j: int|
                    0 <= j < old(self).num_headers() && j != i && j != n as int ==> (
                    #[trigger] final(self).hdr(j)).free_flag == old(self).hdr(j).free_flag
                        && final(self).hdr(j).size == old(self).hdr(j).size && final(self).hdr(
                        j,
                    ).pool == old(self).hdr(j).pool && final(self).hdr(j).base_offset == old(
                        self,
                    ).hdr(j).base_offset
            }),
            (old(self).free_next_neighbor(i as int) is None ==> *final(self) == *old(self)),
            // the index: only the absorbed neighbour's class can lose its
            // bit and head; other classes and their blocks' links keep
            ({
                let bc0: int = match old(self).free_next_neighbor(i as int) {
                    Some(n) => old(self).hdr_class(n as int).0 as int,
                    None => -1,
                };
                let bc1: int = match old(self).free_next_neighbor(i as int) {
                    Some(n) => old(self).hdr_class(n as int).1 as int,
                    None => -1,
                };
                &&& forall|f: int, s: int|
                    #![trigger final(self).occupied(f, s)]
                    final(self).occupied(f, s) ==> old(self).occupied(f, s)
                &&& forall|f: int, s: int|
                    #![trigger old(self).occupied(f, s)]
                    old(self).occupied(f, s) && !(f == bc0 && s == bc1) ==> final(self).occupied(
                        f,
                        s,
                    )
                &&& forall|f: int, s: int|
                    #![trigger final(self).head_of(f, s)]
                    0 <= f < old(self).num_first_levels() && 0 <= s < 32 && !(f == bc0 && s
                        == bc1) ==> final(self).head_of(f, s) == old(self).head_of(f, s)
                &&& forall|j: int|
                    0 <= j < old(self).num_headers() && j != i && Some(j as usize) != old(
                        self,
                    ).free_next_neighbor(i as int) && old(self).hdr(j).pool is Some && !(old(
                        self,
                    ).hdr_class(j).0 as int == bc0 && old(self).hdr_class(j).1 as int == bc1)
                        ==> {
                        &&& (#[trigger] final(self).hdr(j)).next_free == old(self).hdr(
                            j,
                        ).next_free
                        &&& final(self).hdr(j).prev_free == old(self).hdr(j).prev_free
                        &&& final(self).hdr(j).first_free_flag == old(self).hdr(
                            j,
                        ).first_free_flag
                    }
            }),
    {
        let ghost pre = *self;
        proof {
            assert(pre.wf_header(i as int));
            Self::lemma_arena_len_bound(pre);
        }
        let next_opt = self.headers[i].next_physical;
        if let Some(n) = next_opt {
            proof {
                assert(self.is_live(n as int));
            }
            if self.headers[n].is_free_block() {
                proof {
                    assert(self.is_free_block_at(n as int));
                    assert(n != i);
                }
                let ghost before = *self;
                self.remove_free_block(n);
                let ghost mid = *self;
                proof {
                    assert(mid.wf_header(i as int));
                    assert(mid.wf_header(n as int));
                    assert(mid.hdr(n as int).prev_physical == Some(i));
                    assert(mid.hdr(n as int).base_offset == mid.hdr(i as int).base_offset
                        + mid.hdr(i as int).size);
                    // the successor of the absorbed free block is not free
                    match mid.hdr(n as int).next_physical {
                        Some(t) => {
                            assert(before.wf_header(n as int));
                            assert(!before.hdr(t as int).free_flag);
                            assert(!mid.hdr(t as int).free_flag);
                        },
                        None => {},
                    }
                }
                let nh = self.headers[n];
                let cur_size = self.headers[i].size;
                self.headers[i].size = cur_size + nh.size;
                self.headers[i].next_physical = nh.next_physical;
                if let Some(n2) = nh.next_physical {
                    proof {
                        assert(mid.is_live(n2 as int));
                        assert(n2 != i && n2 != n);
                    }
                    self.headers[n2].prev_physical = Some(i);
                }
                let old_head = self.header_free_list;
                self.headers[n] = BlockHeader {
                    next_free: old_head,
                    prev_free: None,
                    next_physical: None,
                    prev_physical: None,
                    pool: None,
                    size: 0,
                    free_flag: false,
                    first_free_flag: true,
                    base_offset: 0,
                };
                if let Some(h0) = old_head {
                    proof {
                        assert(mid.hdr(h0 as int).pool is None);
                        assert(h0 != i && h0 != n);
                        assert(Some(h0) != mid.hdr(n as int).next_physical);
                    }
                    self.headers[h0].prev_free = Some(n);
                    self.headers[h0].first_free_flag = false;
                }
                self.header_free_list = Some(n);
                proof {
                    self.lemma_after_absorb_next(mid, i as int, n as int);

                    // the index changed only at the absorbed block's class
                    assert(self.segregated_lists@ == mid.segregated_lists@);
                    let c0 = pre.hdr_class(n as int).0 as int;
                    let c1 = pre.hdr_class(n as int).1 as int;
                    assert forall|f: int, s: int|
                        #![trigger self.occupied(f, s)]
                        self.occupied(f, s) implies pre.occupied(f, s) by {
                        assert(mid.occupied(f, s) ==> pre.occupied(f, s));
                        assert(self.occupied(f, s) <==> mid.occupied(f, s));
                    }
                    assert forall|f: int, s: int|
                        #![trigger pre.occupied(f, s)]
                        pre.occupied(f, s) && !(f == c0 && s == c1) implies self.occupied(
                        f,
                        s,
                    ) by {
                        assert(mid.occupied(f, s));
                        assert(self.occupied(f, s) <==> mid.occupied(f, s));
                    }
                    assert forall|f: int, s: int|
                        #![trigger self.head_of(f, s)]
                        0 <= f < pre.num_first_levels() && 0 <= s < 32 && !(f == c0 && s == c1)
                            implies self.head_of(f, s) == pre.head_of(f, s) by {
                        assert(mid.head_of(f, s) == pre.head_of(f, s));
                        assert(self.head_of(f, s) == mid.head_of(f, s));
                    }
                    assert forall|j: int|
                        0 <= j < pre.num_headers() && j != i && j != n as int && pre.hdr(
                            j,
                        ).pool is Some && !(pre.hdr_class(j).0 as int == c0 && pre.hdr_class(
                            j,
                        ).1 as int == c1) implies {
                        &&& (#[trigger] self.hdr(j)).next_free == pre.hdr(j).next_free
                        &&& self.hdr(j).prev_free == pre.hdr(j).prev_free
                        &&& self.hdr(j).first_free_flag == pre.hdr(j).first_free_flag
                    } by {
                        assert(pre.wf_header(n as int));
                        if Some(j as usize) == pre.hdr(n as int).next_free {
                            assert(pre.wf_free_links(n as int));
                            assert(pre.on_same_free_list(n as int, j));
                            assert(pre.hdr_class(j) == pre.hdr_class(n as int));
                            assert(false);
                        }
                        if Some(j as usize) == pre.hdr(n as int).prev_free {
                            assert(pre.wf_free_links(n as int));
                            assert(pre.on_same_free_list(n as int, j));
                            assert(pre.hdr_class(j) == pre.hdr_class(n as int));
                            assert(false);
                        }
                        assert(mid.hdr(j).next_free == pre.hdr(j).next_free && mid.hdr(
                            j,
                        ).prev_free == pre.hdr(j).prev_free && mid.hdr(j).first_free_flag
                            == pre.hdr(j).first_free_flag);
                        match mid.header_free_list {
                            Some(h0) => {
                                if j == h0 as int {
                                    assert(pre.hdr(j).pool is None);
                                    assert(false);
                                }
                            },
                            None => {},
                        }
                        match mid.hdr(n as int).next_physical {
                            Some(t) => {
                                if j == t as int {
                                    assert(self.hdr(j).next_free == mid.hdr(j).next_free
                                        && self.hdr(j).prev_free == mid.hdr(j).prev_free
                                        && self.hdr(j).first_free_flag == mid.hdr(
                                        j,
                                    ).first_free_flag);
                                }
                            },
                            None => {},
                        }
                        assert(self.hdr(j).next_free == mid.hdr(j).next_free && self.hdr(
                            j,
                        ).prev_free == mid.hdr(j).prev_free && self.hdr(j).first_free_flag
                            == mid.hdr(j).first_free_flag);
                    }
                }
            }
        }
    }

    /// Returns the allocated block named by `allocation` to the free lists.
    /// A free physical predecessor and a free physical successor are folded
    /// into it first and their headers recycled, so that afterwards no two
    /// adjacent blocks of the page are both free; the handle's whole byte
    /// range lies inside the single free block that results.
    pub fn free(&mut self, allocation: Allocation)
        requires
            old(self).wf(),
            old(self).is_live(allocation.header as int),
            !old(self).hdr(allocation.header as int).free_flag,
        ensures
            final(self).wf(),
            final(self).page_pool@ == old(self).page_pool@,
            final(self).page_sizes@ == old(self).page_sizes@,
            final(self).num_headers() == old(self).num_headers(),
            final(self).is_free_block_at(allocation.header as int),
            final(self).hdr(allocation.header as int).pool == old(self).hdr(
                allocation.header as int,
            ).pool,
            final(self).hdr(allocation.header as int).base_offset <= old(self).hdr(
                allocation.header as int,
            ).base_offset,
            final(self).hdr(allocation.header as int).base_offset + final(self).hdr(
                allocation.header as int,
            ).size >= old(self).hdr(allocation.header as int).base_offset + old(self).hdr(
                allocation.header as int,
            ).size,
            final(self).occupied(
                final(self).hdr_class(allocation.header as int).0 as int,
                final(self).hdr_class(allocation.header as int).1 as int,
            ),
            // the block absorbs exactly its free neighbours: its new range
            // is its old range extended by their sizes, nothing more
            ({
                let idx = allocation.header as int;
                let gained_front: int = match old(self).free_prev_neighbor(idx) {
                    Some(p) => old(self).hdr(p as int).size as int,
                    None => 0,
                };
                let gained_back: int = match old(self).free_next_neighbor(idx) {
                    Some(n) => old(self).hdr(n as int).size as int,
                    None => 0,
                };
                &&& final(self).hdr(idx).size == old(self).hdr(idx).size + gained_front
                    + gained_back
                &&& final(self).hdr(idx).base_offset == (match old(self).free_prev_neighbor(
                    idx,
                ) {
                    Some(p) => old(self).hdr(p as int).base_offset,
                    None => old(self).hdr(idx).base_offset,
                })
            }),
            // the absorbed neighbours' headers end unbound, back in the
            // header pool
            (old(self).free_prev_neighbor(allocation.header as int) matches Some(p)
                ==> final(self).hdr(p as int).pool is None),
            (old(self).free_next_neighbor(allocation.header as int) matches Some(n)
                ==> final(self).hdr(n as int).pool is None),
            // every other header keeps its page, place, size and state:
            // nothing but the freed block and its absorbed neighbours moves
            forall|j: int|
                0 <= j < old(self).num_headers() && j != allocation.header && Some(j as usize)
                    != old(self).free_prev_neighbor(allocation.header as int) && Some(j as usize)
                    != old(self).free_next_neighbor(allocation.header as int) ==> {
                    &&& (#[trigger] final(self).hdr(j)).pool == old(self).hdr(j).pool
                    &&& final(self).hdr(j).size == old(self).hdr(j).size
                    &&& final(self).hdr(j).base_offset == old(self).hdr(j).base_offset
                    &&& final(self).hdr(j).free_flag == old(self).hdr(j).free_flag
                },
            // the free-list index after the call: the merged block heads
            // its class's list, occupancy otherwise only drops and only at
            // the absorbed neighbours' classes, and every class away from
            // the touched ones keeps its bits, its head and the links of
            // its blocks
            ({
                let idx = allocation.header as int;
                let fc0: int = match old(self).free_prev_neighbor(idx) {
                    Some(p) => old(self).hdr_class(p as int).0 as int,
                    None => -1,
                };
                let fc1: int = match old(self).free_prev_neighbor(idx) {
                    Some(p) => old(self).hdr_class(p as int).1 as int,
                    None => -1,
                };
                let bc0: int = match old(self).free_next_neighbor(idx) {
                    Some(n) => old(self).hdr_class(n as int).0 as int,
                    None => -1,
                };
                let bc1: int = match old(self).free_next_neighbor(idx) {
                    Some(n) => old(self).hdr_class(n as int).1 as int,
                    None => -1,
                };
                let gained_front: int = match old(self).free_prev_neighbor(idx) {
                    Some(p) => old(self).hdr(p as int).size as int,
                    None => 0,
                };
                let gained_back: int = match old(self).free_next_neighbor(idx) {
                    Some(n) => old(self).hdr(n as int).size as int,
                    None => 0,
                };
                let merged_class = block_class(
                    (old(self).hdr(idx).size + gained_front + gained_back) as nat,
                );
                &&& final(self).head_of(merged_class.0 as int, merged_class.1 as int) == Some(
                    allocation.header,
                )
                &&& forall|f: int, s: int|
                    #![trigger final(self).occupied(f, s)]
                    final(self).occupied(f, s) ==> (old(self).occupied(f, s) || (f
                        == merged_class.0 as int && s == merged_class.1 as int))
                &&& forall|f: int, s: int|
                    #![trigger old(self).occupied(f, s)]
                    old(self).occupied(f, s) && !(f == fc0 && s == fc1) && !(f == bc0 && s
                        == bc1) ==> final(self).occupied(f, s)
                &&& forall|f: int, s: int|
                    #![trigger final(self).head_of(f, s)]
                    0 <= f < old(self).num_first_levels() && 0 <= s < 32 && !(f
                        == merged_class.0 as int && s == merged_class.1 as int) && !(f == fc0
                        && s == fc1) && !(f == bc0 && s == bc1) ==> final(self).head_of(f, s)
                        == old(self).head_of(f, s)
                &&& forall|j: int|
                    0 <= j < old(self).num_headers() && j != idx && old(self).hdr(
                        j,
                    ).pool is Some && Some(j as usize) != old(self).free_prev_neighbor(idx)
                        && Some(j as usize) != old(self).free_next_neighbor(idx) && old(
                        self,
                    ).hdr_class(j) != merged_class && !(old(self).hdr_class(j).0 as int == fc0
                        && old(self).hdr_class(j).1 as int == fc1) && !(old(self).hdr_class(
                        j,
                    ).0 as int == bc0 && old(self).hdr_class(j).1 as int == bc1) ==> {
                        &&& (#[trigger] final(self).hdr(j)).next_free == old(self).hdr(
                            j,
                        ).next_free
                        &&& final(self).hdr(j).prev_free == old(self).hdr(j).prev_free
                        &&& final(self).hdr(j).first_free_flag == old(self).hdr(
                            j,
                        ).first_free_flag
                    }
            }),
    {
        let i = allocation.header;
        proof {
            let idx = i as int;
            assert(old(self).wf_header(idx));
            // a block cannot have the same neighbour on both sides: the
            // offsets would have to shrink
            match old(self).hdr(idx).prev_physical {
                Some(p) => {
                    assert(old(self).wf_header(p as int));
                    if old(self).hdr(idx).next_physical == Some(p) {
                        assert(old(self).hdr(p as int).base_offset == old(self).hdr(
                            idx,
                        ).base_offset + old(self).hdr(idx).size);
                        assert(old(self).hdr(idx).base_offset == old(self).hdr(
                            p as int,
                        ).base_offset + old(self).hdr(p as int).size);
                        assert(false);
                    }
                },
                None => {},
            }
        }
        self.absorb_prev_neighbor(i);
        let ghost merged_front = *self;
        self.absorb_next_neighbor(i);
        proof {
            let idx = i as int;
            assert(merged_front.wf_header(idx));
            assert(self.wf_header(idx));
            // the second merge sees the same free successor that the
            // starting state had
            assert(merged_front.hdr(idx).next_physical == old(self).hdr(idx).next_physical);
            match old(self).free_prev_neighbor(idx) {
                Some(p) => {
                    match old(self).hdr(idx).next_physical {
                        Some(t) => {
                            assert(t != p);
                            assert(merged_front.hdr(t as int).free_flag == old(self).hdr(
                                t as int,
                            ).free_flag);
                            assert(merged_front.hdr(t as int).size == old(self).hdr(
                                t as int,
                            ).size);
                        },
                        None => {},
                    }
                },
                None => {
                    assert(merged_front == *old(self));
                },
            }
            assert(merged_front.free_next_neighbor(idx) == old(self).free_next_neighbor(idx));
            // the predecessor stayed untouched by the second merge, and no
            // block became free along the way
            match self.hdr(idx).prev_physical {
                Some(t) => {
                    assert(merged_front.hdr(idx).prev_physical == Some(t));
                    assert(!merged_front.hdr(t as int).free_flag);
                    assert(t != i);
                    match merged_front.free_next_neighbor(idx) {
                        Some(n) => {
                            assert(n != t);
                            assert(self.hdr(t as int).free_flag == merged_front.hdr(
                                t as int,
                            ).free_flag);
                        },
                        None => {},
                    }
                },
                None => {},
            }
        }
        let ghost merged = *self;
        self.return_block_no_merge(i);
        proof {
            let idx = i as int;
            let ghost p_opt = old(self).free_prev_neighbor(idx);
            let ghost n_opt = old(self).free_next_neighbor(idx);
            match p_opt {
                Some(p) => {
                    assert(merged.hdr(p as int).pool is None);
                    assert(self.hdr(p as int) == merged.hdr(p as int));
                },
                None => {},
            }
            match n_opt {
                Some(n) => {
                    assert(merged.hdr(n as int).pool is None);
                    assert(self.hdr(n as int) == merged.hdr(n as int));
                },
                None => {},
            }
            assert forall|j: int|
                0 <= j < old(self).num_headers() && j != idx && Some(j as usize) != p_opt && Some(
                    j as usize,
                ) != n_opt implies {
                &&& (#[trigger] self.hdr(j)).pool == old(self).hdr(j).pool
                &&& self.hdr(j).size == old(self).hdr(j).size
                &&& self.hdr(j).base_offset == old(self).hdr(j).base_offset
                &&& self.hdr(j).free_flag == old(self).hdr(j).free_flag
            } by {
                assert(merged_front.hdr(j).pool == old(self).hdr(j).pool && merged_front.hdr(
                    j,
                ).size == old(self).hdr(j).size && merged_front.hdr(j).base_offset == old(
                    self,
                ).hdr(j).base_offset && merged_front.hdr(j).free_flag == old(self).hdr(
                    j,
                ).free_flag);
                assert(merged.hdr(j).pool == merged_front.hdr(j).pool && merged.hdr(j).size
                    == merged_front.hdr(j).size && merged.hdr(j).base_offset == merged_front.hdr(
                    j,
                ).base_offset && merged.hdr(j).free_flag == merged_front.hdr(j).free_flag);
            }
            // the index, chained through the two merges and the reinsertion
            Self::lemma_arena_len_bound(*old(self));
            Self::lemma_arena_len_bound(merged);
            let fc0: int = match p_opt {
                Some(p) => old(self).hdr_class(p as int).0 as int,
                None => -1,
            };
            let fc1: int = match p_opt {
                Some(p) => old(self).hdr_class(p as int).1 as int,
                None => -1,
            };
            let bc0: int = match n_opt {
                Some(n) => old(self).hdr_class(n as int).0 as int,
                None => -1,
            };
            let bc1: int = match n_opt {
                Some(n) => old(self).hdr_class(n as int).1 as int,
                None => -1,
            };
            match n_opt {
                Some(n) => {
                    assert(merged_front.hdr_class(n as int) == old(self).hdr_class(n as int));
                },
                None => {},
            }
            let merged_class = block_class(merged.hdr(idx).size as nat);
            assert(merged.hdr_class(idx) == merged_class);
            assert(self.hdr_class(idx) == merged_class);
            assert(self.wf_header(idx));
            assert((merged_class.0 as int) < self.num_first_levels());
            lemma_block_class(merged.hdr(idx).size as nat);
            assert(merged_class.1 < 32);
            assert(((merged_class.0 as int) as nat, (merged_class.1 as int) as nat)
                == merged_class);
            assert(self.head_of(merged_class.0 as int, merged_class.1 as int) == Some(i));
            assert forall|f: int, s: int|
                #![trigger self.occupied(f, s)]
                self.occupied(f, s) implies (old(self).occupied(f, s) || (f
                == merged_class.0 as int && s == merged_class.1 as int)) by {
                if !(f == merged_class.0 as int && s == merged_class.1 as int) {
                    assert(merged.occupied(f, s));
                    assert(merged_front.occupied(f, s));
                    assert(old(self).occupied(f, s));
                }
            }
            assert forall|f: int, s: int|
                #![trigger old(self).occupied(f, s)]
                old(self).occupied(f, s) && !(f == fc0 && s == fc1) && !(f == bc0 && s
                    == bc1) implies self.occupied(f, s) by {
                assert(merged_front.occupied(f, s));
                assert(merged.occupied(f, s));
                assert(self.occupied(f, s));
            }
            assert forall|f: int, s: int|
                #![trigger self.head_of(f, s)]
                0 <= f < old(self).num_first_levels() && 0 <= s < 32 && !(f
                    == merged_class.0 as int && s == merged_class.1 as int) && !(f == fc0 && s
                    == fc1) && !(f == bc0 && s == bc1) implies self.head_of(f, s) == old(
                self,
            ).head_of(f, s) by {
                assert(merged_front.head_of(f, s) == old(self).head_of(f, s));
                assert(merged.head_of(f, s) == merged_front.head_of(f, s));
                assert(self.head_of(f, s) == merged.head_of(f, s));
            }
            assert forall|j: int|
                0 <= j < old(self).num_headers() && j != idx && old(self).hdr(j).pool is Some
                    && Some(j as usize) != p_opt && Some(j as usize) != n_opt && old(
                    self,
                ).hdr_class(j) != merged_class && !(old(self).hdr_class(j).0 as int == fc0 && old(
                    self,
                ).hdr_class(j).1 as int == fc1) && !(old(self).hdr_class(j).0 as int == bc0
                    && old(self).hdr_class(j).1 as int == bc1) implies {
                &&& (#[trigger] self.hdr(j)).next_free == old(self).hdr(j).next_free
                &&& self.hdr(j).prev_free == old(self).hdr(j).prev_free
                &&& self.hdr(j).first_free_flag == old(self).hdr(j).first_free_flag
            } by {
                assert(merged_front.hdr(j).next_free == old(self).hdr(j).next_free
                    && merged_front.hdr(j).prev_free == old(self).hdr(j).prev_free
                    && merged_front.hdr(j).first_free_flag == old(self).hdr(j).first_free_flag);
                assert(merged_front.hdr(j).pool == old(self).hdr(j).pool && merged_front.hdr(
                    j,
                ).size == old(self).hdr(j).size);
                assert(merged_front.hdr_class(j) == old(self).hdr_class(j));
                assert(merged.hdr(j).next_free == merged_front.hdr(j).next_free && merged.hdr(
                    j,
                ).prev_free == merged_front.hdr(j).prev_free && merged.hdr(j).first_free_flag
                    == merged_front.hdr(j).first_free_flag);
                assert(merged.hdr(j).size == merged_front.hdr(j).size && merged.hdr(j).pool
                    == merged_front.hdr(j).pool);
                if Some(j as usize) == merged.head_of(
                    merged_class.0 as int,
                    merged_class.1 as int,
                ) {
                    // the reinsertion class's old head is a free block of
                    // that class already
                    assert(merged.wf());
                    assert(merged.is_free_block_at(j));
                    assert(merged.hdr_class(j) == merged_class);
                    assert(old(self).hdr_class(j) == merged_class);
                    assert(false);
                }
                assert(self.hdr(j).next_free == merged.hdr(j).next_free && self.hdr(j).prev_free
                    == merged.hdr(j).prev_free && self.hdr(j).first_free_flag == merged.hdr(
                    j,
                ).first_free_flag);
            }
        }
    }

    /// Minimum granularity: in a well-formed allocator, every block bound
    /// to a page — free or allocated — spans a multiple of the minimum
    /// block size, starting at a multiple of it.
    pub proof fn lemma_min_granularity(self, i: int)
        requires
            self.wf(),
            self.is_live(i),
        ensures
            self.hdr(i).size >= MIN_BLOCK_SIZE,
            self.hdr(i).size % MIN_BLOCK_SIZE == 0,
            self.hdr(i).base_offset % MIN_BLOCK_SIZE == 0,
    {
        assert(self.wf_header(i));
    }

    /// Physically adjacent blocks tile the page exactly: the next block of
    /// a page starts where the previous one ends, so the byte ranges of two
    /// linked blocks never overlap.
    pub proof fn lemma_adjacent_blocks_disjoint(self, i: int, j: int)
        requires
            self.wf(),
            self.is_live(i),
            self.hdr(i).next_physical == Some(j as usize),
            0 <= j < self.num_headers(),
        ensures
            self.is_live(j),
            self.hdr(j).pool == self.hdr(i).pool,
            self.hdr(j).base_offset == self.hdr(i).base_offset + self.hdr(i).size,
            self.hdr(i).size >= MIN_BLOCK_SIZE,
    {
        assert(self.wf_header(i));
        Self::lemma_arena_len_bound(self);
    }

    /// Blocks of one page are totally ordered by offset: of two distinct
    /// blocks, the lower one ends at or before the higher one begins; and
    /// no two distinct blocks share an offset. Walking predecessor links
    /// back to the page's unique chain head grounds the induction.
    pub proof fn lemma_blocks_ordered(self, i: int, j: int)
        requires
            self.wf(),
            self.is_live(i),
            self.is_live(j),
            self.hdr(i).pool == self.hdr(j).pool,
            self.hdr(i).base_offset <= self.hdr(j).base_offset,
        ensures
            self.hdr(i).base_offset == self.hdr(j).base_offset ==> i == j,
            self.hdr(i).base_offset < self.hdr(j).base_offset ==> self.hdr(i).base_offset
                + self.hdr(i).size <= self.hdr(j).base_offset,
        decreases self.hdr(j).base_offset,
    {
        Self::lemma_arena_len_bound(self);
        assert(self.wf_header(i));
        assert(self.wf_header(j));
        let ghost pi_opt = self.hdr(i).prev_physical;
        let ghost pj_opt = self.hdr(j).prev_physical;
        if self.hdr(i).base_offset == self.hdr(j).base_offset {
            if i != j {
                if self.hdr(j).base_offset == 0 {
                    // at offset 0 neither block has a predecessor, and a
                    // page has only one chain head
                    match pi_opt {
                        Some(q) => {
                            assert(self.hdr(q as int).next_physical == Some(i as usize));
                            assert(self.wf_header(q as int));
                            assert(self.hdr(i).base_offset >= 32);
                        },
                        None => {},
                    }
                    match pj_opt {
                        Some(q) => {
                            assert(self.hdr(q as int).next_physical == Some(j as usize));
                            assert(self.wf_header(q as int));
                            assert(self.hdr(j).base_offset >= 32);
                        },
                        None => {},
                    }
                    assert(self.is_page_head(i) && self.is_page_head(j));
                    assert(false);
                } else {
                    // above offset 0 both have predecessors, which end at
                    // the shared offset and therefore coincide
                    match (pi_opt, pj_opt) {
                        (Some(pi), Some(pj)) => {
                            assert(self.hdr(pi as int).next_physical == Some(i as usize));
                            assert(self.hdr(pj as int).next_physical == Some(j as usize));
                            assert(self.wf_header(pi as int));
                            assert(self.wf_header(pj as int));
                            let oi = self.hdr(pi as int).base_offset as int;
                            let oj = self.hdr(pj as int).base_offset as int;
                            if oi == oj {
                                self.lemma_blocks_ordered(pi as int, pj as int);
                                assert(pi == pj);
                                assert(false);
                            } else if oi < oj {
                                self.lemma_blocks_ordered(pi as int, pj as int);
                                assert(false);
                            } else {
                                self.lemma_blocks_ordered(pj as int, pi as int);
                                assert(false);
                            }
                        },
                        _ => {},
                    }
                }
            }
        } else {
            // the higher block's predecessor ends exactly where the higher
            // block begins; place the lower block against it
            match pj_opt {
                Some(pj) => {
                    assert(self.hdr(pj as int).next_physical == Some(j as usize));
                    assert(self.wf_header(pj as int));
                    let oi = self.hdr(i).base_offset as int;
                    let oj = self.hdr(pj as int).base_offset as int;
                    if oi == oj {
                        self.lemma_blocks_ordered(i, pj as int);
                        assert(i == pj as int);
                    } else if oi < oj {
                        self.lemma_blocks_ordered(i, pj as int);
                    } else {
                        self.lemma_blocks_ordered(pj as int, i);
                        assert(false);
                    }
                },
                None => {
                    assert(self.hdr(j).base_offset == 0);
                    assert(false);
                },
            }
        }
    }

    /// No two distinct blocks of one page overlap: their byte ranges are
    /// disjoint, free or allocated alike. In particular no two live
    /// allocations ever share a byte.
    pub proof fn lemma_live_blocks_disjoint(self, i: int, j: int)
        requires
            self.wf(),
            self.is_live(i),
            self.is_live(j),
            i != j,
            self.hdr(i).pool == self.hdr(j).pool,
        ensures
            self.hdr(i).base_offset + self.hdr(i).size <= self.hdr(j).base_offset || self.hdr(
                j,
            ).base_offset + self.hdr(j).size <= self.hdr(i).base_offset,
    {
        if self.hdr(i).base_offset <= self.hdr(j).base_offset {
            self.lemma_blocks_ordered(i, j);
        } else {
            self.lemma_blocks_ordered(j, i);
        }
    }

    /// Coalescing restores whole pages: when every block of a page is
    /// free, the page holds exactly one block, free and spanning the whole
    /// registered region.
    pub proof fn lemma_all_free_restores_page(self, j: int)
        requires
            self.wf(),
            self.is_live(j),
            forall|k: int|
                self.is_live(k) && (#[trigger] self.hdr(k)).pool == self.hdr(j).pool
                    ==> self.hdr(k).free_flag,
        ensures
            self.hdr(j).base_offset == 0,
            (self.hdr(j).pool matches Some(q) ==> self.hdr(j).size == self.page_size(q as int)),
            forall|k: int|
                self.is_live(k) && (#[trigger] self.hdr(k)).pool == self.hdr(j).pool ==> k == j,
    {
        Self::lemma_arena_len_bound(self);
        assert(self.wf_header(j));
        assert(self.hdr(j).free_flag);
        match self.hdr(j).prev_physical {
            Some(q) => {
                // a free block has no free physical predecessor
                assert(self.hdr(q as int).next_physical == Some(j as usize));
                assert(self.wf_header(q as int));
                assert(self.hdr(q as int).free_flag);
                assert(false);
            },
            None => {},
        }
        match self.hdr(j).next_physical {
            Some(t) => {
                // nor a free physical successor
                assert(self.is_live(t as int));
                assert(self.hdr(t as int).free_flag);
                assert(false);
            },
            None => {},
        }
        assert forall|k: int|
            self.is_live(k) && (#[trigger] self.hdr(k)).pool == self.hdr(j).pool implies k
            == j by {
            if k != j {
                assert(self.wf_header(k));
                self.lemma_live_blocks_disjoint(k, j);
                assert(false);
            }
        }
    }

    /// Eager coalescing: in a well-formed allocator, two physically
    /// adjacent blocks are never both free. `free` merges neighbours before
    /// reinserting, so this holds again by the time each call returns.
    pub proof fn lemma_no_adjacent_free(self, i: int, j: int)
        requires
            self.wf(),
            self.is_free_block_at(i),
            self.hdr(i).next_physical == Some(j as usize) || self.hdr(i).prev_physical == Some(
                j as usize,
            ),
            0 <= j < self.num_headers(),
        ensures
            !self.hdr(j).free_flag,
    {
        assert(self.wf_header(i));
        Self::lemma_arena_len_bound(self);
        if self.hdr(i).prev_physical == Some(j as usize) {
            assert(self.hdr(j).next_physical == Some(i as usize));
            assert(self.wf_header(j));
        }
    }

}

} // verus!
