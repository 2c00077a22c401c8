//! The pool: slot size and alignment, the chain of blocks, the freelist.
use vstd::prelude::*;
use crate::bitmap::BitMap;
use crate::block_source::{BlockSource, SourceCall};
use crate::errors::AllocErr;
use crate::freelist::FreeList;
use crate::layout::{round_up, lemma_round_up};
use crate::model::{BlockView, PoolView, word_size, word_align, header_size, block_layout_spec, fresh_block, next_block_size_spec, growth_target, lemma_growth_target};

verus! {

broadcast use vstd::layout::layout_of_primitives, vstd::layout::align_nonzero;

/// Factor by which each new block outgrows the previous one.
const MUL_CONSTANT: usize = 2;

/// Size in bytes of a pointer (a machine word).
fn pointer_size() -> (r: usize)
    ensures
        r == word_size(),
        0 < r <= 8,
{
    core::mem::size_of::<usize>()
}

/// Alignment of a pointer (a machine word).
fn pointer_align() -> (r: usize)
    ensures
        r == word_align(),
        r > 0,
{
    core::mem::align_of::<usize>()
}

/// Bytes reserved for the header record at the start of every block.
fn block_header_size() -> (r: usize)
    ensures
        r == header_size(),
        0 < r <= 56,
{
    7 * pointer_size()
}

/// The alignment a pool asked for `align` gives its slots: at least a
/// pointer's alignment.
pub open spec fn slot_align_for(align: int) -> int {
    if align > word_align() {
        align
    } else {
        word_align()
    }
}

/// The slot size a pool asked for `size` and `align` uses: at least a
/// pointer's size, rounded up to the slot alignment.
pub open spec fn slot_size_for(size: int, align: int) -> int {
    round_up(if size > word_size() { size } else { word_size() }, slot_align_for(align))
}

/// The slot part of what `try_allocate_with` returns.
pub open spec fn slot_result<T>(r: Result<(usize, T), AllocErr>) -> Result<usize, AllocErr> {
    match r {
        Ok((a, _)) => Ok(a),
        Err(e) => Err(e),
    }
}

/// Header of one block of memory from the block source.
///
/// ```text
/// base
///  |
///  v
/// +--------+--------+-----+-----+-----+---------+
/// | header | bitmap |  A  |  B  |  C  |  free   |
/// +--------+--------+-----+-----+-----+---------+
/// ^                 ^                 ^         ^
/// base              first slot        hwm       end
/// ```
///
/// Slots below `hwm` are either live or on the freelist; slots at or above
/// `hwm` have never been handed out.
#[derive(Debug)]
pub struct Block {
    /// Base address returned by the block source.
    pub base: usize,
    /// Total block size in bytes.
    pub size: usize,
    /// High-water mark: the first never-allocated byte of the slot area.
    pub hwm: usize,
    /// One-past-the-end address of the block.
    pub end: usize,
    /// Allocation-state bitmap for the slots of this block.
    pub bitmap: BitMap,
}

impl View for Block {
    type V = BlockView;

    open spec fn view(&self) -> BlockView {
        BlockView {
            base: self.base,
            size: self.size,
            hwm: self.hwm,
            end: self.end,
            bitmap_size: self.bitmap.byte_len(),
            bits: self.bitmap@,
        }
    }
}

impl Block {
    /// Builds a block header value.
    pub fn new(base: usize, size: usize, hwm: usize, end: usize, bitmap: BitMap) -> (r: Self)
        ensures
            r.base == base,
            r.size == size,
            r.hwm == hwm,
            r.end == end,
            r.bitmap == bitmap,
    {
        Block { base, size, hwm, end, bitmap }
    }

    /// Returns the block base address.
    pub fn ptr(&self) -> (r: usize)
        ensures
            r == self.base,
    {
        self.base
    }

    /// Returns the block size.
    pub fn size(&self) -> (r: usize)
        ensures
            r == self.size,
    {
        self.size
    }

    /// Returns the current high-water mark.
    pub fn hwm(&self) -> (r: usize)
        ensures
            r == self.hwm,
    {
        self.hwm
    }
}

/// Fixed-size slot allocator backed by blocks from a `BlockSource`.
///
/// Allocation reuses the most recently freed slot; failing that it bumps
/// the active block's high-water mark; failing that it adds a larger block
/// and hands out its first slot. `release` hands every block back to the
/// source.
pub struct Pool<S: BlockSource> {
    /// Stack of freed slots ready to be reused.
    freelist: FreeList,
    /// Size of each slot after rounding up for pointer storage and alignment.
    slot_size: usize,
    /// Alignment promised for every slot returned by this pool.
    slot_align: usize,
    /// Blocks, oldest first; the last one is the active block.
    blocks: Vec<Block>,
    /// Backend that maps and unmaps blocks.
    source: S,
    /// The calls the pool has made on `source`, oldest first.
    calls: Ghost<Seq<SourceCall>>,
}

impl<S: BlockSource> View for Pool<S> {
    type V = PoolView;

    closed spec fn view(&self) -> PoolView {
        PoolView {
            slot_size: self.slot_size,
            slot_align: self.slot_align,
            blocks: self.blocks@.map_values(|b: Block| b@),
            free: self.freelist@,
        }
    }
}

impl<S: BlockSource> Pool<S> {
    /// Creates a pool of slots of at least `size` bytes aligned to `align`,
    /// with blocks from `source`.
    pub fn new(size: usize, align: usize, source: S) -> (r: Self)
        requires
            vstd::arithmetic::power2::is_pow2(align as int),
            (if size > word_size() { size as int } else { word_size() }) + slot_align_for(
                align as int,
            ) - 1 <= usize::MAX,
        ensures
            r@.slot_align == slot_align_for(align as int),
            r@.slot_size == slot_size_for(size as int, align as int),
            r@.blocks.len() == 0,
            r@.free.len() == 0,
            r@.wf(),
            r.source() == source,
            r.source_calls() == Seq::<SourceCall>::empty(),
    {
        let pa = pointer_align();
        let align = if align > pa {
            align
        } else {
            pa
        };
        let ps = pointer_size();
        let size = if size > ps {
            size
        } else {
            ps
        };
        let aligned_size = match Self::align_up(size, align) {
            Some(s) => s,
            None => 0,
        };
        proof {
            lemma_round_up(size as int, align as int);
        }
        let r = Pool {
            freelist: FreeList::dangling(),
            slot_size: aligned_size,
            slot_align: align,
            blocks: Vec::new(),
            source,
            calls: Ghost(Seq::empty()),
        };
        proof {
            assert(r@.blocks =~= Seq::<BlockView>::empty());
        }
        r
    }

    /// The block source the pool holds.
    pub closed spec fn source(&self) -> S {
        self.source
    }

    /// The calls the pool has made on its block source, oldest first.
    pub closed spec fn source_calls(&self) -> Seq<SourceCall> {
        self.calls@
    }

    /// Asks the source for a block of `size` bytes.
    fn source_map(&mut self, size: usize) -> (r: usize)
        ensures
            final(self)@ == old(self)@,
            final(self).blocks@ == old(self).blocks@,
            final(self).source_calls() == old(self).source_calls().push(
                SourceCall::Mapped { size, base: r },
            ),
    {
        let base = self.source.map(size);
        proof {
            self.calls@ = self.calls@.push(SourceCall::Mapped { size, base });
        }
        base
    }

    /// Hands the block of `size` bytes at `ptr` back to the source.
    fn source_unmap(&mut self, ptr: usize, size: usize)
        ensures
            final(self)@ == old(self)@,
            final(self).blocks@ == old(self).blocks@,
            final(self).source_calls() == old(self).source_calls().push(
                SourceCall::Unmapped { ptr, size },
            ),
    {
        self.source.unmap(ptr, size);
        proof {
            self.calls@ = self.calls@.push(SourceCall::Unmapped { ptr, size });
        }
    }

    /// Asks the source for its page size.
    fn source_page_size(&mut self) -> (r: usize)
        ensures
            final(self)@ == old(self)@,
            final(self).blocks@ == old(self).blocks@,
            final(self).source_calls() == old(self).source_calls().push(
                SourceCall::PageSize { page: r },
            ),
    {
        let page = self.source.page_size();
        proof {
            self.calls@ = self.calls@.push(SourceCall::PageSize { page });
        }
        page
    }

    /// Size of every slot of this pool.
    pub fn slot_size(&self) -> (r: usize)
        ensures
            r == self@.slot_size,
    {
        self.slot_size
    }

    /// Alignment of every slot of this pool.
    pub fn slot_align(&self) -> (r: usize)
        ensures
            r == self@.slot_align,
    {
        self.slot_align
    }

    /// The most recent block, from which never-used slots are handed out.
    pub fn active_block(&self) -> (r: Option<&Block>)
        ensures
            self@.blocks.len() == 0 ==> r is None,
            self@.blocks.len() > 0 ==> (r matches Some(b) && b@ == self@.blocks.last()),
    {
        if self.blocks.len() == 0 {
            None
        } else {
            Some(&self.blocks[self.blocks.len() - 1])
        }
    }

    /// Rounds `size` up to a multiple of `align`; `None` on overflow.
    pub fn align_up(size: usize, align: usize) -> (r: Option<usize>)
        requires
            align > 0,
        ensures
            size + align - 1 <= usize::MAX ==> r == Some(round_up(size as int, align as int) as usize),
            size + align - 1 > usize::MAX ==> r is None,
    {
        match size.checked_add(align - 1) {
            Some(res) => {
                proof {
                    lemma_round_up(size as int, align as int);
                }
                Some(res - res % align)
            },
            None => None,
        }
    }

    /// Rounds `size` up to a multiple of `align`, for sizes already known
    /// not to overflow.
    pub fn align_up_unchecked(size: usize, align: usize) -> (r: usize)
        requires
            align > 0,
            size + align - 1 <= usize::MAX,
        ensures
            r == round_up(size as int, align as int),
    {
        proof {
            lemma_round_up(size as int, align as int);
        }
        let res = size + (align - 1);
        res - res % align
    }
}


impl<S: BlockSource> Pool<S> {
    /// Returns the address of the first slot of `block`: past the header and
    /// the bitmap, rounded up to the slot size.
    fn get_first_block_ptr(&self, block: &Block) -> (r: usize)
        requires
            self@.slot_size > 0,
            block@.wf(self@.ss(), self@.slot_align as int),
        ensures
            r == block@.first(self@.ss()),
    {
        proof {
            block@.lemma_first(self@.ss());
        }
        let offset = Self::align_up_unchecked(
            block_header_size() + block.bitmap.size(),
            self.slot_size,
        );
        block.base + offset
    }

    /// Returns how many bytes the block header and a bitmap of
    /// `bitmap_size` bytes occupy together, rounded up to the slot size.
    fn get_header_bitmap_size(&self, bitmap_size: usize) -> (r: usize)
        requires
            self@.slot_size > 0,
            header_size() + bitmap_size + self@.slot_size - 1 <= usize::MAX,
        ensures
            r == round_up(header_size() + bitmap_size, self@.ss()),
    {
        Self::align_up_unchecked(block_header_size() + bitmap_size, self.slot_size)
    }

    /// Finds the block whose handed-out slot area holds `ptr`, searching from
    /// the active block back to the oldest.
    fn get_block(&self, ptr: usize) -> (r: Option<usize>)
        requires
            self@.shape_wf(),
        ensures
            r is None <==> !self@.held(ptr as int),
            r matches Some(i) ==> i < self@.blocks.len() && self@.holds(i as int, ptr as int),
    {
        if ptr == 0 {
            proof {
                if self@.held(0) {
                    let j = choose|j: int| self@.holds(j, 0);
                    self@.lemma_held_in_block(j, 0);
                }
            }
            return None;
        }
        let mut current = self.blocks.len();
        while current > 0
            invariant
                current <= self.blocks.len(),
                self@.shape_wf(),
                forall|j: int| current <= j < self.blocks.len() ==> !self@.holds(j, ptr as int),
            decreases current,
        {
            current = current - 1;
            let block = &self.blocks[current];
            proof {
                assert(self@.blocks[current as int] == block@);
                assert(self@.blocks[current as int].wf(self@.ss(), self@.slot_align as int));
            }
            let region_start_ptr = self.get_first_block_ptr(block);
            if ptr >= region_start_ptr && ptr < block.hwm {
                proof {
                    assert(self@.holds(current as int, ptr as int));
                }
                return Some(current);
            }
        }
        None
    }

    /// Computes the index of the slot that starts at `ptr` in `block`.
    fn get_slot_index(&self, ptr: usize, block: &Block) -> (r: usize)
        requires
            self@.slot_size > 0,
            block@.wf(self@.ss(), self@.slot_align as int),
            block@.first(self@.ss()) <= ptr,
            (ptr - block@.first(self@.ss())) % self@.ss() == 0,
        ensures
            r == block@.index_of(self@.ss(), ptr as int),
    {
        let first_block = self.get_first_block_ptr(block);
        (ptr - first_block) / self.slot_size
    }

    /// Attempts an allocation without a new block: the most recently freed
    /// slot, else the active block's next never-used slot.
    fn try_allocate_fast(&mut self) -> (r: Option<usize>)
        requires
            old(self)@.wf(),
        ensures
            final(self)@.wf(),
            old(self)@.free.len() > 0 ==> r == Some(old(self)@.free.last()) && final(self)@ == old(
                self,
            )@.taken(),
            old(self)@.free.len() == 0 && old(self)@.can_bump() ==> r == Some(
                old(self)@.bump_addr(),
            ) && final(self)@ == old(self)@.bumped(),
            old(self)@.free.len() == 0 && !old(self)@.can_bump() ==> r is None && final(self)@
                == old(self)@,
            final(self).source() == old(self).source(),
            final(self).source_calls() == old(self).source_calls(),
    {
        let ghost pre = self@;
        if let Some(slot) = self.freelist.get_slot() {
            proof {
                pre.lemma_taken();
                assert(self@.blocks == pre.blocks);
                assert(self@.shape_wf());
                assert(self@.holds(pre.holder(slot as int), slot as int));
            }
            let bi = match self.get_block(slot) {
                Some(i) => i,
                None => {
                    proof {
                        assert(false);
                    }
                    return None;
                },
            };
            proof {
                pre.lemma_holder(bi as int, slot as int);
                assert(pre.blocks[bi as int].wf(pre.ss(), pre.slot_align as int));
                pre.blocks[bi as int].lemma_slot(pre.ss(), pre.slot_align as int, slot as int);
                self.blocks[bi as int].bitmap.lemma_len();
            }
            let slot_index = self.get_slot_index(slot, &self.blocks[bi]);
            self.blocks[bi].bitmap.set(slot_index, None);
            proof {
                let t = pre.taken();
                assert(self@.blocks =~= t.blocks);
                assert(self@ == t);
            }
            return Some(slot);
        }
        if self.blocks.len() > 0 {
            let last = self.blocks.len() - 1;
            let hwm = self.blocks[last].hwm;
            let end = self.blocks[last].end;
            proof {
                assert(pre.blocks[last as int].wf(pre.ss(), pre.slot_align as int));
            }
            if self.slot_size <= end - hwm {
                proof {
                    pre.lemma_bumped();
                    self.blocks[last as int].bitmap.lemma_len();
                }
                let slot_index = self.get_slot_index(hwm, &self.blocks[last]);
                self.blocks[last].bitmap.set(slot_index, None);
                self.blocks[last].hwm = hwm + self.slot_size;
                proof {
                    let t = pre.bumped();
                    assert(self@.blocks =~= t.blocks);
                    assert(self@ == t);
                }
                return Some(hwm);
            }
        }
        None
    }
}

impl<S: BlockSource> Pool<S> {
    /// Where a block of `size` bytes would put its bitmap and its first
    /// slot: `Some((bitmap bytes, offset of the first slot))` when the block
    /// has room for the header, the bitmap and at least one slot.
    fn block_layout(&self, size: usize) -> (r: Option<(usize, usize)>)
        requires
            self@.slot_size > 0,
        ensures
            r == match block_layout_spec(size as int, self@.ss()) {
                Some((b, o)) => Some((b as usize, o as usize)),
                None => None::<(usize, usize)>,
            },
    {
        let header = block_header_size();
        if size < header {
            return None;
        }
        let remaining_bytes = size - header;
        let bitmap_size = BitMap::required_bytes(remaining_bytes, self.slot_size);
        proof {
            let n = remaining_bytes as int / self@.ss();
            crate::layout::lemma_div_monotone(0, remaining_bytes as int, self@.ss());
            vstd::arithmetic::div_mod::lemma_div_is_ordered_by_denominator(
                remaining_bytes as int,
                1,
                self@.ss(),
            );
            assert((n + 7) / 8 <= n || n == 0);
            assert(bitmap_size <= remaining_bytes);
            lemma_round_up(header_size() + bitmap_size, self@.ss());
        }
        let used = header + bitmap_size;
        if used > usize::MAX - (self.slot_size - 1) {
            return None;
        }
        let header_bitmap_size = self.get_header_bitmap_size(bitmap_size);
        if header_bitmap_size <= size && self.slot_size <= size - header_bitmap_size {
            Some((bitmap_size, header_bitmap_size))
        } else {
            None
        }
    }

    /// Size of the block that follows a block of `prev_size` bytes: twice
    /// as large, and at least `prev_size` rounded up to `page_size`.
    pub fn next_block_size(prev_size: usize, page_size: usize) -> (r: Result<usize, AllocErr>)
        requires
            page_size > 0,
        ensures
            r == match next_block_size_spec(prev_size as int, page_size as int) {
                Some(n) => Ok::<usize, AllocErr>(n as usize),
                None => Err(AllocErr::Overflow),
            },
            r matches Ok(n) ==> next_block_size_spec(prev_size as int, page_size as int) == Some(
                n as int,
            ),
    {
        let aligned_size = match Self::align_up(prev_size, page_size) {
            Some(size) => size,
            None => return Err(AllocErr::Overflow),
        };
        proof {
            lemma_round_up(prev_size as int, page_size as int);
        }
        let new_block_size: usize = match prev_size.checked_mul(MUL_CONSTANT) {
            Some(s) => if s > aligned_size {
                s
            } else {
                aligned_size
            },
            None => aligned_size,
        };
        Ok(new_block_size)
    }

    /// Takes a block of `size` bytes that the block source mapped at `base`
    /// and makes it the active block, or refuses it: a null address is no
    /// memory; a wrapping address, or one overlapping a block the pool holds,
    /// is no usable memory and a block not aligned to the slot alignment is
    /// refused as misaligned, and either is handed back to the source.
    pub fn adopt_block(&mut self, base: usize, size: usize) -> (r: Result<(), AllocErr>)
        requires
            old(self)@.wf(),
            block_layout_spec(size as int, old(self)@.ss()) is Some,
        ensures
            final(self)@.wf(),
            r == old(self)@.adopt_result(base, size),
            r is Ok <==> old(self)@.accepts(base, size),
            r is Ok ==> final(self)@ == old(self)@.grown(fresh_block(base, size, old(self)@.ss())),
            r is Err ==> final(self)@ == old(self)@,
            final(self).source_calls() == old(self).source_calls() + old(self)@.adopt_calls(
                base,
                size,
            ),
    {
        let ghost pre = self@;
        if base == 0 {
            proof {
                assert(self.source_calls() =~= old(self).source_calls() + pre.adopt_calls(
                    base,
                    size,
                ));
            }
            return Err(AllocErr::OutOfMemory);
        }
        let end = match base.checked_add(size) {
            Some(e) => e,
            None => {
                self.source_unmap(base, size);
                proof {
                    assert(self.source_calls() =~= old(self).source_calls() + pre.adopt_calls(
                        base,
                        size,
                    ));
                }
                return Err(AllocErr::OutOfMemory);
            },
        };
        if base % self.slot_align != 0 {
            self.source_unmap(base, size);
            proof {
                assert(self.source_calls() =~= old(self).source_calls() + pre.adopt_calls(
                    base,
                    size,
                ));
            }
            return Err(AllocErr::InvalidAlignment);
        }
        let mut i: usize = 0;
        while i < self.blocks.len()
            invariant
                self@ == pre,
                pre == old(self)@,
                self.source_calls() == old(self).source_calls(),
                pre.wf(),
                base != 0,
                base + size <= usize::MAX,
                (base as int) % (pre.slot_align as int) == 0,
                i <= self.blocks.len(),
                end == base + size,
                forall|j: int|
                    0 <= j < i ==> base + size <= #[trigger] pre.blocks[j].base
                        || pre.blocks[j].end <= base,
            decreases self.blocks.len() - i,
        {
            let b = &self.blocks[i];
            proof {
                assert(pre.blocks[i as int] == b@);
            }
            if !(end <= b.base || b.end <= base) {
                proof {
                    assert(!(base + size <= pre.blocks[i as int].base || pre.blocks[i as int].end
                        <= base));
                }
                self.source_unmap(base, size);
                    proof {
                        assert(self.source_calls() =~= old(self).source_calls() + pre.adopt_calls(
                            base,
                            size,
                        ));
                    }
                return Err(AllocErr::OutOfMemory);
            }
            i = i + 1;
        }
        let (bitmap_size, header_bitmap_size) = match self.block_layout(size) {
            Some(l) => l,
            None => {
                proof {
                    assert(false);
                }
                return Err(AllocErr::OutOfMemory);
            },
        };
        proof {
            pre.lemma_grown(base, size);
            pre.lemma_fresh_block(base, size);
        }
        let new_block = Block::new(
            base,
            size,
            base + header_bitmap_size,
            end,
            BitMap::new(bitmap_size),
        );
        self.blocks.push(new_block);
        proof {
            let nb = fresh_block(base, size, pre.ss());
            assert(new_block@.bits =~= nb.bits);
            assert(new_block@ == nb);
            assert(self@.blocks =~= pre.grown(nb).blocks);
            assert(self.source_calls() =~= old(self).source_calls() + pre.adopt_calls(
                base,
                size,
            ));
        }
        Ok(())
    }

    /// Asks the block source for a block of `size` bytes and adds it as the
    /// active block.
    fn new_block(&mut self, size: usize) -> (r: Result<(), AllocErr>)
        requires
            old(self)@.wf(),
            block_layout_spec(size as int, old(self)@.ss()) is Some,
        ensures
            final(self)@.wf(),
            exists|base: usize|
                {
                    &&& #[trigger] old(self)@.adopt_result(base, size) == r
                    &&& final(self).source_calls() == old(self).source_calls().push(
                        SourceCall::Mapped { size, base },
                    ) + old(self)@.adopt_calls(base, size)
                    &&& r is Ok ==> final(self)@ == old(self)@.grown(
                        fresh_block(base, size, old(self)@.ss()),
                    )
                    &&& r is Err ==> final(self)@ == old(self)@
                },
    {
        let ptr = self.source_map(size);
        let r = self.adopt_block(ptr, size);
        proof {
            assert(old(self)@.adopt_result(ptr, size) == r);
        }
        r
    }

    /// Size of the active block; 1 before the first block, so that the
    /// first block is one page.
    fn active_size(&self) -> (r: usize)
        requires
            self@.shape_wf(),
        ensures
            r == self@.active_size(),
            r >= 1,
    {
        if self.blocks.len() == 0 {
            1
        } else {
            proof {
                let l = self@.blocks.len() - 1;
                assert(self@.blocks[l].wf(self@.ss(), self@.slot_align as int));
                self@.blocks[l].lemma_first(self@.ss());
            }
            self.blocks[self.blocks.len() - 1].size
        }
    }

    /// Size of the block to ask the source for when the active block is
    /// `prev_size` bytes and the source's page size is `page_size`: the first
    /// size after `prev_size` in the growth sequence (twice as large, and at
    /// least rounded up to the page size) with room for a header, a bitmap
    /// and one slot. Fails with `Overflow` when the page size is 0 or the
    /// sequence overflows before reaching such a size.
    pub fn growth_size(&self, prev_size: usize, page_size: usize) -> (r: Result<usize, AllocErr>)
        requires
            self@.slot_size > 0,
        ensures
            r == match growth_target(prev_size as int, page_size as int, self@.ss()) {
                Some(n) => Ok::<usize, AllocErr>(n as usize),
                None => Err(AllocErr::Overflow),
            },
            r matches Ok(n) ==> growth_target(prev_size as int, page_size as int, self@.ss())
                == Some(n as int),
    {
        if page_size == 0 {
            return Err(AllocErr::Overflow);
        }
        let mut prev = prev_size;
        loop
            invariant
                self@.slot_size > 0,
                page_size > 0,
                growth_target(prev as int, page_size as int, self@.ss()) == growth_target(
                    prev_size as int,
                    page_size as int,
                    self@.ss(),
                ),
            decreases usize::MAX - prev,
        {
            let new_block_size = match Self::next_block_size(prev, page_size) {
                Ok(n) => n,
                Err(e) => return Err(e),
            };
            if new_block_size <= prev {
                return Err(AllocErr::Overflow);
            }
            proof {
                assert(next_block_size_spec(prev as int, page_size as int) == Some(
                    new_block_size as int,
                ));
            }
            let layout = self.block_layout(new_block_size);
            if layout.is_some() {
                proof {
                    assert(block_layout_spec(new_block_size as int, self@.ss()) is Some);
                    assert(growth_target(prev as int, page_size as int, self@.ss()) == Some(
                        new_block_size as int,
                    ));
                }
                return Ok(new_block_size);
            }
            proof {
                assert(block_layout_spec(new_block_size as int, self@.ss()) is None);
                assert(growth_target(prev as int, page_size as int, self@.ss())
                    == growth_target(new_block_size as int, page_size as int, self@.ss()));
            }
            prev = new_block_size;
        }
    }

    /// Adds a block larger than the active one, large enough for at least
    /// one slot, and hands out its first slot.
    fn try_allocate_slow(&mut self) -> (r: Result<usize, AllocErr>)
        requires
            old(self)@.wf(),
            old(self)@.free.len() == 0,
            !old(self)@.can_bump(),
        ensures
            final(self)@.wf(),
            exists|calls: Seq<SourceCall>|
                {
                    &&& #[trigger] old(self)@.alloc_outcome(
                        final(self)@,
                        r,
                        calls,
                    )
                    &&& final(self).source_calls() == old(self).source_calls() + calls
                },
    {
        let ghost pre = self@;
        let ghost log0 = self.source_calls();
        let page_size = self.source_page_size();
        let ghost log = self.source_calls();
        let ghost first = seq![SourceCall::PageSize { page: page_size }];
        let prev_size = self.active_size();
        let new_block_size = match self.growth_size(prev_size, page_size) {
            Ok(n) => n,
            Err(e) => {
                proof {
                    assert(first.drop_first() =~= Seq::<SourceCall>::empty());
                    assert(pre.grow_from_page(self@, Err(e), page_size, first.drop_first()));
                    assert(pre.alloc_outcome(self@, Err(e), first));
                    assert(self.source_calls() =~= log0 + first);
                }
                return Err(e);
            },
        };
        proof {
            lemma_growth_target(prev_size as int, page_size as int, pre.ss());
        }
        let added = self.new_block(new_block_size);
        let ghost base = choose|base: usize|
            {
                &&& #[trigger] pre.adopt_result(base, new_block_size) == added
                &&& self.source_calls() == log.push(
                    SourceCall::Mapped { size: new_block_size, base },
                ) + pre.adopt_calls(base, new_block_size)
                &&& added is Ok ==> self@ == pre.grown(fresh_block(base, new_block_size, pre.ss()))
                &&& added is Err ==> self@ == pre
            };
        let ghost rest = seq![SourceCall::Mapped { size: new_block_size, base }]
            + pre.adopt_calls(base, new_block_size);
        let ghost calls = first + rest;
        proof {
            assert(self.source_calls() =~= log0 + calls);
            assert(calls.drop_first() =~= rest);
        }
        match added {
            Ok(()) => {},
            Err(e) => {
                proof {
                    assert(pre.grow_outcome(self@, Err(e), base, new_block_size));
                    assert(pre.grow_from_page(self@, Err(e), page_size, rest));
                    assert(pre.alloc_outcome(self@, Err(e), calls));
                }
                return Err(e);
            },
        }
        proof {
            let g = pre.grown(fresh_block(base, new_block_size, pre.ss()));
            pre.lemma_fresh_block(base, new_block_size);
            assert(g.can_bump());
        }
        match self.try_allocate_fast() {
            Some(slot) => {
                proof {
                    assert(pre.grow_outcome(self@, Ok(slot), base, new_block_size));
                    assert(pre.grow_from_page(self@, Ok(slot), page_size, rest));
                    assert(pre.alloc_outcome(self@, Ok(slot), calls));
                }
                Ok(slot)
            },
            None => {
                proof {
                    assert(false);
                }
                Err(AllocErr::OutOfMemory)
            },
        }
    }
}

impl<S: BlockSource> Pool<S> {
    /// Allocates one slot: the most recently freed one if any, else the
    /// next never-used slot of the active block, else the first slot of a
    /// new, larger block from the source.
    ///
    /// The slot is `slot_size` bytes, aligned to `slot_align`, and distinct
    /// from every slot live before the call; it stays the caller's until it
    /// is handed back with `try_free`.
    pub fn try_allocate(&mut self) -> (r: Result<usize, AllocErr>)
        requires
            old(self)@.wf(),
        ensures
            final(self)@.wf(),
            exists|calls: Seq<SourceCall>|
                {
                    &&& #[trigger] old(self)@.alloc_outcome(
                        final(self)@,
                        r,
                        calls,
                    )
                    &&& final(self).source_calls() == old(self).source_calls() + calls
                },
            r matches Ok(a) ==> {
                &&& a != 0
                &&& a as int % old(self)@.slot_align as int == 0
                &&& !old(self)@.live().contains(a)
                &&& final(self)@.live() == old(self)@.live().insert(a)
            },
            r is Err ==> final(self)@ == old(self)@ && old(self)@.free.len() == 0
                && !old(self)@.can_bump(),
    {
        let ghost pre = self@;
        let ghost src_calls = self.source_calls();
        let r = match self.try_allocate_fast() {
            Some(ptr) => {
                proof {
                    let none = Seq::<SourceCall>::empty();
                    assert(pre.alloc_outcome(self@, Ok(ptr), none));
                    assert(self.source_calls() =~= src_calls + none);
                }
                Ok(ptr)
            },
            None => self.try_allocate_slow(),
        };
        proof {
            let calls = choose|calls: Seq<SourceCall>|
                {
                    &&& #[trigger] pre.alloc_outcome(self@, r, calls)
                    &&& self.source_calls() == src_calls + calls
                };
            if let Ok(a) = r {
                pre.lemma_alloc_outcome(self@, a, calls);
            }
        }
        r
    }

    /// Frees the slot at `ptr`, making it the next one `try_allocate` hands out.
    ///
    /// Fails, changing nothing, when `ptr` is not in the handed-out part of
    /// any block (`InvalidPointer`), is inside a slot but not at its start
    /// (`MisalignedFree`), or is a slot that is already free (`DoubleFree`).
    pub fn try_free(&mut self, ptr: usize) -> (r: Result<(), AllocErr>)
        requires
            old(self)@.wf(),
        ensures
            final(self)@.wf(),
            r == old(self)@.free_result(ptr),
            r is Ok <==> old(self)@.live().contains(ptr),
            r is Ok ==> final(self)@ == old(self)@.freed(ptr) && final(self)@.live() == old(
                self,
            )@.live().remove(ptr),
            r is Err ==> final(self)@ == old(self)@,
            final(self).source() == old(self).source(),
            final(self).source_calls() == old(self).source_calls(),
    {
        let ghost pre = self@;
        let block_index = match self.get_block(ptr) {
            Some(i) => i,
            None => {
                proof {
                    if pre.is_live(ptr as int) {
                        let j = choose|j: int| pre.allocated(j, ptr as int);
                        assert(pre.holds(j, ptr as int));
                    }
                }
                return Err(AllocErr::InvalidPointer);
            },
        };
        proof {
            pre.lemma_holder(block_index as int, ptr as int);
            assert(pre.blocks[block_index as int].wf(pre.ss(), pre.slot_align as int));
            self.blocks[block_index as int].bitmap.lemma_len();
        }
        let first = self.get_first_block_ptr(&self.blocks[block_index]);
        if (ptr - first) % self.slot_size != 0 {
            proof {
                if pre.is_live(ptr as int) {
                    let j = choose|j: int| pre.allocated(j, ptr as int);
                    pre.lemma_holder_unique(j, block_index as int, ptr as int);
                }
            }
            return Err(AllocErr::MisalignedFree);
        }
        proof {
            pre.blocks[block_index as int].lemma_slot(
                pre.ss(),
                pre.slot_align as int,
                ptr as int,
            );
        }
        let slot_index = self.get_slot_index(ptr, &self.blocks[block_index]);
        let (is_slot_free, cached_byte) = self.blocks[block_index].bitmap.is_free(slot_index);
        if is_slot_free {
            proof {
                if pre.is_live(ptr as int) {
                    let j = choose|j: int| pre.allocated(j, ptr as int);
                    pre.lemma_holder_unique(j, block_index as int, ptr as int);
                }
            }
            return Err(AllocErr::DoubleFree);
        }
        self.blocks[block_index].bitmap.clear(slot_index, Some(cached_byte));
        self.freelist.add_slot(ptr);
        proof {
            pre.lemma_freed(ptr);
            let t = pre.freed(ptr);
            assert(self@.blocks =~= t.blocks);
            assert(self@ == t);
        }
        Ok(())
    }

    /// Checks whether a value of type `T` fits in this pool's slots: its
    /// size is at most the slot size and its alignment at most the slot
    /// alignment.
    pub fn validate_size_align<T>(&self) -> (r: Result<(), AllocErr>)
        ensures
            r is Ok <==> vstd::layout::size_of::<T>() <= self@.slot_size
                && vstd::layout::align_of::<T>() <= self@.slot_align,
            r is Err ==> r == Err::<(), AllocErr>(AllocErr::InvalidSizeOrAlignement),
    {
        if core::mem::size_of::<T>() <= self.slot_size && core::mem::align_of::<T>()
            <= self.slot_align {
            Ok(())
        } else {
            Err(AllocErr::InvalidSizeOrAlignement)
        }
    }

    /// Allocates a slot for a value of type `T` and, once the slot is
    /// reserved, builds the value with `f`; returns the slot and the value,
    /// which the caller writes into the slot.
    ///
    /// A type larger or more strictly aligned than the slots is refused
    /// before anything is allocated and before `f` is called.
    ///
    /// If `f` panics, the slot stays allocated. A caller that needs it back
    /// in that case checks with `validate_size_align`, allocates with
    /// `try_allocate` and builds the value under a guard that frees the slot
    /// when the panic unwinds.
    pub fn try_allocate_with<T, F: FnOnce() -> T>(&mut self, f: F) -> (r: Result<
        (usize, T),
        AllocErr,
    >)
        requires
            old(self)@.wf(),
            vstd::layout::size_of::<T>() <= old(self)@.slot_size && vstd::layout::align_of::<T>()
                <= old(self)@.slot_align ==> f.requires(()),
        ensures
            final(self)@.wf(),
            !(vstd::layout::size_of::<T>() <= old(self)@.slot_size && vstd::layout::align_of::<T>()
                <= old(self)@.slot_align) ==> r == Err::<(usize, T), AllocErr>(
                AllocErr::InvalidSizeOrAlignement,
            ) && final(self)@ == old(self)@ && final(self).source() == old(self).source()
                && final(self).source_calls() == old(self).source_calls(),
            vstd::layout::size_of::<T>() <= old(self)@.slot_size && vstd::layout::align_of::<T>()
                <= old(self)@.slot_align ==> exists|calls: Seq<SourceCall>|
                {
                    &&& #[trigger] old(self)@.alloc_outcome(
                        final(self)@,
                        slot_result(r),
                        calls,
                    )
                    &&& final(self).source_calls() == old(self).source_calls() + calls
                },
            r matches Ok((a, v)) ==> {
                &&& f.ensures((), v)
                &&& a != 0
                &&& a as int % old(self)@.slot_align as int == 0
                &&& !old(self)@.live().contains(a)
                &&& final(self)@.live() == old(self)@.live().insert(a)
            },
            r is Err ==> final(self)@ == old(self)@,
    {
        self.validate_size_align::<T>()?;
        let ghost pre = self@;
        let ghost src_calls = self.source_calls();
        let ptr = match self.try_allocate() {
            Ok(p) => p,
            Err(e) => {
                proof {
                    let calls = choose|calls: Seq<SourceCall>|
                        {
                            &&& #[trigger] pre.alloc_outcome(self@, Err(e), calls)
                            &&& self.source_calls() == src_calls + calls
                        };
                    assert(pre.alloc_outcome(
                        self@,
                        slot_result(Err::<(usize, T), AllocErr>(e)),
                                calls,
                    ));
                }
                return Err(e);
            },
        };
        let value = f();
        proof {
            let calls = choose|calls: Seq<SourceCall>|
                {
                    &&& #[trigger] pre.alloc_outcome(self@, Ok(ptr), calls)
                    &&& self.source_calls() == src_calls + calls
                };
            assert(pre.alloc_outcome(
                self@,
                slot_result(Ok::<(usize, T), AllocErr>((ptr, value))),
                calls,
            ));
        }
        Ok((ptr, value))
    }

    /// Hands every block back to the source, newest first, and empties the
    /// pool; its slot size and alignment stay. Slots still live are
    /// released with their blocks.
    pub fn release(&mut self)
        requires
            old(self)@.wf(),
        ensures
            final(self)@.wf(),
            final(self)@.slot_size == old(self)@.slot_size,
            final(self)@.slot_align == old(self)@.slot_align,
            final(self)@.blocks.len() == 0,
            final(self)@.free.len() == 0,
            final(self)@.live() == Set::<usize>::empty(),
            final(self).source_calls() == old(self).source_calls() + old(
                self,
            )@.release_calls(),
    {
        let ghost pre = self@;
        let ghost log = self.source_calls();
        let ghost n = pre.blocks.len();
        while self.blocks.len() > 0
            invariant
                self@.slot_size == pre.slot_size,
                self@.slot_align == pre.slot_align,
                pre.wf(),
                n == pre.blocks.len(),
                self.blocks.len() <= n,
                forall|i: int| 0 <= i < self.blocks.len() ==> self.blocks@[i]@ == pre.blocks[i],
                self.source_calls() == log + pre.release_calls().take(
                    n - self.blocks.len(),
                ),
            decreases self.blocks.len(),
        {
            let ghost m = self.blocks.len() as int;
            let current = self.blocks.pop();
            if let Some(block) = current {
                proof {
                    assert(block@ == pre.blocks[m - 1]);
                }
                self.source_unmap(block.base, block.size);
                proof {
                    assert(pre.release_calls()[n - m] == SourceCall::Unmapped {
                        ptr: block.base,
                        size: block.size,
                    });
                    assert(pre.release_calls().take(n - m + 1) =~= pre.release_calls().take(
                        n - m,
                    ).push(pre.release_calls()[n - m]));
                    assert(self.source_calls() =~= log + pre.release_calls().take(
                        n - self.blocks.len(),
                    ));
                }
            }
        }
        proof {
            assert(pre.release_calls().take(n as int) =~= pre.release_calls());
        }
        self.freelist = FreeList::dangling();
        proof {
            assert(self@.blocks =~= Seq::<BlockView>::empty());
            assert(self@.live() =~= Set::<usize>::empty());
        }
    }
}
} // verus!
