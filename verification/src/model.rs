//! The mathematical model of a pool: its blocks as address ranges with a
//! bit per slot, and the stack of freed slots.
use vstd::prelude::*;
use crate::bitmap::required_bytes_spec;
use crate::block_source::SourceCall;
use crate::errors::AllocErr;
use crate::layout::{round_up, lemma_round_up, lemma_mod_sum, lemma_multiples_apart, lemma_div_exact, lemma_div_monotone, lemma_div_step};

verus! {

/// Size in bytes of a machine word, which is also the size of a pointer.
pub open spec fn word_size() -> int {
    vstd::layout::size_of::<usize>() as int
}

/// Alignment of a machine word, which is also the alignment of a pointer.
pub open spec fn word_align() -> int {
    vstd::layout::align_of::<usize>() as int
}

/// Bytes reserved at the start of every block for its header record: base,
/// size, high-water mark, end, previous block, bitmap location and bitmap
/// length, one machine word each.
pub open spec fn header_size() -> int {
    7 * word_size()
}

/// Where a block of `size` bytes puts its bitmap and its first slot, for
/// slots of `slot_size` bytes: `Some((bitmap bytes, offset of the first
/// slot))` when the block has room for the header, the bitmap and at least
/// one slot, `None` otherwise.
pub open spec fn block_layout_spec(size: int, slot_size: int) -> Option<(int, int)> {
    if size < header_size() {
        None
    } else {
        let bitmap_size = required_bytes_spec(size - header_size(), slot_size);
        let offset = round_up(header_size() + bitmap_size, slot_size);
        if offset + slot_size <= size {
            Some((bitmap_size, offset))
        } else {
            None
        }
    }
}

/// The size of the block that follows a block of `prev` bytes: twice as
/// large, and at least `prev` rounded up to the page size; `None` when the
/// rounding overflows a machine word.
pub open spec fn next_block_size_spec(prev: int, page: int) -> Option<int> {
    if prev + page - 1 > usize::MAX {
        None
    } else {
        let aligned = round_up(prev, page);
        if prev * 2 <= usize::MAX {
            Some(if prev * 2 > aligned { prev * 2 } else { aligned })
        } else {
            Some(aligned)
        }
    }
}

/// The size of the block the pool asks the source for when the active
/// block is `prev` bytes: the first size after `prev` in the growth sequence
/// with room for a header, a bitmap and a slot; `None` when the sequence
/// overflows or stops growing before that.
pub open spec fn growth_target(prev: int, page: int, slot_size: int) -> Option<int>
    decreases usize::MAX - prev,
{
    if page <= 0 || prev > usize::MAX {
        None
    } else {
        match next_block_size_spec(prev, page) {
            None => None,
            Some(n) => if n <= prev || n > usize::MAX {
                None
            } else if block_layout_spec(n, slot_size) is Some {
                Some(n)
            } else {
                growth_target(n, page, slot_size)
            },
        }
    }
}

/// One block: the address range `[base, end)`, its high-water mark and its
/// slot bits (`true` for allocated).
pub struct BlockView {
    pub base: usize,
    pub size: usize,
    pub hwm: usize,
    pub end: usize,
    pub bitmap_size: nat,
    pub bits: Seq<bool>,
}

/// The block that a fresh mapping of `size` bytes at `base` becomes: no slot
/// handed out yet, every bit clear.
pub open spec fn fresh_block(base: usize, size: usize, slot_size: int) -> BlockView {
    let (bitmap_size, offset) = block_layout_spec(size as int, slot_size).unwrap();
    BlockView {
        base,
        size,
        hwm: (base + offset) as usize,
        end: (base + size) as usize,
        bitmap_size: bitmap_size as nat,
        bits: Seq::new((bitmap_size * 8) as nat, |i: int| false),
    }
}

impl BlockView {
    /// Address of the first slot: past the header and the bitmap, rounded up
    /// to a whole number of slots.
    pub open spec fn first(self, ss: int) -> int {
        self.base + round_up(header_size() + self.bitmap_size, ss)
    }

    /// A block is well formed: nonzero, aligned, not wrapping the address
    /// space, with room for at least one slot, its high-water mark on a slot
    /// boundary inside it, and a bit for every slot it can hold.
    pub open spec fn wf(self, ss: int, align: int) -> bool {
        &&& self.base > 0
        &&& self.end == self.base + self.size
        &&& (self.base as int) % align == 0
        &&& self.first(ss) <= self.hwm <= self.end
        &&& self.first(ss) + ss <= self.end
        &&& (self.hwm - self.first(ss)) % ss == 0
        &&& (self.end - self.first(ss)) / ss <= self.bits.len()
        &&& self.bits.len() == self.bitmap_size * 8
    }

    /// `a` lies in the part of the slot area already handed out.
    pub open spec fn holds(self, ss: int, a: int) -> bool {
        self.first(ss) <= a < self.hwm
    }

    /// `a` is the start of a slot already handed out.
    pub open spec fn is_slot(self, ss: int, a: int) -> bool {
        self.holds(ss, a) && (a - self.first(ss)) % ss == 0
    }

    /// Index of the slot that starts at `a`.
    pub open spec fn index_of(self, ss: int, a: int) -> int {
        (a - self.first(ss)) / ss
    }

    /// The allocation bit of the slot that starts at `a`.
    pub open spec fn bit_of(self, ss: int, a: int) -> bool {
        self.bits[self.index_of(ss, a)]
    }

    /// The block with bit `idx` set to `v`.
    pub open spec fn with_bit(self, idx: int, v: bool) -> BlockView {
        BlockView { bits: self.bits.update(idx, v), ..self }
    }

    /// One more never-used slot fits below the end of the block.
    pub open spec fn can_bump(self, ss: int) -> bool {
        self.hwm + ss <= self.end
    }

    /// The next never-used slot handed out: its bit set, the high-water mark
    /// moved past it.
    pub open spec fn bumped(self, ss: int) -> BlockView {
        BlockView {
            hwm: (self.hwm + ss) as usize,
            bits: self.bits.update(self.index_of(ss, self.hwm as int), true),
            ..self
        }
    }
}

/// A pool: slot size and alignment, its blocks oldest first (the last one is
/// the active block), and its freed slots (the last one is reused first).
pub struct PoolView {
    pub slot_size: usize,
    pub slot_align: usize,
    pub blocks: Seq<BlockView>,
    pub free: Seq<usize>,
}

impl PoolView {
    /// The slot size, as an integer.
    pub open spec fn ss(self) -> int {
        self.slot_size as int
    }

    /// Block `i` holds `a` in the part of its slot area already handed out.
    pub open spec fn holds(self, i: int, a: int) -> bool {
        0 <= i < self.blocks.len() && self.blocks[i].holds(self.ss(), a)
    }

    /// `a` is the start of a slot block `i` has handed out.
    pub open spec fn is_slot(self, i: int, a: int) -> bool {
        0 <= i < self.blocks.len() && self.blocks[i].is_slot(self.ss(), a)
    }

    /// `a` is a slot of block `i` that is currently allocated.
    pub open spec fn allocated(self, i: int, a: int) -> bool {
        self.is_slot(i, a) && self.blocks[i].bit_of(self.ss(), a)
    }

    /// `a` is a slot of block `i` that is currently free.
    pub open spec fn unallocated(self, i: int, a: int) -> bool {
        self.is_slot(i, a) && !self.blocks[i].bit_of(self.ss(), a)
    }

    /// Some block has handed out the address range that holds `a`.
    pub open spec fn held(self, a: int) -> bool {
        exists|i: int| self.holds(i, a)
    }

    /// The block that holds `a`.
    pub open spec fn holder(self, a: int) -> int {
        choose|i: int| self.holds(i, a)
    }

    /// `a` is an allocated slot of some block.
    pub open spec fn is_live(self, a: int) -> bool {
        exists|i: int| self.allocated(i, a)
    }

    /// `a` is a handed-out slot of some block that is free again.
    pub open spec fn is_free_slot(self, a: int) -> bool {
        exists|i: int| self.unallocated(i, a)
    }

    /// The slots currently allocated: handed out and not freed since.
    pub open spec fn live(self) -> Set<usize> {
        Set::new(|a: usize| self.is_live(a as int))
    }

    /// No two blocks share an address.
    pub open spec fn blocks_disjoint(self) -> bool {
        forall|i: int, j: int|
            0 <= i < j < self.blocks.len() ==> #[trigger] self.blocks[i].end
                <= #[trigger] self.blocks[j].base || self.blocks[j].end <= self.blocks[i].base
    }

    /// Slot size and alignment agree, every block is well formed and no two
    /// blocks overlap.
    pub open spec fn shape_wf(self) -> bool {
        &&& self.slot_size > 0
        &&& self.slot_align > 0
        &&& self.slot_size % self.slot_align == 0
        &&& forall|i: int|
            0 <= i < self.blocks.len() ==> #[trigger] self.blocks[i].wf(
                self.ss(),
                self.slot_align as int,
            )
        &&& self.blocks_disjoint()
    }

    /// The pool's invariant: its shape is well formed, and the freelist holds
    /// each free slot below a high-water mark, once, and nothing else.
    pub open spec fn wf(self) -> bool {
        &&& self.shape_wf()
        &&& forall|k: int| 0 <= k < self.free.len() ==> self.is_free_slot(#[trigger] self.free[k] as int)
        &&& self.free.no_duplicates()
        &&& forall|i: int, a: usize| #[trigger] self.unallocated(i, a as int) ==> self.free.contains(a)
    }

    /// What freeing `a` reports.
    pub open spec fn free_result(self, a: usize) -> Result<(), AllocErr> {
        if !self.held(a as int) {
            Err(AllocErr::InvalidPointer)
        } else {
            let i = self.holder(a as int);
            if (a - self.blocks[i].first(self.ss())) % self.ss() != 0 {
                Err(AllocErr::MisalignedFree)
            } else if !self.blocks[i].bit_of(self.ss(), a as int) {
                Err(AllocErr::DoubleFree)
            } else {
                Ok(())
            }
        }
    }

    /// The pool with the bit of slot `a` of block `i` set to `v`.
    pub open spec fn set_bit(self, i: int, a: int, v: bool) -> PoolView {
        PoolView {
            blocks: self.blocks.update(
                i,
                self.blocks[i].with_bit(self.blocks[i].index_of(self.ss(), a), v),
            ),
            ..self
        }
    }

    /// The pool after slot `a` is freed: its bit cleared, `a` on top of the
    /// freelist.
    pub open spec fn freed(self, a: usize) -> PoolView {
        PoolView { free: self.free.push(a), ..self.set_bit(self.holder(a as int), a as int, false) }
    }

    /// The pool after the top of the freelist is handed out again.
    pub open spec fn taken(self) -> PoolView {
        let a = self.free.last();
        PoolView {
            free: self.free.drop_last(),
            ..self.set_bit(self.holder(a as int), a as int, true)
        }
    }

    /// Size of the active block, from which the next block's size grows;
    /// 1 before the first block.
    pub open spec fn active_size(self) -> int {
        if self.blocks.len() == 0 {
            1
        } else {
            self.blocks.last().size as int
        }
    }

    /// The active block has room for one more never-used slot.
    pub open spec fn can_bump(self) -> bool {
        self.blocks.len() > 0 && self.blocks.last().can_bump(self.ss())
    }

    /// The next never-used slot of the active block: its high-water mark.
    pub open spec fn bump_addr(self) -> usize {
        self.blocks.last().hwm
    }

    /// The pool after the next never-used slot of the active block is handed out.
    pub open spec fn bumped(self) -> PoolView {
        PoolView {
            blocks: self.blocks.update(
                self.blocks.len() - 1,
                self.blocks.last().bumped(self.ss()),
            ),
            ..self
        }
    }

    /// The pool with block `b` added as its new active block.
    pub open spec fn grown(self, b: BlockView) -> PoolView {
        PoolView { blocks: self.blocks.push(b), ..self }
    }

    /// What the pool answers when the block source hands it `size` bytes at
    /// `base`: a null or wrapping address, or one overlapping a block the
    /// pool holds, is no usable memory; one not aligned to the slot alignment
    /// is refused as such.
    pub open spec fn adopt_result(self, base: usize, size: usize) -> Result<(), AllocErr> {
        if base == 0 || base + size > usize::MAX {
            Err(AllocErr::OutOfMemory)
        } else if (base as int) % (self.slot_align as int) != 0 {
            Err(AllocErr::InvalidAlignment)
        } else if !(forall|i: int|
            0 <= i < self.blocks.len() ==> base + size <= #[trigger] self.blocks[i].base
                || self.blocks[i].end <= base) {
            Err(AllocErr::OutOfMemory)
        } else {
            Ok(())
        }
    }

    /// The calls the pool makes on its source after the source mapped a
    /// block of `size` bytes at `base`: a refused block other than a null one
    /// is handed back with `unmap`; nothing else.
    pub open spec fn adopt_calls(self, base: usize, size: usize) -> Seq<SourceCall> {
        if base != 0 && self.adopt_result(base, size) is Err {
            seq![SourceCall::Unmapped { ptr: base, size }]
        } else {
            Seq::empty()
        }
    }

    /// The effect of adding the block the source mapped at `base` for
    /// `size` bytes and allocating from it: a refused block changes nothing;
    /// an accepted one becomes the active block and its first slot is handed
    /// out.
    pub open spec fn grow_outcome(
        self,
        after: PoolView,
        r: Result<usize, AllocErr>,
        base: usize,
        size: usize,
    ) -> bool {
        match self.adopt_result(base, size) {
            Err(e) => r == Err::<usize, AllocErr>(e) && after == self,
            Ok(_) => {
                &&& r == Ok::<usize, AllocErr>(fresh_block(base, size, self.ss()).hwm)
                &&& after == self.grown(fresh_block(base, size, self.ss())).bumped()
            },
        }
    }

    /// What allocating from a new block does after the source answered
    /// `page` to a page-size query, with `calls` the calls made on it after
    /// that: the new block's size is the first in the growth sequence from
    /// the active block that has room for a slot, and the source is asked once
    /// to map exactly that size; a page size of 0, or a growth sequence that
    /// overflows before reaching such a size, is an overflow and calls
    /// nothing more.
    pub open spec fn grow_from_page(
        self,
        after: PoolView,
        r: Result<usize, AllocErr>,
        page: usize,
        calls: Seq<SourceCall>,
    ) -> bool {
        match growth_target(self.active_size(), page as int, self.ss()) {
            None => {
                &&& r == Err::<usize, AllocErr>(AllocErr::Overflow)
                &&& after == self
                &&& calls == Seq::<SourceCall>::empty()
            },
            Some(size) => exists|base: usize|
                {
                    &&& calls == seq![SourceCall::Mapped { size: size as usize, base }]
                        + #[trigger] self.adopt_calls(base, size as usize)
                    &&& self.grow_outcome(after, r, base, size as usize)
                },
        }
    }

    /// What allocating from a new block does, with `calls` the calls made on
    /// the source: first one page-size query, then what `grow_from_page`
    /// says for the page size it answered.
    pub open spec fn slow_outcome(
        self,
        after: PoolView,
        r: Result<usize, AllocErr>,
        calls: Seq<SourceCall>,
    ) -> bool {
        &&& calls.len() > 0
        &&& calls[0] is PageSize
        &&& self.grow_from_page(after, r, calls[0]->page, calls.drop_first())
    }

    /// What one allocation does, with `calls` the calls made on the source:
    /// reuse the top of the freelist; else hand out the active block's next
    /// never-used slot, neither calling the source; else add a fresh block
    /// from the source and hand out its first slot, or fail and change nothing.
    pub open spec fn alloc_outcome(
        self,
        after: PoolView,
        r: Result<usize, AllocErr>,
        calls: Seq<SourceCall>,
    ) -> bool {
        if self.free.len() > 0 {
            &&& r == Ok::<usize, AllocErr>(self.free.last())
            &&& after == self.taken()
            &&& calls == Seq::<SourceCall>::empty()
        } else if self.can_bump() {
            &&& r == Ok::<usize, AllocErr>(self.bump_addr())
            &&& after == self.bumped()
            &&& calls == Seq::<SourceCall>::empty()
        } else {
            self.slow_outcome(after, r, calls)
        }
    }

    /// The calls that hand every block back to the source, newest first.
    pub open spec fn release_calls(self) -> Seq<SourceCall> {
        Seq::new(
            self.blocks.len(),
            |k: int|
                SourceCall::Unmapped {
                    ptr: self.blocks[self.blocks.len() - 1 - k].base,
                    size: self.blocks[self.blocks.len() - 1 - k].size,
                },
        )
    }

    /// A fresh block of `size` bytes at `base` can join the pool.
    pub open spec fn accepts(self, base: usize, size: usize) -> bool {
        &&& base != 0
        &&& base + size <= usize::MAX
        &&& (base as int) % (self.slot_align as int) == 0
        &&& forall|i: int|
            0 <= i < self.blocks.len() ==> base + size <= #[trigger] self.blocks[i].base
                || self.blocks[i].end <= base
    }
}


impl BlockView {
    /// The first slot lies a whole number of slots past the end of the
    /// header and bitmap, less than one slot further.
    pub proof fn lemma_first(self, ss: int)
        requires
            ss > 0,
        ensures
            self.base + header_size() + self.bitmap_size <= self.first(ss),
            self.first(ss) < self.base + header_size() + self.bitmap_size + ss,
            (self.first(ss) - self.base) % ss == 0,
    {
        lemma_round_up(header_size() + self.bitmap_size, ss);
    }

    /// What a slot of a well-formed block satisfies: it fits below the
    /// high-water mark, its index is in the bitmap, it is nonzero and aligned.
    pub proof fn lemma_slot(self, ss: int, align: int, a: int)
        requires
            ss > 0,
            align > 0,
            ss % align == 0,
            self.wf(ss, align),
            self.is_slot(ss, a),
        ensures
            a + ss <= self.hwm,
            0 <= self.index_of(ss, a) < self.bits.len(),
            a == self.first(ss) + self.index_of(ss, a) * ss,
            a > 0,
            a % align == 0,
            self.base <= a,
            a + ss <= self.end,
    {
        let f = self.first(ss);
        self.lemma_first(ss);
        lemma_mod_sum(self.hwm - f, a - f, ss);
        lemma_multiples_apart(a - f, self.hwm - f, ss);
        lemma_div_step(a - f, ss);
        lemma_div_monotone(a - f + ss, self.end - f, ss);
        lemma_div_monotone(0, a - f, ss);
        lemma_div_exact(a - f, ss);
        crate::layout::lemma_mod_divisor(f - self.base, ss, align);
        crate::layout::lemma_mod_divisor(a - f, ss, align);
        lemma_mod_sum(f - self.base, a - f, align);
        lemma_mod_sum(self.base as int, a - self.base, align);
    }

    /// Two slots of one block with the same index are the same slot.
    pub proof fn lemma_index_injective(self, ss: int, align: int, a: int, b: int)
        requires
            ss > 0,
            align > 0,
            ss % align == 0,
            self.wf(ss, align),
            self.is_slot(ss, a),
            self.is_slot(ss, b),
            self.index_of(ss, a) == self.index_of(ss, b),
        ensures
            a == b,
    {
        self.lemma_slot(ss, align, a);
        self.lemma_slot(ss, align, b);
    }

    /// The addresses between the high-water mark and one slot past it are
    /// not slot starts, except the high-water mark itself.
    pub proof fn lemma_no_slot_inside(self, ss: int, b: int)
        requires
            ss > 0,
            (self.hwm - self.first(ss)) % ss == 0,
            self.hwm < b < self.hwm + ss,
        ensures
            (b - self.first(ss)) % ss != 0,
    {
        let f = self.first(ss);
        if (b - f) % ss == 0 {
            lemma_multiples_apart(self.hwm - f, b - f, ss);
        }
    }
}

impl PoolView {
    /// A held address lies inside its block.
    pub proof fn lemma_held_in_block(self, i: int, a: int)
        requires
            self.shape_wf(),
            self.holds(i, a),
        ensures
            self.blocks[i].base <= a < self.blocks[i].end,
            a > 0,
    {
        assert(self.blocks[i].wf(self.ss(), self.slot_align as int));
        self.blocks[i].lemma_first(self.ss());
    }

    /// At most one block holds an address.
    pub proof fn lemma_holder_unique(self, i: int, j: int, a: int)
        requires
            self.shape_wf(),
            self.holds(i, a),
            self.holds(j, a),
        ensures
            i == j,
    {
        self.lemma_held_in_block(i, a);
        self.lemma_held_in_block(j, a);
        if i < j {
            assert(self.blocks[i].end <= self.blocks[j].base || self.blocks[j].end
                <= self.blocks[i].base);
        } else if j < i {
            assert(self.blocks[j].end <= self.blocks[i].base || self.blocks[i].end
                <= self.blocks[j].base);
        }
    }

    /// The holder of a held address is the block that holds it.
    pub proof fn lemma_holder(self, i: int, a: int)
        requires
            self.shape_wf(),
            self.holds(i, a),
        ensures
            self.held(a),
            self.holder(a) == i,
    {
        self.lemma_holder_unique(self.holder(a), i, a);
    }

    /// Setting the bit of one slot changes no block's shape.
    pub proof fn lemma_set_bit_shape(self, i: int, a: int, v: bool)
        requires
            self.shape_wf(),
            self.is_slot(i, a),
        ensures
            self.set_bit(i, a, v).shape_wf(),
            forall|j: int, b: int| self.set_bit(i, a, v).holds(j, b) == self.holds(j, b),
            forall|j: int, b: int| self.set_bit(i, a, v).is_slot(j, b) == self.is_slot(j, b),
            self.set_bit(i, a, v).blocks[i].bit_of(self.ss(), a) == v,
            forall|j: int, b: int|
                #![trigger self.set_bit(i, a, v).allocated(j, b)]
                #![trigger self.set_bit(i, a, v).unallocated(j, b)]
                self.is_slot(j, b) && !(j == i && b == a) ==> self.set_bit(i, a, v).blocks[j].bit_of(
                    self.ss(),
                    b,
                ) == self.blocks[j].bit_of(self.ss(), b),
    {
        let w = self.set_bit(i, a, v);
        let ss = self.ss();
        let al = self.slot_align as int;
        assert(self.blocks[i].wf(ss, al));
        self.blocks[i].lemma_slot(ss, al, a);
        assert forall|j: int| 0 <= j < w.blocks.len() implies #[trigger] w.blocks[j].wf(ss, al) by {
            assert(self.blocks[j].wf(ss, al));
        }
        assert forall|j: int, b: int|
            self.is_slot(j, b) && !(j == i && b == a) implies w.blocks[j].bit_of(ss, b)
            == self.blocks[j].bit_of(ss, b) by {
            if j == i {
                assert(self.blocks[j].wf(ss, al));
                self.blocks[j].lemma_slot(ss, al, b);
                if self.blocks[i].index_of(ss, b) == self.blocks[i].index_of(ss, a) {
                    self.blocks[i].lemma_index_injective(ss, al, a, b);
                }
            }
        }
    }

    /// Setting the bit of one slot to `v` makes that slot live exactly when
    /// `v` holds and leaves every other address as it was.
    pub proof fn lemma_set_bit_live(self, i: int, a: int, v: bool)
        requires
            self.shape_wf(),
            self.is_slot(i, a),
        ensures
            forall|b: int|
                #[trigger] self.set_bit(i, a, v).is_live(b) == if b == a {
                    v
                } else {
                    self.is_live(b)
                },
            forall|j: int, b: int|
                #[trigger] self.set_bit(i, a, v).unallocated(j, b) == if j == i && b == a {
                    !v
                } else {
                    self.unallocated(j, b)
                },
    {
        let w = self.set_bit(i, a, v);
        self.lemma_set_bit_shape(i, a, v);
        assert forall|b: int| #[trigger] w.is_live(b) == if b == a {
            v
        } else {
            self.is_live(b)
        } by {
            if b == a {
                if w.is_live(b) {
                    let j = choose|j: int| w.allocated(j, b);
                    self.lemma_holder_unique(i, j, a);
                }
                if v {
                    assert(w.allocated(i, a));
                }
            } else {
                if w.is_live(b) {
                    let j = choose|j: int| w.allocated(j, b);
                    assert(self.allocated(j, b));
                }
                if self.is_live(b) {
                    let j = choose|j: int| self.allocated(j, b);
                    assert(w.allocated(j, b));
                }
            }
        }
        assert forall|j: int, b: int| #[trigger] w.unallocated(j, b) == if j == i && b == a {
            !v
        } else {
            self.unallocated(j, b)
        } by {
        }
    }
}

impl PoolView {
    /// Freeing a live slot keeps the invariant and takes exactly that slot
    /// out of the live set.
    pub proof fn lemma_freed(self, a: usize)
        requires
            self.wf(),
            self.free_result(a) is Ok,
        ensures
            self.is_live(a as int),
            self.freed(a).wf(),
            self.freed(a).live() == self.live().remove(a),
    {
        let i = self.holder(a as int);
        let ai = a as int;
        assert(self.held(ai));
        assert(self.holds(i, ai));
        assert(self.is_slot(i, ai));
        assert(self.allocated(i, ai));
        let w0 = self.set_bit(i, ai, false);
        let w = self.freed(a);
        self.lemma_set_bit_shape(i, ai, false);
        self.lemma_set_bit_live(i, ai, false);
        assert(w.blocks == w0.blocks);
        assert forall|j: int, b: int| #[trigger] w.unallocated(j, b) == w0.unallocated(j, b) by {}
        assert forall|b: int| #[trigger] w.is_live(b) == w0.is_live(b) by {
            if w.is_live(b) {
                let j = choose|j: int| w.allocated(j, b);
                assert(w0.allocated(j, b));
            }
            if w0.is_live(b) {
                let j = choose|j: int| w0.allocated(j, b);
                assert(w.allocated(j, b));
            }
        }
        // `a` is not on the freelist yet.
        if self.free.contains(a) {
            let k = choose|k: int| 0 <= k < self.free.len() && self.free[k] == a;
            assert(self.is_free_slot(self.free[k] as int));
            let j = choose|j: int| self.unallocated(j, ai);
            self.lemma_holder_unique(i, j, ai);
        }
        assert forall|k: int| 0 <= k < w.free.len() implies w.is_free_slot(
            #[trigger] w.free[k] as int,
        ) by {
            if k < self.free.len() {
                let f = self.free[k] as int;
                assert(self.is_free_slot(f));
                let j = choose|j: int| self.unallocated(j, f);
                assert(w0.unallocated(j, f));
                assert(w.unallocated(j, f));
            } else {
                assert(w.unallocated(i, ai));
            }
        }
        assert(w.free.no_duplicates()) by {
            assert forall|x: int, y: int|
                0 <= x < w.free.len() && 0 <= y < w.free.len() && x != y implies w.free[x]
                != w.free[y] by {
                if x < self.free.len() && y < self.free.len() {
                } else if x < self.free.len() {
                    assert(self.free.contains(self.free[x]));
                } else {
                    assert(self.free.contains(self.free[y]));
                }
            }
        }
        assert forall|j: int, b: usize| #[trigger] w.unallocated(j, b as int) implies w.free.contains(
            b,
        ) by {
            if j == i && b == a {
                assert(w.free[self.free.len() as int] == a);
            } else {
                assert(self.unallocated(j, b as int));
                let k = choose|k: int| 0 <= k < self.free.len() && self.free[k] == b;
                assert(w.free[k] == b);
            }
        }
        assert(w.live() =~= self.live().remove(a));
    }

    /// Handing out the top of the freelist keeps the invariant and adds
    /// exactly that slot, which was not live, to the live set.
    pub proof fn lemma_taken(self)
        requires
            self.wf(),
            self.free.len() > 0,
        ensures
            self.held(self.free.last() as int),
            self.is_slot(self.holder(self.free.last() as int), self.free.last() as int),
            !self.blocks[self.holder(self.free.last() as int)].bit_of(
                self.ss(),
                self.free.last() as int,
            ),
            !self.is_live(self.free.last() as int),
            self.taken().wf(),
            self.taken().live() == self.live().insert(self.free.last()),
    {
        let a = self.free.last();
        let ai = a as int;
        let n = self.free.len() - 1;
        assert(self.is_free_slot(self.free[n] as int));
        let i = choose|j: int| self.unallocated(j, ai);
        self.lemma_holder(i, ai);
        let w0 = self.set_bit(i, ai, true);
        let w = self.taken();
        self.lemma_set_bit_shape(i, ai, true);
        self.lemma_set_bit_live(i, ai, true);
        assert(w.blocks == w0.blocks);
        assert forall|j: int, b: int| #[trigger] w.unallocated(j, b) == w0.unallocated(j, b) by {}
        assert forall|b: int| #[trigger] w.is_live(b) == w0.is_live(b) by {
            if w.is_live(b) {
                let j = choose|j: int| w.allocated(j, b);
                assert(w0.allocated(j, b));
            }
            if w0.is_live(b) {
                let j = choose|j: int| w0.allocated(j, b);
                assert(w.allocated(j, b));
            }
        }
        if self.is_live(ai) {
            let j = choose|j: int| self.allocated(j, ai);
            self.lemma_holder_unique(i, j, ai);
        }
        assert forall|k: int| 0 <= k < w.free.len() implies w.is_free_slot(
            #[trigger] w.free[k] as int,
        ) by {
            let f = self.free[k] as int;
            assert(self.free[k] != self.free[n]);
            assert(self.is_free_slot(f));
            let j = choose|j: int| self.unallocated(j, f);
            assert(w0.unallocated(j, f));
            assert(w.unallocated(j, f));
        }
        assert(w.free.no_duplicates()) by {
            assert forall|x: int, y: int|
                0 <= x < w.free.len() && 0 <= y < w.free.len() && x != y implies w.free[x]
                != w.free[y] by {
                assert(w.free[x] == self.free[x]);
                assert(w.free[y] == self.free[y]);
            }
        }
        assert forall|j: int, b: usize| #[trigger] w.unallocated(j, b as int) implies w.free.contains(
            b,
        ) by {
            assert(w0.unallocated(j, b as int));
            assert(!(j == i && b == a));
            assert(self.unallocated(j, b as int));
            if b == a {
                self.lemma_holder_unique(i, j, ai);
            }
            let k = choose|k: int| 0 <= k < self.free.len() && self.free[k] == b;
            assert(k != n);
            assert(w.free[k] == b);
        }
        assert(w.live() =~= self.live().insert(a));
    }

    /// Handing out the next never-used slot of the active block keeps the
    /// invariant and adds exactly that slot, which was not live, to the live set.
    pub proof fn lemma_bumped(self)
        requires
            self.wf(),
            self.can_bump(),
        ensures
            self.bump_addr() > 0,
            self.bump_addr() as int % self.slot_align as int == 0,
            self.bump_addr() + self.ss() <= self.blocks.last().end,
            0 <= self.blocks.last().index_of(self.ss(), self.bump_addr() as int)
                < self.blocks.last().bits.len(),
            !self.is_live(self.bump_addr() as int),
            self.bumped().wf(),
            self.bumped().live() == self.live().insert(self.bump_addr()),
            self.bumped().is_slot(self.blocks.len() - 1, self.bump_addr() as int),
    {
        let ss = self.ss();
        let al = self.slot_align as int;
        let l = self.blocks.len() - 1;
        let b = self.blocks[l];
        let a = b.hwm as int;
        let nb = b.bumped(ss);
        let w = self.bumped();
        assert(b.wf(ss, al));
        b.lemma_first(ss);
        let f = b.first(ss);
        lemma_div_step(a - f, ss);
        lemma_div_monotone(a - f + ss, b.end - f, ss);
        lemma_div_monotone(0, a - f, ss);
        assert(nb.first(ss) == f);
        assert(nb.wf(ss, al));
        assert forall|j: int| 0 <= j < w.blocks.len() implies #[trigger] w.blocks[j].wf(ss, al) by {
            if j != l {
                assert(self.blocks[j].wf(ss, al));
            }
        }
        assert(w.blocks_disjoint()) by {
            assert forall|x: int, y: int| 0 <= x < y < w.blocks.len() implies #[trigger] w.blocks[x].end
                <= #[trigger] w.blocks[y].base || w.blocks[y].end <= w.blocks[x].base by {
                assert(self.blocks[x].end <= self.blocks[y].base || self.blocks[y].end
                    <= self.blocks[x].base);
            }
        }
        assert(w.shape_wf());
        assert(nb.is_slot(ss, a));
        assert(w.is_slot(l, a));
        nb.lemma_slot(ss, al, a);
        // Slots of the active block other than the new one keep their bit.
        assert forall|x: int| #[trigger] nb.is_slot(ss, x) && x != a implies b.is_slot(ss, x)
            && nb.bit_of(ss, x) == b.bit_of(ss, x) by {
            if x > a {
                b.lemma_no_slot_inside(ss, x);
            }
            nb.lemma_slot(ss, al, x);
            if nb.index_of(ss, x) == nb.index_of(ss, a) {
                nb.lemma_index_injective(ss, al, a, x);
            }
        }
        assert forall|j: int, x: int| #[trigger] w.unallocated(j, x) == (self.unallocated(j, x)) by {
            if j == l {
                if w.unallocated(j, x) {
                    assert(x != a);
                }
                if self.unallocated(j, x) {
                    assert(nb.is_slot(ss, x));
                    assert(x != a);
                }
            }
        }
        // The new slot was not live: no block held it.
        if self.is_live(a) {
            let j = choose|j: int| self.allocated(j, a);
            self.lemma_held_in_block(j, a);
            assert(j != l);
            if j < l {
                assert(self.blocks[j].end <= self.blocks[l].base || self.blocks[l].end
                    <= self.blocks[j].base);
            }
        }
        assert forall|x: int| #[trigger] w.is_live(x) == if x == a {
            true
        } else {
            self.is_live(x)
        } by {
            if x == a {
                assert(w.allocated(l, a));
            } else {
                if w.is_live(x) {
                    let j = choose|j: int| w.allocated(j, x);
                    assert(self.allocated(j, x));
                }
                if self.is_live(x) {
                    let j = choose|j: int| self.allocated(j, x);
                    if j == l {
                        assert(nb.is_slot(ss, x));
                    }
                    assert(w.allocated(j, x));
                }
            }
        }
        assert forall|k: int| 0 <= k < w.free.len() implies w.is_free_slot(
            #[trigger] w.free[k] as int,
        ) by {
            let fk = self.free[k] as int;
            assert(self.is_free_slot(fk));
            let j = choose|j: int| self.unallocated(j, fk);
            assert(w.unallocated(j, fk));
        }
        assert forall|j: int, x: usize| #[trigger] w.unallocated(j, x as int) implies w.free.contains(
            x,
        ) by {
            assert(self.unallocated(j, x as int));
        }
        assert(w.live() =~= self.live().insert(a as usize));
    }
}

/// Eight bits per bitmap byte are enough for every slot of a block.
proof fn lemma_bitmap_covers(n: int)
    requires
        n >= 0,
    ensures
        8 * ((n + 7) / 8) >= n,
        (n + 7) / 8 <= n || n == 0,
{
}

impl PoolView {
    /// A fresh block starts with no slot handed out and is well formed.
    pub proof fn lemma_fresh_block(self, base: usize, size: usize)
        requires
            self.shape_wf(),
            self.accepts(base, size),
            block_layout_spec(size as int, self.ss()) is Some,
        ensures
            fresh_block(base, size, self.ss()).wf(self.ss(), self.slot_align as int),
            fresh_block(base, size, self.ss()).hwm == fresh_block(base, size, self.ss()).first(
                self.ss(),
            ),
            fresh_block(base, size, self.ss()).base == base,
            fresh_block(base, size, self.ss()).end == base + size,
    {
        let ss = self.ss();
        let nb = fresh_block(base, size, ss);
        let (bm, off) = block_layout_spec(size as int, ss).unwrap();
        let n = (size - header_size()) / ss;
        lemma_div_monotone(0, size - header_size(), ss);
        lemma_bitmap_covers(n);
        assert(bm == (n + 7) / 8);
        assert(bm >= 0);
        assert(nb.bitmap_size == bm);
        vstd::arithmetic::div_mod::lemma_div_is_ordered_by_denominator(size - header_size(), 1, ss);
        lemma_round_up(header_size() + bm, ss);
        assert(nb.first(ss) == base + off);
        lemma_div_monotone(size - off, size - header_size(), ss);
        vstd::arithmetic::div_mod::lemma_div_by_multiple(0, ss);
        assert(nb.base > 0);
        assert(nb.end == nb.base + nb.size);
        assert((nb.base as int) % (self.slot_align as int) == 0);
        assert(nb.first(ss) <= nb.hwm <= nb.end);
        assert(nb.first(ss) + ss <= nb.end);
        assert((nb.hwm - nb.first(ss)) % ss == 0);
        assert((nb.end - nb.first(ss)) / ss <= n);
        assert(nb.bits.len() == nb.bitmap_size * 8);
    }

    /// Adding a fresh block keeps the invariant and the live set.
    pub proof fn lemma_grown(self, base: usize, size: usize)
        requires
            self.wf(),
            self.accepts(base, size),
            block_layout_spec(size as int, self.ss()) is Some,
        ensures
            self.grown(fresh_block(base, size, self.ss())).wf(),
            self.grown(fresh_block(base, size, self.ss())).live() == self.live(),
    {
        let ss = self.ss();
        let al = self.slot_align as int;
        let nb = fresh_block(base, size, ss);
        let w = self.grown(nb);
        let l = self.blocks.len() as int;
        self.lemma_fresh_block(base, size);
        assert forall|j: int| 0 <= j < w.blocks.len() implies #[trigger] w.blocks[j].wf(ss, al) by {
            if j < l {
                assert(self.blocks[j].wf(ss, al));
            }
        }
        assert(w.blocks_disjoint()) by {
            assert forall|x: int, y: int| 0 <= x < y < w.blocks.len() implies #[trigger] w.blocks[x].end
                <= #[trigger] w.blocks[y].base || w.blocks[y].end <= w.blocks[x].base by {
                if y < l {
                    assert(self.blocks[x].end <= self.blocks[y].base || self.blocks[y].end
                        <= self.blocks[x].base);
                } else {
                    assert(base + size <= self.blocks[x].base || self.blocks[x].end <= base);
                }
            }
        }
        assert forall|j: int, x: int| #[trigger] w.unallocated(j, x) == self.unallocated(j, x) by {}
        assert forall|x: int| #[trigger] w.is_live(x) == self.is_live(x) by {
            if w.is_live(x) {
                let j = choose|j: int| w.allocated(j, x);
                assert(self.allocated(j, x));
            }
            if self.is_live(x) {
                let j = choose|j: int| self.allocated(j, x);
                assert(w.allocated(j, x));
            }
        }
        assert forall|k: int| 0 <= k < w.free.len() implies w.is_free_slot(
            #[trigger] w.free[k] as int,
        ) by {
            let fk = self.free[k] as int;
            assert(self.is_free_slot(fk));
            let j = choose|j: int| self.unallocated(j, fk);
            assert(w.unallocated(j, fk));
        }
        assert forall|j: int, x: usize| #[trigger] w.unallocated(j, x as int) implies w.free.contains(
            x,
        ) by {
            assert(self.unallocated(j, x as int));
        }
        assert(w.live() =~= self.live());
    }
}

impl PoolView {
    /// A successful allocation keeps the invariant and hands out a nonzero,
    /// aligned slot that was not live, adding exactly it to the live set.
    pub proof fn lemma_alloc_outcome(
        self,
        after: PoolView,
        a: usize,
        calls: Seq<SourceCall>,
    )
        requires
            self.wf(),
            self.alloc_outcome(after, Ok(a), calls),
        ensures
            after.wf(),
            a != 0,
            a as int % self.slot_align as int == 0,
            !self.live().contains(a),
            after.live() == self.live().insert(a),
            after.slot_size == self.slot_size,
            after.slot_align == self.slot_align,
    {
        if self.free.len() > 0 {
            self.lemma_taken();
            let i = self.holder(self.free.last() as int);
            assert(self.blocks[i].wf(self.ss(), self.slot_align as int));
            self.blocks[i].lemma_slot(self.ss(), self.slot_align as int, self.free.last() as int);
        } else if self.can_bump() {
            self.lemma_bumped();
        } else {
            let page = calls[0]->page;
            let size = growth_target(self.active_size(), page as int, self.ss())->0 as usize;
            let base = choose|base: usize|
                {
                    &&& calls.drop_first() == seq![SourceCall::Mapped { size, base }]
                        + #[trigger] self.adopt_calls(base, size)
                    &&& self.grow_outcome(after, Ok(a), base, size)
                };
            lemma_growth_target(self.active_size(), page as int, self.ss());
            let g = self.grown(fresh_block(base, size, self.ss()));
            assert(self.accepts(base, size));
            self.lemma_grown(base, size);
            self.lemma_fresh_block(base, size);
            g.lemma_bumped();
            assert(g.bump_addr() == a);
        }
    }
}

/// The size the growth sequence settles on is larger than where it started
/// and has room for a slot.
pub proof fn lemma_growth_target(prev: int, page: int, slot_size: int)
    requires
        growth_target(prev, page, slot_size) is Some,
    ensures
        growth_target(prev, page, slot_size)->0 > prev,
        growth_target(prev, page, slot_size)->0 <= usize::MAX,
        block_layout_spec(growth_target(prev, page, slot_size)->0, slot_size) is Some,
    decreases usize::MAX - prev,
{
    let n = next_block_size_spec(prev, page)->0;
    if block_layout_spec(n, slot_size) is None {
        lemma_growth_target(n, page, slot_size);
    }
}
} // verus!
