//! Properties of the pool that hold across operations.
use vstd::prelude::*;
use crate::block_source::SourceCall;
use crate::errors::AllocErr;
use crate::layout::{round_up, lemma_round_up, lemma_multiples_apart, lemma_mod_sum};
use crate::model::{PoolView, next_block_size_spec, word_size, word_align};
use crate::pool::{slot_size_for, slot_align_for};

verus! {

/// Freeing a live slot and then allocating hands that same slot back and
/// leaves the pool exactly as it was before the free.
pub proof fn lemma_free_then_allocate(p: PoolView, a: usize)
    requires
        p.wf(),
        p.live().contains(a),
    ensures
        p.freed(a).free.len() > 0,
        p.freed(a).free.last() == a,
        p.freed(a).taken() == p,
        forall|after: PoolView, r: Result<usize, AllocErr>, calls: Seq<SourceCall>|
            #[trigger] p.freed(a).alloc_outcome(after, r, calls) ==> r == Ok::<
                usize,
                AllocErr,
            >(a) && after == p && calls == Seq::<SourceCall>::empty(),
{
    let ai = a as int;
    assert(p.is_live(ai));
    let i = choose|j: int| p.allocated(j, ai);
    p.lemma_holder(i, ai);
    assert(p.free_result(a) is Ok);
    p.lemma_freed(a);
    let q = p.freed(a);
    assert(q.holds(i, ai));
    q.lemma_holder(i, ai);
    let t = q.taken();
    let ss = p.ss();
    let idx = p.blocks[i].index_of(ss, ai);
    assert(p.blocks[i].wf(ss, p.slot_align as int));
    p.blocks[i].lemma_slot(ss, p.slot_align as int, ai);
    assert(t.blocks[i].bits =~= p.blocks[i].bits);
    assert(t.blocks[i] == p.blocks[i]);
    assert(t.blocks =~= p.blocks);
    assert(t.free =~= p.free);
}

/// What an allocation hands out, freeing takes back: the free succeeds and
/// the live set is what it was before the allocation.
pub proof fn lemma_allocate_then_free(
    p: PoolView,
    q: PoolView,
    a: usize,
    calls: Seq<SourceCall>,
)
    requires
        p.wf(),
        p.alloc_outcome(q, Ok(a), calls),
    ensures
        q.wf(),
        q.free_result(a) is Ok,
        q.freed(a).wf(),
        q.freed(a).live() == p.live(),
{
    p.lemma_alloc_outcome(q, a, calls);
    assert(q.live().contains(a));
    let ai = a as int;
    let i = choose|j: int| q.allocated(j, ai);
    q.lemma_holder(i, ai);
    q.lemma_freed(a);
    assert(q.freed(a).live() =~= p.live());
}

/// Freeing the same slot twice is caught: the second free reports a double
/// free.
pub proof fn lemma_double_free(p: PoolView, a: usize)
    requires
        p.wf(),
        p.live().contains(a),
    ensures
        p.free_result(a) is Ok,
        p.freed(a).free_result(a) == Err::<(), AllocErr>(AllocErr::DoubleFree),
        !p.freed(a).live().contains(a),
{
    let ai = a as int;
    let i = choose|j: int| p.allocated(j, ai);
    p.lemma_holder(i, ai);
    p.lemma_freed(a);
    let q = p.freed(a);
    assert(q.holds(i, ai));
    q.lemma_holder(i, ai);
    p.lemma_set_bit_shape(i, ai, false);
}

/// Two different live slots never overlap: they are at least one slot
/// apart.
pub proof fn lemma_live_slots_disjoint(p: PoolView, a: usize, b: usize)
    requires
        p.wf(),
        p.live().contains(a),
        p.live().contains(b),
        a != b,
    ensures
        a + p.slot_size <= b || b + p.slot_size <= a,
{
    let ss = p.ss();
    let al = p.slot_align as int;
    let i = choose|j: int| p.allocated(j, a as int);
    let j = choose|k: int| p.allocated(k, b as int);
    assert(p.blocks[i].wf(ss, al));
    assert(p.blocks[j].wf(ss, al));
    p.blocks[i].lemma_slot(ss, al, a as int);
    p.blocks[j].lemma_slot(ss, al, b as int);
    if i == j {
        let f = p.blocks[i].first(ss);
        if a < b {
            lemma_multiples_apart(a - f, b - f, ss);
        } else {
            lemma_multiples_apart(b - f, a - f, ss);
        }
    } else if i < j {
        assert(p.blocks[i].end <= p.blocks[j].base || p.blocks[j].end <= p.blocks[i].base);
    } else {
        assert(p.blocks[j].end <= p.blocks[i].base || p.blocks[i].end <= p.blocks[j].base);
    }
}

/// A live slot is a nonzero address aligned to the slot alignment, and all
/// `slot_size` bytes of it lie inside one block.
pub proof fn lemma_live_slot_in_block(p: PoolView, a: usize)
    requires
        p.wf(),
        p.live().contains(a),
    ensures
        a != 0,
        a as int % p.slot_align as int == 0,
        exists|i: int|
            0 <= i < p.blocks.len() && #[trigger] p.blocks[i].base <= a && a + p.slot_size
                <= p.blocks[i].end,
{
    let i = choose|j: int| p.allocated(j, a as int);
    assert(p.blocks[i].wf(p.ss(), p.slot_align as int));
    p.blocks[i].lemma_slot(p.ss(), p.slot_align as int, a as int);
}

/// Every slot below a high-water mark is either live or on the freelist,
/// never both and never neither: no slot is lost.
pub proof fn lemma_slot_live_or_free(p: PoolView, i: int, a: usize)
    requires
        p.wf(),
        p.is_slot(i, a as int),
    ensures
        p.live().contains(a) <==> !p.free.contains(a),
{
    let ai = a as int;
    if p.free.contains(a) {
        let k = choose|k: int| 0 <= k < p.free.len() && p.free[k] == a;
        assert(p.is_free_slot(p.free[k] as int));
        let j = choose|j: int| p.unallocated(j, ai);
        p.lemma_holder_unique(i, j, ai);
        if p.is_live(ai) {
            let m = choose|m: int| p.allocated(m, ai);
            p.lemma_holder_unique(i, m, ai);
        }
    } else {
        if !p.blocks[i].bit_of(p.ss(), ai) {
            assert(p.unallocated(i, ai));
        }
        assert(p.allocated(i, ai));
    }
}

/// Two allocations from the high-water mark in a row hand out adjacent
/// slots, one slot size apart.
pub proof fn lemma_consecutive_bumps(p: PoolView)
    requires
        p.wf(),
        p.can_bump(),
        p.bumped().can_bump(),
    ensures
        p.bumped().bump_addr() == p.bump_addr() + p.slot_size,
{
}

/// The slot size and alignment a pool derives from a request: the
/// alignment is the larger of the one asked for and a pointer's; the
/// size is at least the one asked for and at least a pointer's, a multiple
/// of the alignment, and less than one alignment above the larger of the
/// two.
pub proof fn lemma_slot_size_for(size: int, align: int)
    requires
        size >= 0,
        align > 0,
    ensures
        slot_align_for(align) >= align,
        slot_align_for(align) >= word_align(),
        slot_align_for(align) == align || slot_align_for(align) == word_align(),
        slot_size_for(size, align) >= size,
        slot_size_for(size, align) >= word_size(),
        slot_size_for(size, align) % slot_align_for(align) == 0,
        slot_size_for(size, align) < (if size > word_size() {
            size
        } else {
            word_size()
        }) + slot_align_for(align),
{
    lemma_round_up(
        if size > word_size() {
            size
        } else {
            word_size()
        },
        slot_align_for(align),
    );
}

/// Each new block is larger than the one before it, twice as large when
/// that fits in a machine word, and block sizes stay whole pages: starting
/// from the one-byte empty chain, every block size is a multiple of the
/// page size.
pub proof fn lemma_next_block_size(prev: int, page: int)
    requires
        prev >= 1,
        page > 0,
        next_block_size_spec(prev, page) is Some,
    ensures
        next_block_size_spec(prev, page)->0 >= prev,
        prev * 2 <= usize::MAX ==> next_block_size_spec(prev, page)->0 >= 2 * prev,
        (prev == 1 || prev % page == 0) ==> next_block_size_spec(prev, page)->0 % page == 0,
{
    lemma_round_up(prev, page);
    if prev % page == 0 {
        assert(round_up(prev, page) == prev) by {
            crate::layout::lemma_div_exact(prev, page);
            vstd::arithmetic::div_mod::lemma_fundamental_div_mod_converse_mod(
                prev + page - 1,
                page,
                prev / page,
                page - 1,
            );
        }
        if prev * 2 <= usize::MAX {
            lemma_mod_sum(prev, prev, page);
        }
    } else if prev == 1 {
        if page == 1 {
            vstd::arithmetic::div_mod::lemma_mod_self_0(1);
            assert(next_block_size_spec(prev, page)->0 % 1 == 0);
        } else {
            assert(round_up(1, page) == page) by {
                vstd::arithmetic::div_mod::lemma_fundamental_div_mod(page, page);
                vstd::arithmetic::div_mod::lemma_div_basics(page);
            }
            vstd::arithmetic::div_mod::lemma_mod_self_0(page);
        }
    }
}

/// The size of the next block is either twice the previous size or the
/// previous size rounded up to a whole number of pages, whichever is larger:
/// at least twice the previous size when that fits in a machine word, and
/// never below the smallest page multiple at or above the previous size.
pub proof fn lemma_next_block_size_exact(prev: int, page: int)
    requires
        prev >= 0,
        page > 0,
        next_block_size_spec(prev, page) is Some,
    ensures
        ({
            let r = next_block_size_spec(prev, page)->0;
            &&& prev * 2 <= usize::MAX ==> r >= 2 * prev
            &&& exists|m: int| #![trigger m % page] m % page == 0 && prev <= m <= r
            &&& (prev * 2 <= usize::MAX && r == 2 * prev) || (r % page == 0 && prev <= r < prev
                + page)
        }),
{
    lemma_round_up(prev, page);
    let m = round_up(prev, page);
    assert(m % page == 0 && prev <= m <= next_block_size_spec(prev, page)->0);
}

/// What freeing reports is decided by the slot's state: success exactly for
/// a live slot, a double free exactly for a slot on the freelist, and an
/// invalid pointer exactly for an address outside every block's handed-out
/// slot area.
pub proof fn lemma_free_result_cases(p: PoolView, a: usize)
    requires
        p.wf(),
    ensures
        (p.free_result(a) is Ok) <==> p.live().contains(a),
        (p.free_result(a) == Err::<(), AllocErr>(AllocErr::DoubleFree)) <==> p.free.contains(a),
        (p.free_result(a) == Err::<(), AllocErr>(AllocErr::InvalidPointer)) <==> (forall|i: int|
            0 <= i < p.blocks.len() ==> !(p.blocks[i].first(p.ss()) <= a
                < #[trigger] p.blocks[i].hwm)),
{
    let ai = a as int;
    if p.held(ai) {
        let i = choose|j: int| p.holds(j, ai);
        p.lemma_holder(i, ai);
        assert(!(p.blocks[i].first(p.ss()) <= a < p.blocks[i].hwm) == false);
        if p.free_result(a) == Err::<(), AllocErr>(AllocErr::DoubleFree) {
            assert(p.unallocated(i, ai));
        }
        if p.free.contains(a) {
            let k = choose|k: int| 0 <= k < p.free.len() && p.free[k] == a;
            assert(p.is_free_slot(p.free[k] as int));
            let j = choose|j: int| p.unallocated(j, ai);
            p.lemma_holder_unique(i, j, ai);
        }
        if p.live().contains(a) {
            let j = choose|j: int| p.allocated(j, ai);
            p.lemma_holder_unique(i, j, ai);
        }
        if p.free_result(a) is Ok {
            assert(p.allocated(i, ai));
        }
    } else {
        assert forall|i: int| 0 <= i < p.blocks.len() implies !(p.blocks[i].first(p.ss()) <= a
            < #[trigger] p.blocks[i].hwm) by {
            if p.blocks[i].first(p.ss()) <= a < p.blocks[i].hwm {
                assert(p.holds(i, ai));
            }
        }
        if p.live().contains(a) {
            let j = choose|j: int| p.allocated(j, ai);
            assert(p.holds(j, ai));
        }
        if p.free.contains(a) {
            let k = choose|k: int| 0 <= k < p.free.len() && p.free[k] == a;
            assert(p.is_free_slot(p.free[k] as int));
            let j = choose|j: int| p.unallocated(j, ai);
            assert(p.holds(j, ai));
        }
    }
}

/// A slot freed once stays detected as freed: after freeing `a` and then
/// another live slot `b`, freeing `a` again reports a double free.
pub proof fn lemma_double_free_after_other_frees(p: PoolView, a: usize, b: usize)
    requires
        p.wf(),
        p.live().contains(a),
        p.live().contains(b),
        a != b,
    ensures
        p.freed(a).freed(b).free_result(a) == Err::<(), AllocErr>(AllocErr::DoubleFree),
{
    let ai = a as int;
    let i = choose|j: int| p.allocated(j, ai);
    p.lemma_holder(i, ai);
    p.lemma_freed(a);
    let q = p.freed(a);
    assert(q.live().contains(b));
    let bi = b as int;
    let j = choose|k: int| q.allocated(k, bi);
    q.lemma_holder(j, bi);
    q.lemma_freed(b);
    let r = q.freed(b);
    assert(r.free[r.free.len() - 2] == a);
    assert(r.free.contains(a));
    lemma_free_result_cases(r, a);
}

/// Releasing the pool hands back every block, each exactly once with its own
/// base and size, newest first, whatever the blocks' slots hold.
pub proof fn lemma_release_calls(p: PoolView)
    ensures
        p.release_calls().len() == p.blocks.len(),
        forall|i: int|
            0 <= i < p.blocks.len() ==> p.release_calls()[p.blocks.len() - 1 - i]
                == (SourceCall::Unmapped { ptr: #[trigger] p.blocks[i].base, size: p.blocks[i].size }),
        forall|q: PoolView|
            q.blocks.len() == p.blocks.len() && (forall|i: int|
                0 <= i < p.blocks.len() ==> #[trigger] q.blocks[i].base == p.blocks[i].base
                    && q.blocks[i].size == p.blocks[i].size) ==> #[trigger] q.release_calls()
                == p.release_calls(),
{
    assert forall|q: PoolView|
        q.blocks.len() == p.blocks.len() && (forall|i: int|
            0 <= i < p.blocks.len() ==> #[trigger] q.blocks[i].base == p.blocks[i].base
                && q.blocks[i].size == p.blocks[i].size) implies #[trigger] q.release_calls()
        == p.release_calls() by {
        let n = p.blocks.len() as int;
        assert forall|k: int| 0 <= k < n implies q.release_calls()[k] == p.release_calls()[k] by {
            assert(q.blocks[n - 1 - k].base == p.blocks[n - 1 - k].base);
        }
        assert(q.release_calls() =~= p.release_calls());
    }
}

} // verus!
