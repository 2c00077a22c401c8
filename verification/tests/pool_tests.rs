use polloc::{AllocErr, BlockSource, Pool};
use std::cell::RefCell;
use std::collections::HashSet;
use std::rc::Rc;

const PAGE: usize = 4096;

/// One mapping handed out by the test source: real bytes, placed so that
/// `base` is page aligned.
struct Mapping {
    base: usize,
    size: usize,
    start: usize,
    bytes: Vec<u8>,
}

/// The memory behind every block the test source has mapped.
#[derive(Clone, Default)]
struct Memory(Rc<RefCell<Vec<Mapping>>>);

impl Memory {
    fn write(&self, addr: usize, len: usize, seed: u8) {
        let mut maps = self.0.borrow_mut();
        let m = maps
            .iter_mut()
            .find(|m| m.base <= addr && addr + len <= m.base + m.size)
            .expect("address outside every mapped block");
        let off = addr - m.start;
        for i in 0..len {
            m.bytes[off + i] = seed.wrapping_add(i as u8);
        }
    }

    fn read(&self, addr: usize, len: usize, seed: u8) {
        let maps = self.0.borrow();
        let m = maps
            .iter()
            .find(|m| m.base <= addr && addr + len <= m.base + m.size)
            .expect("address outside every mapped block");
        let off = addr - m.start;
        for i in 0..len {
            assert_eq!(m.bytes[off + i], seed.wrapping_add(i as u8));
        }
    }

    fn mapped(&self) -> usize {
        self.0.borrow().len()
    }
}

/// Block source backed by heap buffers.
struct TestSource {
    memory: Memory,
}

impl BlockSource for TestSource {
    fn map(&mut self, size: usize) -> usize {
        let bytes = vec![0u8; size + PAGE];
        let start = bytes.as_ptr() as usize;
        let base = (start + PAGE - 1) / PAGE * PAGE;
        self.memory.0.borrow_mut().push(Mapping { base, size, start, bytes });
        base
    }

    fn unmap(&mut self, ptr: usize, size: usize) {
        self.memory
            .0
            .borrow_mut()
            .retain(|m| !(m.base == ptr && m.size == size));
    }

    fn page_size(&self) -> usize {
        PAGE
    }
}

fn new_pool(size: usize, align: usize) -> (Pool<TestSource>, Memory) {
    let memory = Memory::default();
    let pool = Pool::new(size, align, TestSource { memory: memory.clone() });
    (pool, memory)
}

fn fill(mem: &Memory, ptr: usize, len: usize, seed: u8) {
    mem.write(ptr, len, seed);
}

fn check(mem: &Memory, ptr: usize, len: usize, seed: u8) {
    mem.read(ptr, len, seed);
}

fn alloc_slot(pool: &mut Pool<TestSource>) -> usize {
    pool.try_allocate().unwrap()
}

fn free_slot(pool: &mut Pool<TestSource>, ptr: usize) {
    pool.try_free(ptr).unwrap()
}

fn active_base(pool: &Pool<TestSource>) -> usize {
    pool.active_block().unwrap().base
}

#[test]
fn first_allocation_is_non_null_aligned_and_writable() {
    let (mut pool, mem) = new_pool(24, 16);
    let ptr = alloc_slot(&mut pool);
    assert!(ptr != 0);
    assert_eq!(ptr % 16, 0);
    fill(&mem, ptr, 24, 7);
    check(&mem, ptr, 24, 7);
    free_slot(&mut pool, ptr);
}

#[test]
fn allocations_are_unique_until_freed() {
    let (mut pool, mem) = new_pool(32, 16);
    let mut seen = HashSet::new();
    let mut ptrs = Vec::new();
    for i in 0..4096 {
        let ptr = alloc_slot(&mut pool);
        assert!(ptr != 0);
        assert_eq!(ptr % 16, 0);
        assert!(seen.insert(ptr), "duplicate pointer at allocation {i}");
        fill(&mem, ptr, 32, i as u8);
        ptrs.push(ptr);
    }
    for i in 0..ptrs.len() {
        check(&mem, ptrs[i], 32, i as u8);
    }
    for ptr in ptrs.into_iter().rev() {
        free_slot(&mut pool, ptr);
    }
}

#[test]
fn freed_slots_are_reused_in_lifo_order() {
    let (mut pool, _mem) = new_pool(64, 16);
    let a = alloc_slot(&mut pool);
    let b = alloc_slot(&mut pool);
    let c = alloc_slot(&mut pool);
    free_slot(&mut pool, a);
    free_slot(&mut pool, b);
    free_slot(&mut pool, c);
    assert_eq!(alloc_slot(&mut pool), c);
    assert_eq!(alloc_slot(&mut pool), b);
    assert_eq!(alloc_slot(&mut pool), a);
}

#[test]
fn double_free_panics() {
    let (mut pool, _mem) = new_pool(8, 8);
    let ptr = alloc_slot(&mut pool);
    free_slot(&mut pool, ptr);
    assert_eq!(pool.try_free(ptr), Err(AllocErr::DoubleFree));
}

#[test]
fn null_free_panics() {
    let (mut pool, _mem) = new_pool(8, 8);
    assert_eq!(pool.try_free(0), Err(AllocErr::InvalidPointer));
}

#[test]
fn foreign_pointer_free_panics() {
    let (mut pool, _mem) = new_pool(8, 8);
    let byte = vec![0u8; 1];
    let ptr = byte.as_ptr() as usize;
    assert_eq!(pool.try_free(ptr), Err(AllocErr::InvalidPointer));
}

#[test]
fn interior_pointer_free_panics() {
    let (mut pool, _mem) = new_pool(64, 16);
    let ptr = alloc_slot(&mut pool);
    assert_eq!(pool.try_free(ptr + 1), Err(AllocErr::MisalignedFree));
    free_slot(&mut pool, ptr);
}

#[test]
fn supports_many_sizes_and_alignments() {
    let aligns: &[usize] = &[1, 2, 4, 8, 16, 32, 64, 128];
    let sizes: &[usize] = &[
        1usize, 2, 3, 7, 8, 9, 15, 16, 17, 31, 32, 33, 63, 64, 65, 127, 128, 255,
    ];
    for &align in aligns {
        for &size in sizes {
            let (mut pool, mem) = new_pool(size, align);
            let mut ptrs = Vec::new();
            for i in 0..128 {
                let ptr = alloc_slot(&mut pool);
                assert!(ptr != 0);
                assert_eq!(ptr % align, 0);
                fill(&mem, ptr, size, i as u8);
                ptrs.push((ptr, i as u8));
            }
            for &(ptr, seed) in &ptrs {
                check(&mem, ptr, size, seed);
            }
            for (ptr, _) in ptrs {
                free_slot(&mut pool, ptr);
            }
        }
    }
}

#[test]
fn allocates_across_many_blocks_and_frees_everything() {
    let (mut pool, mem) = new_pool(256, 64);
    let mut ptrs = Vec::new();
    let mut blocks = HashSet::new();
    for i in 0..2048 {
        let ptr = alloc_slot(&mut pool);
        assert_eq!(ptr % 64, 0);
        blocks.insert(active_base(&pool));
        fill(&mem, ptr, 256, i as u8);
        ptrs.push((ptr, i as u8));
    }
    assert!(blocks.len() > 1);
    for &(ptr, seed) in &ptrs {
        check(&mem, ptr, 256, seed);
    }
    for (ptr, _) in ptrs {
        free_slot(&mut pool, ptr);
    }
}

#[test]
fn reuses_slots_from_older_blocks_after_growth() {
    let (mut pool, _mem) = new_pool(128, 32);
    let first = alloc_slot(&mut pool);
    let first_block = active_base(&pool);
    let mut ptrs = vec![first];
    while active_base(&pool) == first_block {
        ptrs.push(alloc_slot(&mut pool));
    }
    let second_block_ptr = ptrs.pop().unwrap();
    free_slot(&mut pool, first);
    let reused = alloc_slot(&mut pool);
    assert_eq!(reused, first);
    free_slot(&mut pool, reused);
    free_slot(&mut pool, second_block_ptr);
    for ptr in ptrs.into_iter().skip(1) {
        free_slot(&mut pool, ptr);
    }
}

#[test]
fn repeated_full_pool_churn_keeps_returning_valid_slots() {
    let (mut pool, mem) = new_pool(48, 16);
    let mut ptrs = Vec::new();
    for round in 0..64usize {
        ptrs.clear();
        for i in 0..512usize {
            let ptr = alloc_slot(&mut pool);
            fill(&mem, ptr, 48, (round ^ i) as u8);
            ptrs.push((ptr, (round ^ i) as u8));
        }
        for &(ptr, seed) in &ptrs {
            check(&mem, ptr, 48, seed);
        }
        if round % 2 == 0 {
            for &(ptr, _) in ptrs.iter().rev() {
                free_slot(&mut pool, ptr);
            }
        } else {
            for &(ptr, _) in &ptrs {
                free_slot(&mut pool, ptr);
            }
        }
    }
}

#[test]
fn deterministic_randomized_stress() {
    let (mut pool, mem) = new_pool(40, 8);
    let mut live: Vec<(usize, u8)> = Vec::new();
    let mut state = 0x1234_5678_9abc_def0u64;
    for step in 0..20000usize {
        state = state.wrapping_mul(6364136223846793005).wrapping_add(1);
        let allocate = live.is_empty() || ((state >> 63) == 1 && live.len() < 4096);
        if allocate {
            let ptr = alloc_slot(&mut pool);
            assert_eq!(ptr % 8, 0);
            let seed = (step as u8).wrapping_mul(17).wrapping_add(live.len() as u8);
            fill(&mem, ptr, 40, seed);
            live.push((ptr, seed));
        } else {
            let idx = (state as usize) % live.len();
            let (ptr, seed) = live.swap_remove(idx);
            check(&mem, ptr, 40, seed);
            free_slot(&mut pool, ptr);
        }
        if step % 257 == 0 {
            for &(ptr, seed) in &live {
                check(&mem, ptr, 40, seed);
            }
        }
    }
    for (ptr, seed) in live {
        check(&mem, ptr, 40, seed);
        free_slot(&mut pool, ptr);
    }
}

#[test]
fn zero_sized_requests_still_create_distinct_pointer_sized_slots() {
    let (mut pool, mem) = new_pool(0, 8);
    assert!(pool.slot_size() >= std::mem::size_of::<usize>());
    assert_eq!(pool.slot_size() % 8, 0);
    let mut ptrs = Vec::new();
    let mut seen = HashSet::new();
    for _ in 0..1024 {
        let ptr = alloc_slot(&mut pool);
        assert!(ptr != 0);
        assert_eq!(ptr % 8, 0);
        assert!(seen.insert(ptr));
        fill(&mem, ptr, 1, 0xaa);
        ptrs.push(ptr);
    }
    for ptr in ptrs {
        free_slot(&mut pool, ptr);
    }
}

#[test]
fn slot_size_rounds_up_to_requested_alignment() {
    for (size, align, expected) in [
        (1usize, 1usize, std::mem::size_of::<usize>()),
        (1, 2, std::mem::size_of::<usize>()),
        (1, 4, std::mem::size_of::<usize>()),
        (1, 8, std::mem::size_of::<usize>()),
        (9, 8, 16),
        (17, 16, 32),
        (33, 32, 64),
        (65, 64, 128),
    ] {
        let (pool, _mem) = new_pool(size, align);
        assert_eq!(pool.slot_size(), expected);
        assert_eq!(pool.slot_size() % align, 0);
    }
}

#[test]
fn contiguous_hwm_allocations_advance_by_slot_size() {
    let (mut pool, _mem) = new_pool(13, 8);
    let first = alloc_slot(&mut pool);
    let second = alloc_slot(&mut pool);
    let third = alloc_slot(&mut pool);
    assert_eq!(second - first, pool.slot_size());
    assert_eq!(third - second, pool.slot_size());
    free_slot(&mut pool, third);
    free_slot(&mut pool, second);
    free_slot(&mut pool, first);
}

#[test]
fn bitmap_boundary_double_free_detection() {
    let (mut pool, _mem) = new_pool(32, 8);
    let mut ptrs = Vec::new();
    for _ in 0..24 {
        ptrs.push(alloc_slot(&mut pool));
    }
    for &idx in &[0usize, 7, 8, 15, 16, 23] {
        free_slot(&mut pool, ptrs[idx]);
        assert_eq!(pool.try_free(ptrs[idx]), Err(AllocErr::DoubleFree));
    }
    for (idx, ptr) in ptrs.into_iter().enumerate() {
        if ![0usize, 7, 8, 15, 16, 23].contains(&idx) {
            free_slot(&mut pool, ptr);
        }
    }
}

#[test]
fn freeing_some_slots_does_not_corrupt_live_neighbors() {
    let (mut pool, mem) = new_pool(96, 32);
    let mut ptrs = Vec::new();
    for i in 0..256 {
        let ptr = alloc_slot(&mut pool);
        fill(&mem, ptr, 96, i as u8);
        ptrs.push((ptr, i as u8));
    }
    for i in (0..ptrs.len()).step_by(3) {
        free_slot(&mut pool, ptrs[i].0);
    }
    for i in 0..ptrs.len() {
        if i % 3 != 0 {
            check(&mem, ptrs[i].0, 96, ptrs[i].1);
        }
    }
    let mut replacements = Vec::new();
    for i in (0..ptrs.len()).step_by(3) {
        let ptr = alloc_slot(&mut pool);
        fill(&mem, ptr, 96, i as u8 ^ 0x5a);
        replacements.push((ptr, i as u8 ^ 0x5a));
    }
    for i in 0..ptrs.len() {
        if i % 3 != 0 {
            check(&mem, ptrs[i].0, 96, ptrs[i].1);
            free_slot(&mut pool, ptrs[i].0);
        }
    }
    for (ptr, seed) in replacements {
        check(&mem, ptr, 96, seed);
        free_slot(&mut pool, ptr);
    }
}

#[test]
fn old_block_reused_slots_can_be_freed_again_after_growth() {
    let (mut pool, _mem) = new_pool(128, 32);
    let first = alloc_slot(&mut pool);
    let first_block = active_base(&pool);
    let mut ptrs = vec![first];
    while active_base(&pool) == first_block {
        ptrs.push(alloc_slot(&mut pool));
    }
    let new_block_ptr = ptrs.pop().unwrap();
    free_slot(&mut pool, first);
    let reused = alloc_slot(&mut pool);
    assert_eq!(reused, first);
    free_slot(&mut pool, reused);
    assert_eq!(pool.try_free(reused), Err(AllocErr::DoubleFree));
    free_slot(&mut pool, new_block_ptr);
    for ptr in ptrs.into_iter().skip(1) {
        free_slot(&mut pool, ptr);
    }
}

#[test]
fn many_pools_can_allocate_and_drop_independently() {
    for pool_idx in 0..128usize {
        let (mut pool, mem) = new_pool(24 + pool_idx % 17, 8);
        let mut ptrs = Vec::new();
        for i in 0..128usize {
            let ptr = alloc_slot(&mut pool);
            fill(&mem, ptr, 24 + pool_idx % 17, (pool_idx ^ i) as u8);
            ptrs.push((ptr, (pool_idx ^ i) as u8));
        }
        for &(ptr, seed) in &ptrs {
            check(&mem, ptr, 24 + pool_idx % 17, seed);
        }
        for (ptr, _) in ptrs {
            free_slot(&mut pool, ptr);
        }
        pool.release();
    }
}

#[test]
fn alternating_lifetimes_stress_freelist_and_hwm() {
    let (mut pool, mem) = new_pool(72, 8);
    let mut retained = Vec::new();
    for wave in 0..256usize {
        let mut temporary = Vec::new();
        for i in 0..64usize {
            let ptr = alloc_slot(&mut pool);
            fill(&mem, ptr, 72, (wave + i) as u8);
            if i % 4 == 0 {
                retained.push((ptr, (wave + i) as u8));
            } else {
                temporary.push((ptr, (wave + i) as u8));
            }
        }
        for &(ptr, seed) in &temporary {
            check(&mem, ptr, 72, seed);
        }
        for (ptr, _) in temporary {
            free_slot(&mut pool, ptr);
        }
        if retained.len() > 512 {
            let drained: Vec<_> = retained.drain(0..128).collect();
            for (ptr, seed) in drained {
                check(&mem, ptr, 72, seed);
                free_slot(&mut pool, ptr);
            }
        }
    }
    for (ptr, seed) in retained {
        check(&mem, ptr, 72, seed);
        free_slot(&mut pool, ptr);
    }
}

#[test]
fn large_slot_allocations_cross_blocks_cleanly() {
    let (mut pool, mem) = new_pool(4096, 256);
    let mut ptrs = Vec::new();
    let mut blocks = HashSet::new();
    for i in 0..128 {
        let ptr = alloc_slot(&mut pool);
        assert_eq!(ptr % 256, 0);
        blocks.insert(active_base(&pool));
        fill(&mem, ptr, 4096, i as u8);
        ptrs.push((ptr, i as u8));
    }
    assert!(blocks.len() > 1);
    for &(ptr, seed) in &ptrs {
        check(&mem, ptr, 4096, seed);
    }
    for (ptr, _) in ptrs.into_iter().rev() {
        free_slot(&mut pool, ptr);
    }
}

#[test]
fn free_in_permutation_then_reallocate_all_same_addresses() {
    let (mut pool, mem) = new_pool(56, 8);
    let mut ptrs = Vec::new();
    let mut original = HashSet::new();
    for i in 0..1024 {
        let ptr = alloc_slot(&mut pool);
        fill(&mem, ptr, 56, i as u8);
        original.insert(ptr);
        ptrs.push(ptr);
    }
    let mut state = 0xfedc_ba98_7654_3210u64;
    while !ptrs.is_empty() {
        state = state
            .wrapping_mul(2862933555777941757)
            .wrapping_add(3037000493);
        let idx = state as usize % ptrs.len();
        free_slot(&mut pool, ptrs.swap_remove(idx));
    }
    let mut reused = HashSet::new();
    for _ in 0..1024 {
        let ptr = alloc_slot(&mut pool);
        assert!(original.contains(&ptr));
        reused.insert(ptr);
    }
    assert_eq!(reused.len(), original.len());
}

#[test]
fn foreign_pointer_from_different_pool_panics() {
    let (mut pool_a, _mem_a) = new_pool(64, 16);
    let (mut pool_b, _mem_b) = new_pool(64, 16);
    let ptr_from_b = alloc_slot(&mut pool_b);
    assert_eq!(pool_a.try_free(ptr_from_b), Err(AllocErr::InvalidPointer));
    free_slot(&mut pool_b, ptr_from_b);
}

#[test]
fn free_pointer_just_before_slots_start_panics() {
    let (mut pool, _mem) = new_pool(64, 16);
    let ptr = alloc_slot(&mut pool);
    let block_base = active_base(&pool);
    if block_base != ptr {
        assert_eq!(pool.try_free(block_base), Err(AllocErr::InvalidPointer));
    }
    free_slot(&mut pool, ptr);
}

#[test]
fn free_pointer_at_exact_block_end_panics() {
    let (mut pool, _mem) = new_pool(64, 16);
    let ptr = alloc_slot(&mut pool);
    let block = pool.active_block().unwrap();
    let block_end = block.base + block.size;
    assert_eq!(pool.try_free(block_end), Err(AllocErr::InvalidPointer));
    free_slot(&mut pool, ptr);
}

#[test]
fn alloc_free_alloc_same_slot_immediately_reuses_correctly() {
    let (mut pool, mem) = new_pool(32, 8);
    let first = alloc_slot(&mut pool);
    for i in 0..10000usize {
        free_slot(&mut pool, first);
        let again = alloc_slot(&mut pool);
        assert_eq!(again, first);
        fill(&mem, again, 32, i as u8);
        check(&mem, again, 32, i as u8);
    }
    free_slot(&mut pool, first);
}

#[test]
fn bitmap_survives_exact_multiple_of_8_slot_counts() {
    for &count in &[7usize, 8, 9, 15, 16, 17, 63, 64, 65] {
        let (mut pool, mem) = new_pool(16, 8);
        let mut ptrs = Vec::new();
        for i in 0..count {
            let ptr = alloc_slot(&mut pool);
            fill(&mem, ptr, 16, i as u8);
            ptrs.push(ptr);
        }
        for (i, &ptr) in ptrs.iter().enumerate() {
            check(&mem, ptr, 16, i as u8);
        }
        for ptr in ptrs {
            free_slot(&mut pool, ptr);
        }
    }
}

#[test]
fn max_alignment_slot_size_relationship_holds_under_growth() {
    let (mut pool, mem) = new_pool(100, 128);
    let mut ptrs = Vec::new();
    for i in 0..200 {
        let ptr = alloc_slot(&mut pool);
        assert_eq!(ptr % 128, 0);
        fill(&mem, ptr, 100, i as u8);
        ptrs.push((ptr, i as u8));
    }
    for &(ptr, seed) in &ptrs {
        check(&mem, ptr, 100, seed);
    }
    for (ptr, _) in ptrs {
        free_slot(&mut pool, ptr);
    }
}

#[test]
fn interleaved_alloc_free_across_block_boundary() {
    let (mut pool, mem) = new_pool(64, 16);
    let mut live = Vec::new();
    for i in 0..64 {
        let ptr = alloc_slot(&mut pool);
        fill(&mem, ptr, 64, i as u8);
        if i % 2 == 0 {
            free_slot(&mut pool, ptr);
        } else {
            live.push((ptr, i as u8));
        }
    }
    for &(ptr, seed) in &live {
        check(&mem, ptr, 64, seed);
    }
    for (ptr, _) in live {
        free_slot(&mut pool, ptr);
    }
}

#[test]
fn drop_with_live_allocations_does_not_leak_or_crash() {
    let (mut pool, mem) = new_pool(48, 16);
    for i in 0..512 {
        let ptr = alloc_slot(&mut pool);
        fill(&mem, ptr, 48, i as u8);
    }
    pool.release();
    assert_eq!(mem.mapped(), 0);
}

#[test]
fn drop_stress_many_pools_created_and_dropped() {
    for _ in 0..2000 {
        let (mut pool, mem) = new_pool(64, 16);
        for _ in 0..8 {
            alloc_slot(&mut pool);
        }
        pool.release();
        assert_eq!(mem.mapped(), 0);
    }
}

/// Runs one operation sequence the way the fuzz target decodes its input:
/// the first two bytes choose the slot size and alignment, then each byte
/// allocates, frees a live slot, or does nothing.
fn run_operation_bytes(data: &[u8]) {
    if data.len() < 2 {
        return;
    }
    let size = (data[0] as usize % 256) + 1;
    let align = 1 << (data[1] as usize % 8);
    let (mut pool, mem) = new_pool(size, align);
    let mut live: Vec<(usize, u8)> = Vec::new();
    for &byte in &data[2..] {
        match byte % 3 {
            0 => {
                let ptr = alloc_slot(&mut pool);
                assert_eq!(ptr % align, 0);
                fill(&mem, ptr, size, byte);
                live.push((ptr, byte));
            }
            1 if !live.is_empty() => {
                let idx = (byte as usize) % live.len();
                let (ptr, seed) = live.swap_remove(idx);
                check(&mem, ptr, size, seed);
                free_slot(&mut pool, ptr);
            }
            _ => {}
        }
    }
    for (ptr, seed) in live {
        check(&mem, ptr, size, seed);
        free_slot(&mut pool, ptr);
    }
}

#[test]
fn fuzz_style_operation_sequences() {
    run_operation_bytes(&[]);
    run_operation_bytes(&[7]);
    run_operation_bytes(&[255, 7, 0, 0, 0, 1, 4, 0, 3, 6, 9, 1, 1, 1, 2, 5]);
    let mut state = 0x9e37_79b9_7f4a_7c15u64;
    for _ in 0..64 {
        let mut data = Vec::new();
        for _ in 0..300 {
            state = state.wrapping_mul(6364136223846793005).wrapping_add(1442695040888963407);
            data.push((state >> 56) as u8);
        }
        run_operation_bytes(&data);
    }
}
