use polloc::bitmap::BITS_PER_BYTE;
use polloc::{AllocErr, BitMap, Block, BlockSource, FreeList, Pool};
use std::cell::Cell;
use std::rc::Rc;

const PAGE: usize = 4096;

/// Block source that hands out page-aligned heap buffers and counts unmaps.
struct HeapSource {
    buffers: Vec<(usize, Vec<u8>)>,
    unmapped: Rc<Cell<usize>>,
}

impl HeapSource {
    fn new() -> Self {
        HeapSource {
            buffers: Vec::new(),
            unmapped: Rc::new(Cell::new(0)),
        }
    }
}

impl BlockSource for HeapSource {
    fn map(&mut self, size: usize) -> usize {
        let bytes = vec![0u8; size + PAGE];
        let base = (bytes.as_ptr() as usize + PAGE - 1) / PAGE * PAGE;
        self.buffers.push((base, bytes));
        base
    }

    fn unmap(&mut self, ptr: usize, _size: usize) {
        self.buffers.retain(|(b, _)| *b != ptr);
        self.unmapped.set(self.unmapped.get() + 1);
    }

    fn page_size(&self) -> usize {
        PAGE
    }
}

/// Block source that returns a fixed address (possibly a bad one) and never
/// backs it with memory.
struct FixedSource {
    base: usize,
    page: usize,
    unmapped: Rc<Cell<usize>>,
}

impl BlockSource for FixedSource {
    fn map(&mut self, _size: usize) -> usize {
        self.base
    }

    fn unmap(&mut self, _ptr: usize, _size: usize) {
        self.unmapped.set(self.unmapped.get() + 1);
    }

    fn page_size(&self) -> usize {
        self.page
    }
}

#[test]
fn bitmap_new_is_all_free() {
    let bm = BitMap::new(3);
    assert_eq!(bm.size(), 3);
    for idx in 0..3 * BITS_PER_BYTE {
        assert!(bm.is_free(idx).0);
    }
    assert_eq!(BitMap::dangling().size(), 0);
}

#[test]
fn bitmap_set_and_clear_touch_one_bit() {
    let mut bm = BitMap::new(2);
    bm.set(13, None);
    assert_eq!(bm.is_free(13), (false, (1, 5)));
    for idx in 0..16 {
        if idx != 13 {
            assert!(bm.is_free(idx).0);
        }
    }
    bm.set(7, Some((0, 7)));
    bm.set(8, None);
    let (free, cached) = bm.is_free(13);
    assert!(!free);
    bm.clear(13, Some(cached));
    assert!(bm.is_free(13).0);
    assert!(!bm.is_free(7).0);
    assert!(!bm.is_free(8).0);
    bm.clear(7, None);
    assert!(bm.is_free(7).0);
}

#[test]
fn bitmap_required_bytes_rounds_up_to_whole_bytes() {
    assert_eq!(BitMap::required_bytes(0, 8), 0);
    assert_eq!(BitMap::required_bytes(64, 8), 1);
    assert_eq!(BitMap::required_bytes(72, 8), 2);
    assert_eq!(BitMap::required_bytes(4040, 256), 2);
    assert_eq!(BitMap::required_bytes(4040, 4096), 0);
    assert_eq!(BitMap::required_bytes(7, 1), 1);
}

#[test]
fn freelist_is_last_in_first_out() {
    let mut fl = FreeList::dangling();
    assert!(fl.is_null());
    assert_eq!(fl.get_slot(), None);
    fl.add_slot(16);
    fl.add_slot(32);
    fl.add_slot(48);
    assert!(!fl.is_null());
    assert_eq!(fl.get_slot(), Some(48));
    assert_eq!(fl.get_slot_unchecked(), 32);
    assert_eq!(fl.get_slot(), Some(16));
    assert_eq!(fl.get_slot(), None);
}

#[test]
fn freelist_new_holds_its_head() {
    let mut empty = FreeList::new(0);
    assert!(empty.is_null());
    assert_eq!(empty.get_slot(), None);
    let mut one = FreeList::new(64);
    assert_eq!(one.get_slot(), Some(64));
    assert!(one.is_null());
}

#[test]
fn error_messages() {
    assert_eq!(AllocErr::Overflow.message(), "allocation size overflow");
    assert_eq!(AllocErr::OutOfMemory.message(), "out of memory");
    assert_eq!(AllocErr::InvalidAlignment.message(), "invalid memory alignment");
    assert_eq!(
        AllocErr::DoubleFree.message(),
        "attempted to free memory more than once"
    );
    assert_eq!(
        AllocErr::InvalidPointer.message(),
        "free() called with a pointer that is not owned by this pool"
    );
    assert_eq!(
        AllocErr::MisalignedFree.message(),
        "free() called with a misaligned pointer"
    );
    assert_eq!(
        AllocErr::InvalidSizeOrAlignement.message(),
        "object size or alignment exceeds the pool's slot size or alignment"
    );
}

#[test]
fn align_up_values() {
    assert_eq!(Pool::<HeapSource>::align_up(1, 4096), Some(4096));
    assert_eq!(Pool::<HeapSource>::align_up(4096, 4096), Some(4096));
    assert_eq!(Pool::<HeapSource>::align_up(0, 8), Some(0));
    assert_eq!(Pool::<HeapSource>::align_up(usize::MAX, 2), None);
    assert_eq!(Pool::<HeapSource>::align_up_unchecked(57, 24), 72);
    assert_eq!(Pool::<HeapSource>::align_up_unchecked(64, 16), 64);
}

#[test]
fn next_block_size_doubles_and_rounds_to_pages() {
    assert_eq!(Pool::<HeapSource>::next_block_size(1, 4096), Ok(4096));
    assert_eq!(Pool::<HeapSource>::next_block_size(4096, 4096), Ok(8192));
    assert_eq!(Pool::<HeapSource>::next_block_size(1, 1), Ok(2));
    assert_eq!(Pool::<HeapSource>::next_block_size(5000, 4096), Ok(10000));
    assert_eq!(
        Pool::<HeapSource>::next_block_size(usize::MAX, 4096),
        Err(AllocErr::Overflow)
    );
    let half = usize::MAX / 2 + 1;
    assert_eq!(Pool::<HeapSource>::next_block_size(half, 1), Ok(half));
}

#[test]
fn block_new_and_getters() {
    let b = Block::new(4096, 8192, 4160, 12288, BitMap::new(2));
    assert_eq!(b.ptr(), 4096);
    assert_eq!(b.size(), 8192);
    assert_eq!(b.hwm(), 4160);
    assert_eq!(b.end, 12288);
    assert_eq!(b.bitmap.size(), 2);
}

#[test]
fn pool_starts_empty_with_derived_slot_layout() {
    let pool = Pool::new(24, 16, HeapSource::new());
    assert_eq!(pool.slot_size(), 32);
    assert_eq!(pool.slot_align(), 16);
    assert!(pool.active_block().is_none());
}

#[test]
fn first_block_is_one_page_and_next_is_twice_as_large() {
    let mut pool = Pool::new(64, 16, HeapSource::new());
    let first = pool.try_allocate().unwrap();
    let block = pool.active_block().unwrap();
    assert_eq!(block.size, 4096);
    assert_eq!(first, block.base + 64);
    let first_base = block.base;
    while pool.active_block().unwrap().base == first_base {
        pool.try_allocate().unwrap();
    }
    assert_eq!(pool.active_block().unwrap().size, 8192);
}

#[test]
fn free_then_allocate_returns_the_same_slot() {
    let mut pool = Pool::new(40, 8, HeapSource::new());
    let a = pool.try_allocate().unwrap();
    let b = pool.try_allocate().unwrap();
    assert_eq!(pool.try_free(a), Ok(()));
    assert_eq!(pool.try_allocate(), Ok(a));
    assert_eq!(pool.try_free(b), Ok(()));
    assert_eq!(pool.try_free(b), Err(AllocErr::DoubleFree));
    assert_eq!(pool.try_allocate(), Ok(b));
}

#[test]
fn live_slots_never_overlap() {
    let mut pool = Pool::new(24, 8, HeapSource::new());
    let mut ptrs: Vec<usize> = (0..600).map(|_| pool.try_allocate().unwrap()).collect();
    ptrs.sort();
    for w in ptrs.windows(2) {
        assert!(w[0] + pool.slot_size() <= w[1]);
    }
}

#[test]
fn null_source_reports_out_of_memory() {
    let unmapped = Rc::new(Cell::new(0));
    let mut pool = Pool::new(
        32,
        8,
        FixedSource {
            base: 0,
            page: PAGE,
            unmapped: unmapped.clone(),
        },
    );
    assert_eq!(pool.try_allocate(), Err(AllocErr::OutOfMemory));
    assert!(pool.active_block().is_none());
    assert_eq!(unmapped.get(), 0);
}

#[test]
fn misaligned_source_memory_is_refused_and_returned() {
    let unmapped = Rc::new(Cell::new(0));
    let mut pool = Pool::new(
        32,
        64,
        FixedSource {
            base: 4096 + 8,
            page: PAGE,
            unmapped: unmapped.clone(),
        },
    );
    assert_eq!(pool.try_allocate(), Err(AllocErr::InvalidAlignment));
    assert!(pool.active_block().is_none());
    assert_eq!(unmapped.get(), 1);
}

#[test]
fn wrapping_source_address_reports_out_of_memory() {
    let unmapped = Rc::new(Cell::new(0));
    let mut pool = Pool::new(
        32,
        8,
        FixedSource {
            base: usize::MAX - 4095,
            page: PAGE,
            unmapped: unmapped.clone(),
        },
    );
    assert_eq!(pool.try_allocate(), Err(AllocErr::OutOfMemory));
    assert!(pool.active_block().is_none());
    assert_eq!(unmapped.get(), 1);
}

#[test]
fn zero_page_size_reports_overflow() {
    let unmapped = Rc::new(Cell::new(0));
    let mut pool = Pool::new(
        32,
        8,
        FixedSource {
            base: 4096,
            page: 0,
            unmapped,
        },
    );
    assert_eq!(pool.try_allocate(), Err(AllocErr::Overflow));
}

#[test]
fn overlapping_source_memory_is_refused() {
    let unmapped = Rc::new(Cell::new(0));
    let mut pool = Pool::new(
        32,
        8,
        FixedSource {
            base: 1 << 20,
            page: PAGE,
            unmapped: unmapped.clone(),
        },
    );
    let first = pool.try_allocate().unwrap();
    // 56 header bytes and a 16-byte bitmap, rounded up to 32-byte slots.
    assert_eq!(first, (1 << 20) + 96);
    let slots_in_first_block = (4096 - 96) / 32;
    for _ in 1..slots_in_first_block {
        pool.try_allocate().unwrap();
    }
    assert_eq!(unmapped.get(), 0);
    assert_eq!(pool.try_allocate(), Err(AllocErr::OutOfMemory));
    assert_eq!(pool.active_block().unwrap().size, 4096);
    assert_eq!(unmapped.get(), 1);
}

#[test]
fn adopt_block_checks_what_the_source_returned() {
    let mut pool = Pool::new(64, 16, HeapSource::new());
    assert_eq!(pool.adopt_block(0, 8192), Err(AllocErr::OutOfMemory));
    assert_eq!(pool.adopt_block(usize::MAX - 100, 8192), Err(AllocErr::OutOfMemory));
    assert_eq!(pool.adopt_block((1 << 20) + 8, 8192), Err(AllocErr::InvalidAlignment));
    assert_eq!(pool.adopt_block(1 << 20, 8192), Ok(()));
    assert_eq!(pool.adopt_block((1 << 20) + 4096, 8192), Err(AllocErr::OutOfMemory));
    assert_eq!(pool.adopt_block((1 << 20) - 8192, 8192), Ok(()));
    assert_eq!(pool.active_block().unwrap().base, (1 << 20) - 8192);
    // 56 header bytes and a 16-byte bitmap, rounded up to 64-byte slots.
    assert_eq!(pool.try_allocate(), Ok((1 << 20) - 8192 + 128));
}

#[test]
fn invalid_free_leaves_the_pool_unchanged() {
    let mut pool = Pool::new(64, 16, HeapSource::new());
    let a = pool.try_allocate().unwrap();
    let b = pool.try_allocate().unwrap();
    assert_eq!(pool.try_free(a + 16), Err(AllocErr::MisalignedFree));
    assert_eq!(pool.try_free(b + 64), Err(AllocErr::InvalidPointer));
    assert_eq!(pool.try_allocate().unwrap(), b + 64);
    assert_eq!(pool.try_free(a), Ok(()));
    assert_eq!(pool.try_free(b), Ok(()));
}

#[test]
fn validate_size_align_compares_with_the_slot() {
    let pool = Pool::new(64, 8, HeapSource::new());
    assert_eq!(pool.validate_size_align::<u64>(), Ok(()));
    assert_eq!(pool.validate_size_align::<[u8; 64]>(), Ok(()));
    assert_eq!(
        pool.validate_size_align::<[u8; 65]>(),
        Err(AllocErr::InvalidSizeOrAlignement)
    );
}

#[test]
fn try_allocate_with_builds_the_value_only_when_it_fits() {
    let mut pool = Pool::new(8, 8, HeapSource::new());
    let calls = Cell::new(0);
    let r = pool.try_allocate_with(|| {
        calls.set(calls.get() + 1);
        123_u64
    });
    let (addr, value) = r.unwrap();
    assert_eq!(value, 123);
    assert_eq!(addr % 8, 0);
    assert_eq!(calls.get(), 1);
    let r = pool.try_allocate_with(|| {
        calls.set(calls.get() + 1);
        [0u8; 16]
    });
    assert_eq!(r.err(), Some(AllocErr::InvalidSizeOrAlignement));
    assert_eq!(calls.get(), 1);
    assert_eq!(pool.try_free(addr), Ok(()));
}

#[test]
fn release_returns_every_block_and_the_pool_starts_over() {
    let source = HeapSource::new();
    let unmapped = source.unmapped.clone();
    let mut pool = Pool::new(256, 64, source);
    let mut last = 0;
    for _ in 0..100 {
        last = pool.try_allocate().unwrap();
    }
    pool.release();
    assert!(pool.active_block().is_none());
    assert!(unmapped.get() >= 2);
    assert_eq!(pool.try_free(last), Err(AllocErr::InvalidPointer));
    let again = pool.try_allocate().unwrap();
    assert_eq!(pool.active_block().unwrap().size, 4096);
    assert_eq!(pool.try_free(again), Ok(()));
}

#[test]
fn growth_size_skips_blocks_without_room_for_a_slot() {
    let small = Pool::new(64, 16, HeapSource::new());
    assert_eq!(small.growth_size(1, 4096), Ok(4096));
    assert_eq!(small.growth_size(4096, 4096), Ok(8192));
    assert_eq!(small.growth_size(1, 0), Err(AllocErr::Overflow));
    assert_eq!(small.growth_size(1, 1), Ok(128));
    let large = Pool::new(4096, 256, HeapSource::new());
    assert_eq!(large.growth_size(1, 4096), Ok(8192));
    assert_eq!(large.growth_size(usize::MAX, 4096), Err(AllocErr::Overflow));
}

/// Block source backed by heap buffers that records every call made on it.
struct RecordingSource {
    inner: HeapSource,
    maps: Rc<std::cell::RefCell<Vec<usize>>>,
    unmaps: Rc<std::cell::RefCell<Vec<(usize, usize)>>>,
}

impl BlockSource for RecordingSource {
    fn map(&mut self, size: usize) -> usize {
        self.maps.borrow_mut().push(size);
        self.inner.map(size)
    }

    fn unmap(&mut self, ptr: usize, size: usize) {
        self.unmaps.borrow_mut().push((ptr, size));
        self.inner.unmap(ptr, size);
    }

    fn page_size(&self) -> usize {
        self.inner.page_size()
    }
}

#[test]
fn source_sees_growing_maps_and_newest_first_unmaps() {
    let maps = Rc::new(std::cell::RefCell::new(Vec::new()));
    let unmaps = Rc::new(std::cell::RefCell::new(Vec::new()));
    let mut pool = Pool::new(
        64,
        16,
        RecordingSource {
            inner: HeapSource::new(),
            maps: maps.clone(),
            unmaps: unmaps.clone(),
        },
    );
    let a = pool.try_allocate().unwrap();
    assert_eq!(*maps.borrow(), vec![4096]);
    pool.try_free(a).unwrap();
    assert_eq!(pool.try_allocate(), Ok(a));
    assert_eq!(maps.borrow().len(), 1);
    let mut bases = vec![pool.active_block().unwrap().base];
    while maps.borrow().len() < 3 {
        pool.try_allocate().unwrap();
        let base = pool.active_block().unwrap().base;
        if *bases.last().unwrap() != base {
            bases.push(base);
        }
    }
    assert_eq!(*maps.borrow(), vec![4096, 8192, 16384]);
    assert!(unmaps.borrow().is_empty());
    pool.release();
    assert_eq!(
        *unmaps.borrow(),
        vec![(bases[2], 16384), (bases[1], 8192), (bases[0], 4096)]
    );
}
