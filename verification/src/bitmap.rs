//! Allocation-state table for the slots of one block: one bit per slot,
//! 1 for allocated and 0 for free, eight slots to a byte.
use vstd::prelude::*;

verus! {

/// Number of allocation slots represented by one bitmap byte.
pub const BITS_PER_BYTE: usize = 8;

/// Whether bit `offset` of `byte` is set.
pub open spec fn byte_bit(byte: u8, offset: int) -> bool {
    byte & (1u8 << (offset as u8)) != 0
}

/// Number of bitmap bytes that describe `total_bytes` of slot area cut into
/// slots of `slot_size` bytes: one bit per whole slot, rounded up to bytes.
pub open spec fn required_bytes_spec(total_bytes: int, slot_size: int) -> int {
    (total_bytes / slot_size + 7) / 8
}

proof fn lemma_set_bit(b: u8, o: u8, p: u8)
    requires
        o < 8,
        p < 8,
    ensures
        ((b | (1u8 << o)) & (1u8 << p) != 0) == (o == p || b & (1u8 << p) != 0),
{
    assert(((b | (1u8 << o)) & (1u8 << p) != 0) == (o == p || b & (1u8 << p) != 0))
        by (bit_vector)
        requires
            o < 8u8,
            p < 8u8,
    ;
}

proof fn lemma_clear_bit(b: u8, o: u8, p: u8)
    requires
        o < 8,
        p < 8,
    ensures
        ((b & !(1u8 << o)) & (1u8 << p) != 0) == (o != p && b & (1u8 << p) != 0),
{
    assert(((b & !(1u8 << o)) & (1u8 << p) != 0) == (o != p && b & (1u8 << p) != 0))
        by (bit_vector)
        requires
            o < 8u8,
            p < 8u8,
    ;
}

proof fn lemma_zero_bit(p: u8)
    requires
        p < 8,
    ensures
        0u8 & (1u8 << p) == 0,
{
    assert(0u8 & (1u8 << p) == 0) by (bit_vector);
}

/// Compact allocation-state table for the slots inside one block.
///
/// Slot `idx` is bit `idx % 8` of byte `idx / 8`.
#[derive(Debug)]
pub struct BitMap {
    /// The bitmap bytes.
    pub(crate) bytes: Vec<u8>,
}

impl View for BitMap {
    type V = Seq<bool>;

    /// One entry per slot the bytes can describe: `true` for allocated.
    closed spec fn view(&self) -> Seq<bool> {
        Seq::new(
            (self.bytes@.len() * 8) as nat,
            |i: int| byte_bit(self.bytes@[i / 8], i % 8),
        )
    }
}

impl BitMap {
    /// Number of bytes reserved for the bitmap.
    pub closed spec fn byte_len(&self) -> nat {
        self.bytes@.len()
    }

    /// The bitmap describes eight slots per byte.
    pub proof fn lemma_len(&self)
        ensures
            self@.len() == self.byte_len() * 8,
    {
    }

    /// Creates a bitmap of `size` bytes with every slot free.
    pub fn new(size: usize) -> (r: Self)
        ensures
            r.byte_len() == size,
            r@.len() == size * 8,
            forall|i: int| 0 <= i < r@.len() ==> !r@[i],
    {
        let r = BitMap { bytes: vec![0u8; size] };
        proof {
            assert forall|i: int| 0 <= i < r@.len() implies !r@[i] by {
                lemma_zero_bit((i % 8) as u8);
            }
        }
        r
    }

    /// Creates the empty bitmap of a block that holds no slots.
    pub fn dangling() -> (r: Self)
        ensures
            r.byte_len() == 0,
            r@.len() == 0,
    {
        BitMap { bytes: Vec::new() }
    }

    /// Number of bytes reserved for the bitmap.
    pub fn size(&self) -> (r: usize)
        ensures
            r == self.byte_len(),
    {
        self.bytes.len()
    }

    /// Number of bitmap bytes needed to describe a slot area of
    /// `total_bytes` cut into slots of `slot_size` bytes.
    pub fn required_bytes(total_bytes: usize, slot_size: usize) -> (r: usize)
        requires
            slot_size > 0,
        ensures
            r == required_bytes_spec(total_bytes as int, slot_size as int),
    {
        let slots = total_bytes / slot_size;
        slots / BITS_PER_BYTE + if slots % BITS_PER_BYTE == 0 {
            0
        } else {
            1
        }
    }

    /// Finds the byte and the bit within it that store slot `idx`.
    fn get_byte_ptr(&self, idx: usize) -> (r: (usize, u8))
        ensures
            r.0 == idx / 8,
            r.1 == idx % 8,
    {
        (idx / BITS_PER_BYTE, (idx % BITS_PER_BYTE) as u8)
    }

    /// Whether slot `idx` is free, together with the byte and bit that store it.
    pub fn is_free(&self, idx: usize) -> (r: (bool, (usize, u8)))
        requires
            idx < self@.len(),
        ensures
            r.0 == !self@[idx as int],
            r.1 == (idx / 8, (idx % 8) as u8),
    {
        let (byte_index, offset) = self.get_byte_ptr(idx);
        let byte = self.bytes[byte_index];
        (byte & (1u8 << offset) == 0, (byte_index, offset))
    }

    /// Marks slot `idx` as allocated. `cached_byte`, when given, is the byte
    /// and bit that store `idx`, as `is_free` returned them.
    pub fn set(&mut self, idx: usize, cached_byte: Option<(usize, u8)>)
        requires
            idx < old(self)@.len(),
            cached_byte matches Some(c) ==> c == (idx / 8, (idx % 8) as u8),
        ensures
            final(self).byte_len() == old(self).byte_len(),
            final(self)@ == old(self)@.update(idx as int, true),
    {
        let (byte_index, offset) = match cached_byte {
            Some(c) => c,
            None => self.get_byte_ptr(idx),
        };
        let byte = self.bytes[byte_index];
        let new_byte = byte | (1u8 << offset);
        let ghost before = self.bytes@;
        self.bytes.set(byte_index, new_byte);
        proof {
            assert forall|i: int| 0 <= i < self@.len() implies self@[i] == old(self)@.update(
                idx as int,
                true,
            )[i] by {
                if i / 8 == byte_index {
                    lemma_set_bit(byte, offset, (i % 8) as u8);
                }
            }
            assert(self@ =~= old(self)@.update(idx as int, true));
        }
    }

    /// Marks slot `idx` as free. `cached_byte`, when given, is the byte and
    /// bit that store `idx`, as `is_free` returned them.
    pub fn clear(&mut self, idx: usize, cached_byte: Option<(usize, u8)>)
        requires
            idx < old(self)@.len(),
            cached_byte matches Some(c) ==> c == (idx / 8, (idx % 8) as u8),
        ensures
            final(self).byte_len() == old(self).byte_len(),
            final(self)@ == old(self)@.update(idx as int, false),
    {
        let (byte_index, offset) = match cached_byte {
            Some(c) => c,
            None => self.get_byte_ptr(idx),
        };
        let byte = self.bytes[byte_index];
        let new_byte = byte & !(1u8 << offset);
        self.bytes.set(byte_index, new_byte);
        proof {
            assert forall|i: int| 0 <= i < self@.len() implies self@[i] == old(self)@.update(
                idx as int,
                false,
            )[i] by {
                if i / 8 == byte_index {
                    lemma_clear_bit(byte, offset, (i % 8) as u8);
                }
            }
            assert(self@ =~= old(self)@.update(idx as int, false));
        }
    }
}

} // verus!
