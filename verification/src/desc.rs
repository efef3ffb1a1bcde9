//! Descriptors: an arena slot number and lazy flags packed into one `u32`.
use vstd::prelude::*;

verus! {

/// Block descriptor flag: the elements of the block stand in the opposite order.
pub const REV: u32 = 0x8000_0000;

/// The slot number bits of a block descriptor.
pub const ID_MASK: u32 = 0x7fff_ffff;

/// The arena slot of a block descriptor.
pub open spec fn slot_of(d: u32) -> int {
    (d & ID_MASK) as int
}

/// Whether a block descriptor carries the reversal flag.
pub open spec fn flagged(d: u32) -> bool {
    d & REV != 0
}

/// The arena slot of a block descriptor.
pub fn slot(d: u32) -> (id: usize)
    ensures
        id == slot_of(d),
{
    (d & ID_MASK) as usize
}

/// Whether a block descriptor carries the reversal flag.
pub fn is_flagged(d: u32) -> (f: bool)
    ensures
        f == flagged(d),
{
    d & REV != 0
}

/// The block descriptor without its flag.
pub fn unflagged(d: u32) -> (p: u32)
    ensures
        slot_of(p) == slot_of(d),
        !flagged(p),
        p as int == slot_of(d),
{
    assert((d & ID_MASK) & ID_MASK == d & ID_MASK) by (bit_vector);
    assert((d & ID_MASK) & REV == 0) by (bit_vector);
    d & ID_MASK
}

/// Flipping the flag bit turns the flag over and leaves the slot alone.
pub proof fn lemma_toggled(d: u32)
    ensures
        slot_of(d ^ REV) == slot_of(d),
        flagged(d ^ REV) == !flagged(d),
{
    assert((d ^ REV) & ID_MASK == d & ID_MASK) by (bit_vector);
    assert(((d ^ REV) & REV != 0) == (d & REV == 0)) by (bit_vector);
}

/// A bare slot number is a descriptor without a flag.
pub proof fn lemma_plain(d: u32)
    requires
        d <= ID_MASK,
    ensures
        slot_of(d) == d,
        !flagged(d),
{
    assert(d & 0x7fff_ffff == d && d & 0x8000_0000 == 0) by (bit_vector)
        requires
            d <= 0x7fff_ffff,
    ;
}

/// Superblock descriptor flag: the blocks of the superblock stand in the opposite
/// order.
pub const ORD: u32 = 0x4000_0000;

/// Superblock descriptor flag: the elements of every block of the superblock stand
/// in the opposite order.
pub const CONT: u32 = 0x8000_0000;

/// The number bits of a superblock descriptor.
pub const XMASK: u32 = 0x3fff_ffff;

/// The number of the superblock that `d` describes.
pub open spec fn sid_of(d: u32) -> int {
    (d & XMASK) as int
}

/// Whether a superblock descriptor says that the block order is turned.
pub open spec fn order_turned(d: u32) -> bool {
    d & ORD != 0
}

/// Whether a superblock descriptor says that the block contents are turned.
pub open spec fn contents_turned(d: u32) -> bool {
    d & CONT != 0
}

/// The number of the superblock that `d` describes.
pub fn sb_slot(d: u32) -> (id: usize)
    ensures
        id == sid_of(d),
{
    (d & XMASK) as usize
}

/// Whether a superblock descriptor says that the block order is turned.
pub fn is_order_turned(d: u32) -> (f: bool)
    ensures
        f == order_turned(d),
{
    d & ORD != 0
}

/// Whether a superblock descriptor says that the block contents are turned.
pub fn is_contents_turned(d: u32) -> (f: bool)
    ensures
        f == contents_turned(d),
{
    d & CONT != 0
}

/// The superblock descriptor without its flags.
pub fn sb_unflagged(d: u32) -> (p: u32)
    ensures
        sid_of(p) == sid_of(d),
        !order_turned(p),
        !contents_turned(p),
        p as int == sid_of(d),
{
    assert((d & 0x3fff_ffffu32) & 0x3fff_ffffu32 == d & 0x3fff_ffffu32 && (d & 0x3fff_ffffu32)
        & 0x4000_0000u32 == 0 && (d & 0x3fff_ffffu32) & 0x8000_0000u32 == 0) by (bit_vector);
    d & XMASK
}

/// Flipping both flag bits turns both flags over and leaves the number alone.
pub proof fn lemma_sb_toggled(d: u32)
    ensures
        sid_of((d ^ ORD) ^ CONT) == sid_of(d),
        order_turned((d ^ ORD) ^ CONT) == !order_turned(d),
        contents_turned((d ^ ORD) ^ CONT) == !contents_turned(d),
{
    let e = (d ^ ORD) ^ CONT;
    assert(e & 0x3fff_ffffu32 == d & 0x3fff_ffffu32 && (e & 0x4000_0000u32 != 0) == (d & 0x4000_0000u32
        == 0) && (e & 0x8000_0000u32 != 0) == (d & 0x8000_0000u32 == 0)) by (bit_vector)
        requires
            e == (d ^ 0x4000_0000u32) ^ 0x8000_0000u32,
    ;
}

/// A superblock descriptor without flags is the bare number.
pub proof fn lemma_sb_unflagged(d: u32)
    ensures
        !order_turned(d) && !contents_turned(d) ==> d & XMASK == d,
{
    assert(d & 0x4000_0000u32 == 0 && d & 0x8000_0000u32 == 0 ==> d & 0x3fff_ffffu32 == d) by (bit_vector);
}

/// A bare number is a superblock descriptor without flags.
pub proof fn lemma_sb_plain(d: u32)
    requires
        d <= XMASK,
    ensures
        sid_of(d) == d,
        !order_turned(d),
        !contents_turned(d),
{
    assert(d & 0x3fff_ffffu32 == d && d & 0x4000_0000u32 == 0 && d & 0x8000_0000u32 == 0) by (bit_vector)
        requires
            d <= 0x3fff_ffff,
    ;
}

} // verus!
