//! How an occurrence is packed for storage: its definition score, its zone and its count in one
//! byte of flags, and its first line in two bytes.

use vstd::prelude::*;

verus! {

/// The count field of a byte of flags that holds no count: the count is stored elsewhere.
pub const COUNT_OVERFLOW: u8 = 31;

/// The byte that holds the definition score, raised by one, in bits 0 and 1, the zone in bit 2 and
/// the count in bits 3 to 7. A score or a zone that does not fit is taken modulo 4 and 2.
pub open spec fn packed(is_def: int, zone_int: int, count: int) -> int {
    (is_def + 1) % 4 + 4 * (zone_int % 2) + 8 * (if count <= 30 {
        count
    } else {
        31
    })
}

/// Packs a definition score (-1, 0, 1 or 2), a zone (0 or 1) and a count into one byte. A count
/// over 30 is packed as the overflow mark.
pub fn pack_flags(is_def: i32, zone_int: i32, count: u32) -> (r: [u8; 1])
    requires
        is_def < i32::MAX,
    ensures
        r@.len() == 1,
        r@[0] as int == packed(is_def as int, zone_int as int, count as int),
{
    let d: i32 = is_def + 1;
    let is_def_packed: u8 = (d as u8) & 0x03;
    let zone_packed: u8 = (zone_int as u8) & 0x01;
    let count_packed: u8 = if count <= 30 {
        count as u8
    } else {
        COUNT_OVERFLOW
    };
    let f: u8 = is_def_packed | (zone_packed << 2) | (count_packed << 3);
    proof {
        assert((d as u8) & 0x03 == d & 3) by (bit_vector);
        assert((zone_int as u8) & 0x01 == zone_int & 1) by (bit_vector);
        assert(d & 3 == d % 4) by (bit_vector);
        assert(zone_int & 1 == zone_int % 2) by (bit_vector);
        assert(is_def_packed | (zone_packed << 2) | (count_packed << 3) == is_def_packed + 4
            * zone_packed + 8 * count_packed) by (bit_vector)
            requires
                is_def_packed <= 3,
                zone_packed <= 1,
                count_packed <= 31,
        ;
    }
    [f]
}

/// The definition score in a byte of flags.
pub open spec fn score_in(flags: int) -> int {
    flags % 4 - 1
}

/// The zone in a byte of flags.
pub open spec fn zone_in(flags: int) -> int {
    flags / 4 % 2
}

/// The count in a byte of flags, or 31 for the overflow mark.
pub open spec fn count_in(flags: int) -> int {
    flags / 8
}

/// The definition score in a byte of flags.
pub fn unpack_is_def(flags: u8) -> (r: i32)
    ensures
        r == score_in(flags as int),
{
    assert(flags & 0x03 == flags % 4) by (bit_vector);
    ((flags & 0x03) as i32) - 1
}

/// The zone in a byte of flags.
pub fn unpack_zone_int(flags: u8) -> (r: i32)
    ensures
        r == zone_in(flags as int),
{
    assert((flags >> 2) & 0x01 == flags / 4 % 2) by (bit_vector);
    ((flags >> 2) & 0x01) as i32
}

/// The count in a byte of flags, or 31 for the overflow mark.
pub fn unpack_count(flags: u8) -> (r: u32)
    ensures
        r == count_in(flags as int),
{
    assert(flags >> 3 == flags / 8) by (bit_vector);
    (flags >> 3) as u32
}

/// Whether a byte of flags holds the overflow mark in place of a count.
pub fn is_count_overflow(flags: u8) -> (r: bool)
    ensures
        r == (count_in(flags as int) == COUNT_OVERFLOW),
{
    unpack_count(flags) >= COUNT_OVERFLOW as u32
}

/// The low 16 bits of a line number as two bytes, the low byte first.
pub open spec fn packed_line(line: int) -> Seq<u8> {
    seq![(line % 256) as u8, (line / 256 % 256) as u8]
}

/// The line number in the first two bytes of a blob, or 0 where it has fewer.
pub open spec fn line_in(blob: Seq<u8>) -> int {
    if blob.len() >= 2 {
        blob[0] as int + 256 * blob[1] as int
    } else {
        0
    }
}

/// Packs a line number into two bytes, the low byte first. Only its low 16 bits are kept.
pub fn pack_line_nos(line: u32) -> (r: [u8; 2])
    ensures
        r@ == packed_line(line as int),
{
    let low: u8 = (line % 256) as u8;
    let high: u8 = (line / 256 % 256) as u8;
    [low, high]
}

/// The line number in the first two bytes of a blob, or 0 where it has fewer.
pub fn unpack_line_nos(blob: &[u8]) -> (r: u32)
    ensures
        r == line_in(blob@),
{
    if blob.len() >= 2 {
        blob[0] as u32 + 256 * (blob[1] as u32)
    } else {
        0
    }
}

/// What is packed comes out again: the definition score, the zone, and the count or the overflow
/// mark, which stands exactly for the counts over 30.
pub proof fn law_flags_round_trip(is_def: int, zone_int: int, count: int)
    requires
        -1 <= is_def <= 2,
        0 <= zone_int <= 1,
        0 <= count,
    ensures
        ({
            let f = packed(is_def, zone_int, count);
            &&& 0 <= f < 256
            &&& score_in(f) == is_def
            &&& zone_in(f) == zone_int
            &&& count <= 30 ==> count_in(f) == count
            &&& count_in(f) == COUNT_OVERFLOW <==> count > 30
        }),
{
}

/// The byte of flags of an occurrence tells which occurrence it was packed from, up to counts over
/// 30: two that differ in the score, the zone or a count up to 30 have different bytes.
pub proof fn law_flags_injective(a: (int, int, int), b: (int, int, int))
    requires
        -1 <= a.0 <= 2,
        0 <= a.1 <= 1,
        0 <= a.2 <= 31,
        -1 <= b.0 <= 2,
        0 <= b.1 <= 1,
        0 <= b.2 <= 31,
        packed(a.0, a.1, a.2) == packed(b.0, b.1, b.2),
    ensures
        a == b,
{
    law_flags_round_trip(a.0, a.1, a.2);
    law_flags_round_trip(b.0, b.1, b.2);
}

/// A packed line number comes out again, up to the 16 bits that are kept.
pub proof fn law_line_round_trip(line: int)
    requires
        0 <= line,
    ensures
        line_in(packed_line(line)) == line % 65536,
        line < 65536 ==> line_in(packed_line(line)) == line,
{
}

/// Where the parts of a flags byte are: the score, one added to it, in the two lowest bits, the zone
/// in the next one and the count in the five highest.
pub proof fn law_flags_by_bit(f: u8)
    ensures
        score_in(f as int) == (f & 3) - 1,
        zone_in(f as int) == (f >> 2) & 1,
        count_in(f as int) == f >> 3,
{
    assert(f & 3 == f % 4) by (bit_vector);
    assert((f >> 2) & 1 == (f / 4) % 2) by (bit_vector);
    assert(f >> 3 == f / 8) by (bit_vector);
}

/// A count of 30 or less is stored as it is, and a larger one as 31.
pub proof fn law_counts_stored(is_def: int, zone_int: int, count: int)
    requires
        -1 <= is_def <= 2,
        0 <= zone_int <= 1,
        0 <= count,
    ensures
        count <= 30 ==> count_in(packed(is_def, zone_int, count)) == count,
        count > 30 ==> count_in(packed(is_def, zone_int, count)) == 31,
        0 <= packed(is_def, zone_int, count) < 256,
{
}

/// A line number is two bytes, the less significant one first; fewer are none.
pub proof fn law_line_bytes(blob: Seq<u8>)
    ensures
        blob.len() >= 2 ==> line_in(blob) == 256 * blob[1] + blob[0],
        blob.len() < 2 ==> line_in(blob) == 0,
{
}

/// Of a score the two lowest bits are stored, one added to it, and of a zone the lowest.
pub proof fn law_flags_wrap(is_def: int, zone_int: int, count: int)
    ensures
        packed(is_def + 4, zone_int, count) == packed(is_def, zone_int, count),
        packed(is_def, zone_int + 2, count) == packed(is_def, zone_int, count),
{
}

} // verus!
