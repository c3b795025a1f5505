//! Fixed-offset decoding of NMEA 0183 GGA sentences held in a 1024-byte
//! circular receive buffer.
use vstd::prelude::*;

verus! {

/// Number of bytes in the circular receive buffer (a power of two).
pub const CAPACITY: usize = 1024;

/// Position in the circular buffer `offset` bytes after `sentence_begin`.
pub open spec fn ring_pos(sentence_begin: int, offset: int) -> int {
    (sentence_begin + offset) % (CAPACITY as int)
}

/// Reduces `sentence_begin + offset` modulo the capacity with a bit mask.
fn ring_index(sentence_begin: usize, offset: usize) -> (r: usize)
    requires
        offset < CAPACITY,
    ensures
        r as int == ring_pos(sentence_begin as int, offset as int),
{
    let base: usize = sentence_begin & 1023;
    assert(sentence_begin & 1023 == sentence_begin % 1024) by (bit_vector);
    let sum: usize = base + offset;
    let r: usize = sum & 1023;
    assert(sum & 1023 == sum % 1024) by (bit_vector);
    proof {
        vstd::arithmetic::div_mod::lemma_add_mod_noop(sentence_begin as int, offset as int, 1024);
    }
    r
}

/// ASCII `,`.
pub const COMMA: u8 = 44;

/// ASCII `.`.
pub const DOT: u8 = 46;

/// ASCII `0`.
pub const DIGIT_ZERO: u8 = 48;

/// ASCII `9`.
pub const DIGIT_NINE: u8 = 57;

/// ASCII `A`.
pub const LETTER_A: u8 = 65;

/// ASCII `E`.
pub const LETTER_E: u8 = 69;

/// ASCII `G`.
pub const LETTER_G: u8 = 71;

/// ASCII `N`.
pub const LETTER_N: u8 = 78;

/// Offset of the first byte of the UTC time field.
pub const TIME_OFFSET: usize = 7;

/// Offset of the first latitude digit (`DDMM.MMMMM`).
pub const LATITUDE_OFFSET: usize = 18;

/// Offset of the latitude hemisphere character.
pub const LATITUDE_HEMISPHERE_OFFSET: usize = 29;

/// Offset of the first longitude digit (`DDDMM.MMMMM`).
pub const LONGITUDE_OFFSET: usize = 31;

/// Offset of the longitude hemisphere character.
pub const LONGITUDE_HEMISPHERE_OFFSET: usize = 43;

/// Offset of the first HDOP digit.
pub const HDOP_OFFSET: usize = 50;

/// Byte `offset` positions after `sentence_begin` in the circular buffer.
pub open spec fn byte_at(buf: Seq<u8>, sentence_begin: int, offset: int) -> u8 {
    buf[ring_pos(sentence_begin, offset)]
}

/// `b` is an ASCII decimal digit.
pub open spec fn is_digit(b: u8) -> bool {
    DIGIT_ZERO <= b <= DIGIT_NINE
}

/// Numeric value of the ASCII digit `b`.
pub open spec fn digit_value(b: u8) -> int {
    b - DIGIT_ZERO
}

/// Offset of the `j`-th digit of a field that starts at `start` and whose
/// decimal point follows its first `int_digits` digits.
pub open spec fn digit_offset(start: int, int_digits: int, j: int) -> int {
    if j < int_digits {
        start + j
    } else {
        start + j + 1
    }
}

/// The first `n` digits of a field read as one decimal integer, the decimal
/// point left out.
pub open spec fn field_value(buf: Seq<u8>, sentence_begin: int, start: int, int_digits: int, n: nat) -> int
    decreases n,
{
    if n == 0 {
        0
    } else {
        field_value(buf, sentence_begin, start, int_digits, (n - 1) as nat) * 10 + digit_value(
            byte_at(buf, sentence_begin, digit_offset(start, int_digits, n - 1)),
        )
    }
}

/// The first `n` digit positions of a field hold ASCII digits.
pub open spec fn field_is_numeric(buf: Seq<u8>, sentence_begin: int, start: int, int_digits: int, n: nat) -> bool {
    forall|j: int|
        0 <= j < n ==> #[trigger] is_digit(byte_at(buf, sentence_begin, digit_offset(start, int_digits, j)))
}

/// Latitude digits `DDMM.MMMMM` followed by a zero, as a 10-digit integer
/// (the same scale as the longitude).
pub open spec fn latitude(buf: Seq<u8>, sentence_begin: int) -> int {
    field_value(buf, sentence_begin, LATITUDE_OFFSET as int, 4, 9) * 10
}

/// Longitude digits `DDDMM.MMMMM` as a 10-digit integer.
pub open spec fn longitude(buf: Seq<u8>, sentence_begin: int) -> int {
    field_value(buf, sentence_begin, LONGITUDE_OFFSET as int, 5, 10)
}

/// Whether the HDOP integer part is a single digit (a `.` right after it).
pub open spec fn hdop_single_digit(buf: Seq<u8>, sentence_begin: int) -> bool {
    byte_at(buf, sentence_begin, HDOP_OFFSET + 1) == DOT
}

/// HDOP times ten: the integer part and the first fractional digit.
pub open spec fn hdop_tenths(buf: Seq<u8>, sentence_begin: int) -> int {
    let d = |k: int| digit_value(byte_at(buf, sentence_begin, HDOP_OFFSET + k));
    if hdop_single_digit(buf, sentence_begin) {
        d(0) * 10 + d(2)
    } else {
        d(0) * 100 + d(1) * 10 + d(3)
    }
}

/// The HDOP byte of the record: tenths saturated at 255.
pub open spec fn hdop_byte(buf: Seq<u8>, sentence_begin: int) -> u8 {
    let t = hdop_tenths(buf, sentence_begin);
    if t > 255 {
        255
    } else {
        t as u8
    }
}

/// Bit 1 set for a northern latitude, bit 0 for an eastern longitude.
pub open spec fn hemisphere_flags(buf: Seq<u8>, sentence_begin: int) -> u8 {
    let north: u8 = if byte_at(buf, sentence_begin, LATITUDE_HEMISPHERE_OFFSET as int) == LETTER_N {
        2
    } else {
        0
    };
    let east: u8 = if byte_at(buf, sentence_begin, LONGITUDE_HEMISPHERE_OFFSET as int) == LETTER_E {
        1
    } else {
        0
    };
    (north + east) as u8
}

/// A fix is reported when neither the time nor the latitude field is empty.
pub open spec fn has_fix(buf: Seq<u8>, sentence_begin: int) -> bool {
    byte_at(buf, sentence_begin, TIME_OFFSET as int) != COMMA && byte_at(
        buf,
        sentence_begin,
        LATITUDE_OFFSET as int,
    ) != COMMA
}

/// The HDOP digits that the decoder reads are ASCII digits.
pub open spec fn hdop_is_numeric(buf: Seq<u8>, sentence_begin: int) -> bool {
    let d = |k: int| is_digit(byte_at(buf, sentence_begin, HDOP_OFFSET + k));
    d(0) && if hdop_single_digit(buf, sentence_begin) {
        d(2)
    } else {
        d(1) && d(3)
    }
}

/// What the decoder needs of a sentence that reports a fix: the position
/// and HDOP digits that it reads are ASCII digits.
pub open spec fn fix_well_formed(buf: Seq<u8>, sentence_begin: int) -> bool {
    &&& field_is_numeric(buf, sentence_begin, LATITUDE_OFFSET as int, 4, 9)
    &&& field_is_numeric(buf, sentence_begin, LONGITUDE_OFFSET as int, 5, 10)
    &&& hdop_is_numeric(buf, sentence_begin)
}

/// `v` reduced to 32 bits, as unsigned 32-bit arithmetic wraps.
pub open spec fn wrap_u32(v: int) -> u32 {
    (v % 0x1_0000_0000) as u32
}

/// Big-endian bytes of `v`.
pub open spec fn be_bytes(v: u32) -> Seq<u8> {
    seq![(v / 0x1000000) as u8, (v / 0x10000 % 0x100) as u8, (v / 0x100 % 0x100) as u8, (v % 0x100) as u8]
}

/// The 10-byte position record of a sentence that reports a fix.
pub open spec fn position_record(buf: Seq<u8>, sentence_begin: int) -> Seq<u8> {
    be_bytes(wrap_u32(latitude(buf, sentence_begin))) + be_bytes(wrap_u32(longitude(buf, sentence_begin)))
        + seq![hemisphere_flags(buf, sentence_begin), hdop_byte(buf, sentence_begin)]
}

/// Each hemisphere character decides one bit of the flags byte alone: bit 1
/// is set exactly for a northern latitude, bit 0 exactly for an eastern
/// longitude, and no other bit is ever set.
pub proof fn lemma_hemisphere_bits(buf: Seq<u8>, sentence_begin: int)
    ensures
        (hemisphere_flags(buf, sentence_begin) & 2 == 2) == (byte_at(
            buf,
            sentence_begin,
            LATITUDE_HEMISPHERE_OFFSET as int,
        ) == LETTER_N),
        (hemisphere_flags(buf, sentence_begin) & 1 == 1) == (byte_at(
            buf,
            sentence_begin,
            LONGITUDE_HEMISPHERE_OFFSET as int,
        ) == LETTER_E),
        hemisphere_flags(buf, sentence_begin) & 0xfc == 0,
{
    let f = hemisphere_flags(buf, sentence_begin);
    assert(f == 0 || f == 1 || f == 2 || f == 3);
    assert(f == 0 || f == 1 || f == 2 || f == 3 ==> (f & 2 == 2) == (f >= 2) && (f & 1 == 1) == (f
        == 1 || f == 3) && f & 0xfc == 0) by (bit_vector);
}

/// Reads `n` digits of a field as one decimal integer, in wrapping 32-bit
/// arithmetic.
fn read_field(buffer: &[u8; 1024], sentence_begin: usize, start: usize, int_digits: usize, n: usize) -> (r: u32)
    requires
        start + n < CAPACITY,
        field_is_numeric(buffer@, sentence_begin as int, start as int, int_digits as int, n as nat),
    ensures
        r == wrap_u32(field_value(buffer@, sentence_begin as int, start as int, int_digits as int, n as nat)),
{
    let mut v: u32 = 0;
    let mut j: usize = 0;
    while j < n
        invariant
            j <= n,
            start + n < CAPACITY,
            field_is_numeric(buffer@, sentence_begin as int, start as int, int_digits as int, n as nat),
            v == wrap_u32(field_value(buffer@, sentence_begin as int, start as int, int_digits as int, j as nat)),
        decreases n - j,
    {
        let k: usize = if j < int_digits {
            start + j
        } else {
            start + j + 1
        };
        let b: u8 = buffer[ring_index(sentence_begin, k)];
        assert(is_digit(byte_at(buffer@, sentence_begin as int, digit_offset(start as int, int_digits as int, j as int))));
        let d: u32 = (b - DIGIT_ZERO) as u32;
        proof {
            let prev = field_value(buffer@, sentence_begin as int, start as int, int_digits as int, j as nat);
            vstd::arithmetic::div_mod::lemma_mul_mod_noop_left(prev, 10, 0x1_0000_0000);
            vstd::arithmetic::div_mod::lemma_add_mod_noop(prev * 10, d as int, 0x1_0000_0000);
            vstd::arithmetic::div_mod::lemma_small_mod(d as nat, 0x1_0000_0000);
        }
        v = v.wrapping_mul(10).wrapping_add(d);
        j = j + 1;
    }
    v
}

/// Big-endian bytes of `v` into `block[at..at + 4]`.
fn write_be(block: &mut [u8; 10], at: usize, v: u32)
    requires
        at + 4 <= 10,
    ensures
        final(block)@ == old(block)@.subrange(0, at as int) + be_bytes(v) + old(block)@.subrange(
            at + 4,
            10,
        ),
{
    block[at] = (v / 0x1000000) as u8;
    block[at + 1] = (v / 0x10000 % 0x100) as u8;
    block[at + 2] = (v / 0x100 % 0x100) as u8;
    block[at + 3] = (v % 0x100) as u8;
    assert(block@ =~= old(block)@.subrange(0, at as int) + be_bytes(v) + old(block)@.subrange(
        at + 4,
        10,
    ));
}

/// Decodes the position of a GGA sentence that starts at `sentence_begin`.
///
/// Returns `false`, leaving `position_block` untouched, when the time or the
/// latitude field is empty. Otherwise writes latitude and longitude digits
/// (big-endian), hemisphere flags and HDOP in tenths, and returns `true`.
pub fn extract_gga(buffer: &[u8; 1024], sentence_begin: usize, position_block: &mut [u8; 10]) -> (r: bool)
    requires
        has_fix(buffer@, sentence_begin as int) ==> fix_well_formed(buffer@, sentence_begin as int),
    ensures
        r == has_fix(buffer@, sentence_begin as int),
        r ==> final(position_block)@ == position_record(buffer@, sentence_begin as int),
        !r ==> *final(position_block) == *old(position_block),
{
    if buffer[ring_index(sentence_begin, TIME_OFFSET)] == COMMA {
        return false;
    }
    if buffer[ring_index(sentence_begin, LATITUDE_OFFSET)] == COMMA {
        return false;
    }
    let ghost buf = buffer@;
    let ghost sb = sentence_begin as int;
    let lat_digits: u32 = read_field(buffer, sentence_begin, LATITUDE_OFFSET, 4, 9);
    let lat: u32 = lat_digits.wrapping_mul(10);
    proof {
        vstd::arithmetic::div_mod::lemma_mul_mod_noop_left(
            field_value(buf, sb, LATITUDE_OFFSET as int, 4, 9),
            10,
            0x1_0000_0000,
        );
    }
    let lon: u32 = read_field(buffer, sentence_begin, LONGITUDE_OFFSET, 5, 10);

    let north: u8 = if buffer[ring_index(sentence_begin, LATITUDE_HEMISPHERE_OFFSET)] == LETTER_N {
        2
    } else {
        0
    };
    let east: u8 = if buffer[ring_index(sentence_begin, LONGITUDE_HEMISPHERE_OFFSET)] == LETTER_E {
        1
    } else {
        0
    };

    let d0: u8 = buffer[ring_index(sentence_begin, HDOP_OFFSET)] - DIGIT_ZERO;
    let hdop: u8 = if buffer[ring_index(sentence_begin, HDOP_OFFSET + 1)] == DOT {
        let d1: u8 = buffer[ring_index(sentence_begin, HDOP_OFFSET + 2)] - DIGIT_ZERO;
        d0 * 10 + d1
    } else {
        let d1: u8 = buffer[ring_index(sentence_begin, HDOP_OFFSET + 1)] - DIGIT_ZERO;
        let d2: u8 = buffer[ring_index(sentence_begin, HDOP_OFFSET + 3)] - DIGIT_ZERO;
        let tenths: u16 = d0 as u16 * 100 + d1 as u16 * 10 + d2 as u16;
        if tenths > 255 {
            255
        } else {
            tenths as u8
        }
    };

    write_be(position_block, 0, lat);
    write_be(position_block, 4, lon);
    position_block[8] = north | east;
    assert(north | east == north + east) by (bit_vector)
        requires
            north == 0 || north == 2,
            east == 0 || east == 1,
    ;
    position_block[9] = hdop;
    assert(position_block@ =~= position_record(buf, sb));
    true
}

/// The sentence type at `sentence_begin` (its 4th to 6th bytes) reads `GGA`.
pub open spec fn is_gga_at(buf: Seq<u8>, sentence_begin: int) -> bool {
    &&& byte_at(buf, sentence_begin, 3) == LETTER_G
    &&& byte_at(buf, sentence_begin, 4) == LETTER_G
    &&& byte_at(buf, sentence_begin, 5) == LETTER_A
}

/// Whether the sentence starting at `sentence_begin` is a GGA sentence.
/// Neither the `$` nor the talker id is checked.
pub fn is_gga(buffer: &[u8; 1024], sentence_begin: usize) -> (r: bool)
    ensures
        r == is_gga_at(buffer@, sentence_begin as int),
{
    buffer[ring_index(sentence_begin, 3)] == LETTER_G && buffer[ring_index(sentence_begin, 4)]
        == LETTER_G && buffer[ring_index(sentence_begin, 5)] == LETTER_A
}

/// `sentence` lies in the circular buffer starting at index `start`.
pub open spec fn holds_sentence(buf: Seq<u8>, start: int, sentence: Seq<u8>) -> bool {
    &&& buf.len() == CAPACITY
    &&& sentence.len() <= CAPACITY
    &&& forall|k: int| 0 <= k < sentence.len() ==> #[trigger] byte_at(buf, start, k) == sentence[k]
}

/// The sentence type of `sentence` is `GGA`.
pub open spec fn sentence_is_gga(sentence: Seq<u8>) -> bool {
    &&& sentence.len() >= 6
    &&& sentence[3] == LETTER_G
    &&& sentence[4] == LETTER_G
    &&& sentence[5] == LETTER_A
}

proof fn lemma_shifted_byte(buf: Seq<u8>, start: int, shift: int, offset: int)
    ensures
        byte_at(buf, ring_pos(start, shift), offset) == byte_at(buf, start, shift + offset),
{
    vstd::arithmetic::div_mod::lemma_add_mod_noop(start + shift, offset, CAPACITY as int);
    vstd::arithmetic::div_mod::lemma_mod_twice(offset, CAPACITY as int);
    assert(ring_pos(start, shift + offset) == ring_pos(ring_pos(start, shift), offset)) by {
        vstd::arithmetic::div_mod::lemma_add_mod_noop(
            ring_pos(start, shift),
            offset,
            CAPACITY as int,
        );
        vstd::arithmetic::div_mod::lemma_mod_twice(start + shift, CAPACITY as int);
        vstd::arithmetic::div_mod::lemma_add_mod_noop(start + shift, offset, CAPACITY as int);
    }
}

/// Classification does not depend on where in the circular buffer a sentence
/// was written: written at any index `r`, it is classified as when written at
/// index 0. A GGA sentence is not recognised one byte before or after its start.
pub proof fn lemma_is_gga_rotation_invariant(
    buf: Seq<u8>,
    r: int,
    buf_at_zero: Seq<u8>,
    sentence: Seq<u8>,
)
    requires
        0 <= r < CAPACITY,
        sentence.len() >= 6,
        holds_sentence(buf, r, sentence),
        holds_sentence(buf_at_zero, 0, sentence),
    ensures
        is_gga_at(buf, r) == is_gga_at(buf_at_zero, 0),
        is_gga_at(buf, r) == sentence_is_gga(sentence),
        sentence_is_gga(sentence) ==> !is_gga_at(buf, ring_pos(r, CAPACITY - 1)),
        sentence_is_gga(sentence) ==> !is_gga_at(buf, ring_pos(r, 1)),
{
    assert(byte_at(buf, r, 3) == sentence[3]);
    assert(byte_at(buf, r, 4) == sentence[4]);
    assert(byte_at(buf, r, 5) == sentence[5]);
    assert(byte_at(buf_at_zero, 0, 3) == sentence[3]);
    assert(byte_at(buf_at_zero, 0, 4) == sentence[4]);
    assert(byte_at(buf_at_zero, 0, 5) == sentence[5]);
    if sentence_is_gga(sentence) {
        lemma_shifted_byte(buf, r, CAPACITY - 1, 5);
        assert(byte_at(buf, r, CAPACITY + 4) == byte_at(buf, r, 4)) by {
            vstd::arithmetic::div_mod::lemma_mod_add_multiples_vanish(r + 4, CAPACITY as int);
        }
        lemma_shifted_byte(buf, r, 1, 4);
    }
}

/// Write cursor of the ingestion path given its remaining-transfer counter.
pub open spec fn write_cursor(remaining: int) -> int {
    (CAPACITY - remaining) % (CAPACITY as int)
}

/// Forward distance around the ring from `from` to `to`; a full lap when the
/// two coincide.
pub open spec fn forward_distance(from: int, to: int) -> int {
    let d = (to - from) % (CAPACITY as int);
    if d == 0 {
        CAPACITY as int
    } else {
        d
    }
}

/// Length of the sentence that runs from `sentence_begin` up to the write cursor.
pub open spec fn sentence_length(remaining: int, sentence_begin: int) -> int {
    forward_distance(sentence_begin, write_cursor(remaining))
}

/// Number of bytes from `sentence_begin` up to the write cursor that the
/// remaining-transfer counter `ndtr` implies, across the wrap-around.
pub fn calculate_sentence_length(ndtr: u16, sentence_begin: usize) -> (r: usize)
    requires
        sentence_begin < CAPACITY,
        ndtr <= CAPACITY,
    ensures
        r == sentence_length(ndtr as int, sentence_begin as int),
        1 <= r <= CAPACITY,
{
    let ndtr: usize = ndtr as usize;
    if sentence_begin + ndtr < CAPACITY {
        CAPACITY - ndtr - sentence_begin
    } else {
        (CAPACITY - sentence_begin) + (CAPACITY - ndtr)
    }
}

/// Counting a sentence of `len` bytes down from the counter and measuring it
/// from `sentence_begin` gives back `len`, across the wrap-around too; the
/// next sentence then starts where the write cursor stands.
pub proof fn lemma_sentence_length_round_trip(remaining: int, sentence_begin: int, len: int)
    requires
        0 <= sentence_begin < CAPACITY,
        0 <= remaining <= CAPACITY,
        ring_pos(sentence_begin, remaining) == 0,
        1 <= len <= CAPACITY,
    ensures
        ({
            let next_remaining = (remaining - len) % (CAPACITY as int);
            &&& sentence_length(next_remaining, sentence_begin) == len
            &&& ring_pos(ring_pos(sentence_begin, len), next_remaining) == 0
        }),
{
    let next_remaining = (remaining - len) % (CAPACITY as int);
}

} // verus!
