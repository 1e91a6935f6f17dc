//! The primitive codec: fixed-width integers in either byte order, shifts and
//! masks on little-endian bit runs, and text in UTF-8 and UTF-16.
//!
//! Floating-point samples are carried as their IEEE 754 bit patterns, in the
//! unsigned integer of the same width.

use vstd::prelude::*;
use vstd::arithmetic::power2::{lemma2_to64, pow2};
use vstd::slice::slice_to_vec;
use vstd::utf8::{decode_utf8, encode_utf8, valid_utf8};
use byteorder::{BigEndian, ByteOrder, LittleEndian};

verus! {

// ---------------------------------------------------------------------------
// What a run of bytes means as a number
// ---------------------------------------------------------------------------

/// The number that `b` holds with its first byte least significant.
pub open spec fn le_value(b: Seq<u8>) -> nat
    decreases b.len(),
{
    if b.len() == 0 {
        0
    } else {
        b[0] as nat + 256 * le_value(b.drop_first())
    }
}

/// The number that `b` holds with its first byte most significant.
pub open spec fn be_value(b: Seq<u8>) -> nat
    decreases b.len(),
{
    if b.len() == 0 {
        0
    } else {
        256 * be_value(b.drop_last()) + b.last() as nat
    }
}

/// The first two bytes of `b`, little-endian.
pub open spec fn le_u16(b: Seq<u8>) -> int {
    b[0] as int + 0x100 * (b[1] as int)
}

/// The first four bytes of `b`, little-endian.
pub open spec fn le_u32(b: Seq<u8>) -> int {
    le_u16(b) + 0x1_0000 * le_u16(b.subrange(2, 4))
}

/// The first eight bytes of `b`, little-endian.
pub open spec fn le_u64(b: Seq<u8>) -> int {
    le_u32(b) + 0x1_0000_0000 * le_u32(b.subrange(4, 8))
}

/// The first two bytes of `b`, big-endian.
pub open spec fn be_u16(b: Seq<u8>) -> int {
    0x100 * (b[0] as int) + b[1] as int
}

/// The first four bytes of `b`, big-endian.
pub open spec fn be_u32(b: Seq<u8>) -> int {
    0x1_0000 * be_u16(b) + be_u16(b.subrange(2, 4))
}

/// The first eight bytes of `b`, big-endian.
pub open spec fn be_u64(b: Seq<u8>) -> int {
    0x1_0000_0000 * be_u32(b) + be_u32(b.subrange(4, 8))
}

/// An 8-bit pattern read as a two's complement number.
pub open spec fn signed8(n: int) -> int {
    if n >= 0x80 {
        n - 0x100
    } else {
        n
    }
}

/// A 16-bit pattern read as a two's complement number.
pub open spec fn signed16(n: int) -> int {
    if n >= 0x8000 {
        n - 0x1_0000
    } else {
        n
    }
}

/// A 32-bit pattern read as a two's complement number.
pub open spec fn signed32(n: int) -> int {
    if n >= 0x8000_0000 {
        n - 0x1_0000_0000
    } else {
        n
    }
}

/// A 64-bit pattern read as a two's complement number.
pub open spec fn signed64(n: int) -> int {
    if n >= 0x8000_0000_0000_0000 {
        n - 0x1_0000_0000_0000_0000
    } else {
        n
    }
}

// ---------------------------------------------------------------------------
// The byte-order decoders of the `byteorder` crate
// ---------------------------------------------------------------------------

/// `byteorder::LittleEndian::read_u16`: the first two bytes, least
/// significant first. The crate panics on a shorter buffer.
#[verifier::external_body]
pub(crate) fn read_u16_le(buf: &[u8]) -> (r: u16)
    requires
        buf@.len() >= 2,
    ensures
        r as int == le_u16(buf@),
{
    LittleEndian::read_u16(buf)
}

/// `byteorder::LittleEndian::read_u32`: the first four bytes, least
/// significant first. The crate panics on a shorter buffer.
#[verifier::external_body]
pub(crate) fn read_u32_le(buf: &[u8]) -> (r: u32)
    requires
        buf@.len() >= 4,
    ensures
        r as int == le_u32(buf@),
{
    LittleEndian::read_u32(buf)
}

/// `byteorder::LittleEndian::read_u64`: the first eight bytes, least
/// significant first. The crate panics on a shorter buffer.
#[verifier::external_body]
pub(crate) fn read_u64_le(buf: &[u8]) -> (r: u64)
    requires
        buf@.len() >= 8,
    ensures
        r as int == le_u64(buf@),
{
    LittleEndian::read_u64(buf)
}

/// `byteorder::LittleEndian::read_i16`: `read_u16` read as two's complement.
#[verifier::external_body]
pub(crate) fn read_i16_le(buf: &[u8]) -> (r: i16)
    requires
        buf@.len() >= 2,
    ensures
        r as int == signed16(le_u16(buf@)),
{
    LittleEndian::read_i16(buf)
}

/// `byteorder::LittleEndian::read_i32`: `read_u32` read as two's complement.
#[verifier::external_body]
pub(crate) fn read_i32_le(buf: &[u8]) -> (r: i32)
    requires
        buf@.len() >= 4,
    ensures
        r as int == signed32(le_u32(buf@)),
{
    LittleEndian::read_i32(buf)
}

/// `byteorder::LittleEndian::read_i64`: `read_u64` read as two's complement.
#[verifier::external_body]
pub(crate) fn read_i64_le(buf: &[u8]) -> (r: i64)
    requires
        buf@.len() >= 8,
    ensures
        r as int == signed64(le_u64(buf@)),
{
    LittleEndian::read_i64(buf)
}

/// `byteorder::BigEndian::read_u16`: the first two bytes, most significant
/// first. The crate panics on a shorter buffer.
#[verifier::external_body]
pub(crate) fn read_u16_be(buf: &[u8]) -> (r: u16)
    requires
        buf@.len() >= 2,
    ensures
        r as int == be_u16(buf@),
{
    BigEndian::read_u16(buf)
}

/// `byteorder::BigEndian::read_u32`: the first four bytes, most significant
/// first. The crate panics on a shorter buffer.
#[verifier::external_body]
pub(crate) fn read_u32_be(buf: &[u8]) -> (r: u32)
    requires
        buf@.len() >= 4,
    ensures
        r as int == be_u32(buf@),
{
    BigEndian::read_u32(buf)
}

/// `byteorder::BigEndian::read_u64`: the first eight bytes, most significant
/// first. The crate panics on a shorter buffer.
#[verifier::external_body]
pub(crate) fn read_u64_be(buf: &[u8]) -> (r: u64)
    requires
        buf@.len() >= 8,
    ensures
        r as int == be_u64(buf@),
{
    BigEndian::read_u64(buf)
}

/// `byteorder::BigEndian::read_i16`: `read_u16` read as two's complement.
#[verifier::external_body]
pub(crate) fn read_i16_be(buf: &[u8]) -> (r: i16)
    requires
        buf@.len() >= 2,
    ensures
        r as int == signed16(be_u16(buf@)),
{
    BigEndian::read_i16(buf)
}

/// `byteorder::BigEndian::read_i32`: `read_u32` read as two's complement.
#[verifier::external_body]
pub(crate) fn read_i32_be(buf: &[u8]) -> (r: i32)
    requires
        buf@.len() >= 4,
    ensures
        r as int == signed32(be_u32(buf@)),
{
    BigEndian::read_i32(buf)
}

/// `byteorder::BigEndian::read_i64`: `read_u64` read as two's complement.
#[verifier::external_body]
pub(crate) fn read_i64_be(buf: &[u8]) -> (r: i64)
    requires
        buf@.len() >= 8,
    ensures
        r as int == signed64(be_u64(buf@)),
{
    BigEndian::read_i64(buf)
}

// ---------------------------------------------------------------------------
// Text
// ---------------------------------------------------------------------------

/// The text that `String::from_utf16_lossy` makes of a run of UTF-16 code
/// units, unpaired surrogates replaced.
pub uninterp spec fn utf16_lossy_text(units: Seq<u16>) -> Seq<char>;

/// `s` without the characters `c` at its end. Those inside the text stay.
pub open spec fn trim_end(s: Seq<char>, c: char) -> Seq<char>
    decreases s.len(),
{
    if s.len() > 0 && s.last() == c {
        trim_end(s.drop_last(), c)
    } else {
        s
    }
}

/// `s` without the NUL characters at its end. NULs inside the text stay.
pub open spec fn trim_nul(s: Seq<char>) -> Seq<char> {
    trim_end(s, '\0')
}

/// The text of `buf` where it is valid UTF-8, else `fallback`.
pub open spec fn utf8_or(buf: Seq<u8>, fallback: Seq<char>) -> Seq<char> {
    if valid_utf8(buf) {
        decode_utf8(buf)
    } else {
        fallback
    }
}

/// The 16-bit units that `b` holds in pairs of bytes, low byte first.
pub open spec fn le_units(b: Seq<u8>) -> Seq<u16> {
    Seq::new((b.len() / 2) as nat, |i: int| le_u16(b.subrange(2 * i, 2 * i + 2)) as u16)
}

/// The 16-bit units that `b` holds in pairs of bytes, high byte first.
pub open spec fn be_units(b: Seq<u8>) -> Seq<u16> {
    Seq::new((b.len() / 2) as nat, |i: int| be_u16(b.subrange(2 * i, 2 * i + 2)) as u16)
}

/// `String::from_utf8`: the text, where the bytes are valid UTF-8.
#[verifier::external_body]
pub(crate) fn string_from_utf8(bytes: Vec<u8>) -> (r: Option<String>)
    ensures
        r is Some <==> valid_utf8(bytes@),
        r is Some ==> r->0@ == decode_utf8(bytes@),
{
    String::from_utf8(bytes).ok()
}

/// `String::from_utf16_lossy`: its result is named, not described.
#[verifier::external_body]
pub(crate) fn string_from_utf16_lossy(units: &[u16]) -> (s: String)
    ensures
        s@ == utf16_lossy_text(units@),
{
    String::from_utf16_lossy(units)
}

/// `str::trim_end_matches` with one character as the pattern: the text
/// without the run of that character at its end.
#[verifier::external_body]
pub(crate) fn trim_end_char(s: &str, c: char) -> (r: String)
    ensures
        r@ == trim_end(s@, c),
{
    s.trim_end_matches(c).to_string()
}

/// The text without the NUL characters at its end.
pub fn trim_end_nul(s: &str) -> (r: String)
    ensures
        r@ == trim_nul(s@),
{
    trim_end_char(s, '\0')
}

/// `str::eq`: whether two texts hold the same characters.
#[verifier::external_body]
pub(crate) fn str_eq(a: &str, b: &str) -> (r: bool)
    ensures
        r == (a@ == b@),
{
    a == b
}

/// The text that `str::to_uppercase` makes of a text.
pub uninterp spec fn uppercase_text(s: Seq<char>) -> Seq<char>;

/// The text that `str::to_lowercase` makes of a text.
pub uninterp spec fn lowercase_text(s: Seq<char>) -> Seq<char>;

/// `str::to_uppercase`: its result is named, not described.
#[verifier::external_body]
pub(crate) fn str_to_uppercase(s: &str) -> (r: String)
    ensures
        r@ == uppercase_text(s@),
{
    s.to_uppercase()
}

/// `str::to_lowercase`: its result is named, not described.
#[verifier::external_body]
pub(crate) fn str_to_lowercase(s: &str) -> (r: String)
    ensures
        r@ == lowercase_text(s@),
{
    s.to_lowercase()
}

/// `String::push_str`: the text grows by `t` at its end.
#[verifier::external_body]
pub(crate) fn string_push_str(s: &mut String, t: &str)
    ensures
        final(s)@ == old(s)@ + t@,
{
    s.push_str(t);
}

/// The character of the decimal digit `d`.
pub open spec fn digit_char(d: nat) -> char {
    if d == 0 {
        '0'
    } else if d == 1 {
        '1'
    } else if d == 2 {
        '2'
    } else if d == 3 {
        '3'
    } else if d == 4 {
        '4'
    } else if d == 5 {
        '5'
    } else if d == 6 {
        '6'
    } else if d == 7 {
        '7'
    } else if d == 8 {
        '8'
    } else {
        '9'
    }
}

/// The number `n` written in decimal digits, without leading zeros.
pub open spec fn dec_text(n: nat) -> Seq<char>
    decreases n,
{
    if n < 10 {
        seq![digit_char(n)]
    } else {
        dec_text(n / 10).push(digit_char(n % 10))
    }
}

/// `usize::to_string`: the number in decimal digits.
#[verifier::external_body]
pub(crate) fn usize_to_string(n: usize) -> (s: String)
    ensures
        s@ == dec_text(n as nat),
{
    n.to_string()
}

/// The text that `str::trim` makes of a text: the text without the white
/// space at its ends.
pub uninterp spec fn trimmed_text(s: Seq<char>) -> Seq<char>;

/// `str::trim`: its result is named, not described.
#[verifier::external_body]
pub(crate) fn str_trim(s: &str) -> (r: String)
    ensures
        r@ == trimmed_text(s@),
{
    s.trim().to_string()
}

/// Text decoded from UTF-16.
pub struct UTF16String {
    pub inner: String,
}

// ---------------------------------------------------------------------------
// Shifts and masks on little-endian bit runs
// ---------------------------------------------------------------------------

/// One byte of a run shifted right by `s` bits: the high bits of `lo`, and in
/// the places they leave free the low bits of the next byte `hi`.
pub open spec fn shr_byte(lo: u8, hi: u8, s: u8) -> u8 {
    (lo >> s) | (hi << ((8 - s) as u8))
}

/// One byte of a run shifted left by `s` bits: the low bits of `hi`, and in
/// the places they leave free the high bits of the byte before, `lo`.
pub open spec fn shl_byte(lo: u8, hi: u8, s: u8) -> u8 {
    (hi << s) | (lo >> ((8 - s) as u8))
}

/// The little-endian run `b` shifted right by `s` bits, zeros entering at
/// the top of the last byte.
pub open spec fn right_shifted(b: Seq<u8>, s: u8) -> Seq<u8> {
    Seq::new(
        b.len(),
        |i: int|
            shr_byte(
                b[i],
                if i + 1 < b.len() {
                    b[i + 1]
                } else {
                    0u8
                },
                s,
            ),
    )
}

/// The little-endian run `b` shifted left by `s` bits, zeros entering at the
/// bottom of the first byte and the top `s` bits of the last byte lost.
pub open spec fn left_shifted(b: Seq<u8>, s: u8) -> Seq<u8> {
    Seq::new(
        b.len(),
        |i: int|
            shl_byte(
                if i >= 1 {
                    b[i - 1]
                } else {
                    0u8
                },
                b[i],
                s,
            ),
    )
}

/// The byte with its lowest `k` bits set, for `k` below 8.
pub open spec fn low_mask(k: u32) -> u8 {
    ((1u8 << k) - 1) as u8
}

/// The little-endian run `b` with every bit from position `bits` upward
/// cleared.
pub open spec fn masked(b: Seq<u8>, bits: u32) -> Seq<u8> {
    Seq::new(
        b.len(),
        |i: int|
            if i < (bits / 8) as int {
                b[i]
            } else if i == (bits / 8) as int {
                b[i] & low_mask(bits % 8)
            } else {
                0u8
            },
    )
}

/// Whether the run holds no set bit at position `bits` or above.
pub open spec fn fits_bits(b: Seq<u8>, bits: u32) -> bool {
    masked(b, bits) == b
}

/// Shifts a little-endian run of bytes right by `shift` bits, in place.
/// A shift outside 1..=7 is refused and leaves the bytes as they are.
pub fn right_shift_bytes_inplace(bytes: &mut Vec<u8>, shift: usize) -> (r: Result<(), &'static str>)
    ensures
        r is Err <==> (shift > 7 || shift < 1),
        r is Err ==> final(bytes)@ == old(bytes)@,
        r is Ok ==> final(bytes)@ == right_shifted(old(bytes)@, shift as u8),
{
    if shift > 7 || shift < 1 {
        return Err("Shift must be between 1 and 7");
    }
    let s: u8 = shift as u8;
    let n: usize = bytes.len();
    let mut i: usize = 0;
    while i < n
        invariant
            1 <= s <= 7,
            s == shift,
            i <= n,
            bytes@.len() == n,
            old(bytes)@.len() == n,
            forall|j: int| 0 <= j < i ==> bytes@[j] == right_shifted(old(bytes)@, s)[j],
            forall|j: int| i <= j < n ==> bytes@[j] == old(bytes)@[j],
        decreases n - i,
    {
        let hi: u8 = if i + 1 < n {
            bytes[i + 1]
        } else {
            0
        };
        let lo: u8 = bytes[i];
        bytes[i] = (lo >> s) | (hi << (8 - s));
        i += 1;
    }
    assert(bytes@ =~= right_shifted(old(bytes)@, s));
    Ok(())
}

/// A copy of a little-endian run of bytes shifted right by `shift` bits.
/// A shift outside 1..=7 is refused.
pub fn right_shift_bytes(bytes: &Vec<u8>, shift: u8) -> (r: Result<Vec<u8>, &'static str>)
    ensures
        r is Err <==> (shift > 7 || shift < 1),
        r is Ok ==> r->Ok_0@ == right_shifted(bytes@, shift),
{
    if shift > 7 || shift < 1 {
        return Err("Shift must be between 1 and 7");
    }
    let n: usize = bytes.len();
    let mut out: Vec<u8> = Vec::new();
    let mut i: usize = 0;
    while i < n
        invariant
            1 <= shift <= 7,
            i <= n,
            bytes@.len() == n,
            out@.len() == i,
            forall|j: int| 0 <= j < i ==> out@[j] == right_shifted(bytes@, shift)[j],
        decreases n - i,
    {
        let hi: u8 = if i + 1 < n {
            bytes[i + 1]
        } else {
            0
        };
        out.push((bytes[i] >> shift) | (hi << (8 - shift)));
        i += 1;
    }
    assert(out@ =~= right_shifted(bytes@, shift));
    Ok(out)
}

/// Clears, in place, every bit of a little-endian run from position `bits`
/// upward. A run shorter than `bits` is left as it is.
pub fn bytes_and_bits(bytes: &mut Vec<u8>, bits: u32)
    ensures
        final(bytes)@ == masked(old(bytes)@, bits),
{
    let num_of_bytes: usize = (bits / 8) as usize;
    let num_of_bits: u32 = bits % 8;
    let n: usize = bytes.len();
    if num_of_bytes < n {
        assert(1u8 << num_of_bits >= 1u8) by (bit_vector)
            requires
                num_of_bits < 8,
        ;
        let mask: u8 = (1u8 << num_of_bits) - 1;
        let kept: u8 = bytes[num_of_bytes] & mask;
        bytes[num_of_bytes] = kept;
        let mut i: usize = num_of_bytes + 1;
        while i < n
            invariant
                num_of_bytes < i <= n,
                num_of_bytes == (bits / 8) as int,
                bytes@.len() == n,
                old(bytes)@.len() == n,
                forall|j: int| 0 <= j < i ==> bytes@[j] == masked(old(bytes)@, bits)[j],
            decreases n - i,
        {
            bytes[i] = 0;
            i += 1;
        }
    }
    assert(bytes@ =~= masked(old(bytes)@, bits));
}

/// Reverses the order of the bytes, in place.
pub fn reverse_bytes_array(arr: &mut [u8])
    ensures
        final(arr)@ == old(arr)@.reverse(),
{
    let n: usize = arr.len();
    let mut left: usize = 0;
    while left < n / 2
        invariant
            left <= n / 2,
            arr@.len() == n,
            old(arr)@.len() == n,
            forall|j: int| 0 <= j < left ==> arr@[j] == old(arr)@[n - 1 - j],
            forall|j: int| n - left <= j < n ==> arr@[j] == old(arr)@[n - 1 - j],
            forall|j: int| left <= j < n - left ==> arr@[j] == old(arr)@[j],
        decreases n / 2 - left,
    {
        let right: usize = n - 1 - left;
        let a: u8 = arr[left];
        let b: u8 = arr[right];
        arr[left] = b;
        arr[right] = a;
        left += 1;
    }
    assert(arr@ =~= old(arr)@.reverse());
}

/// The 16-bit units held by an even number of bytes, low byte first.
/// An odd number of bytes is refused.
pub fn from_u8_vec(bytes: &Vec<u8>) -> (r: Result<Vec<u16>, &'static str>)
    ensures
        r is Err <==> bytes@.len() % 2 != 0,
        r is Ok ==> r->Ok_0@ == le_units(bytes@),
{
    if bytes.len() % 2 != 0 {
        return Err("Length of bytes must be even");
    }
    let len: usize = bytes.len();
    let n: usize = len / 2;
    let mut out: Vec<u16> = Vec::new();
    let mut i: usize = 0;
    while i < n
        invariant
            i <= n,
            2 * n == len,
            len == bytes@.len(),
            out@.len() == i,
            forall|j: int| 0 <= j < i ==> out@[j] == le_units(bytes@)[j],
        decreases n - i,
    {
        let unit: u16 = read_u16_le(&bytes[2 * i..2 * i + 2]);
        out.push(unit);
        i += 1;
    }
    assert(out@ =~= le_units(bytes@));
    Ok(out)
}

// ---------------------------------------------------------------------------
// Decoding by type
// ---------------------------------------------------------------------------

/// A type that can be decoded from bytes stored least significant first.
pub trait FromLeBytes: Sized {
    /// The number of bytes that decoding needs; 0 where any number will do.
    spec fn le_width() -> nat;

    /// The number of bytes that decoding needs.
    fn le_size() -> (w: usize)
        ensures
            w == Self::le_width(),
    ;

    /// Whether `r` is the value that `buf` holds.
    spec fn le_decodes(buf: Seq<u8>, r: Self) -> bool;

    fn from_le_bytes(buf: &[u8]) -> (r: Self)
        requires
            buf@.len() >= Self::le_width(),
        ensures
            Self::le_decodes(buf@, r),
    ;
}

/// A type that can be decoded from bytes stored most significant first.
pub trait FromBeBytes: Sized {
    /// The number of bytes that decoding needs; 0 where any number will do.
    spec fn be_width() -> nat;

    /// The number of bytes that decoding needs.
    fn be_size() -> (w: usize)
        ensures
            w == Self::be_width(),
    ;

    /// Whether `r` is the value that `buf` holds.
    spec fn be_decodes(buf: Seq<u8>, r: Self) -> bool;

    fn from_be_bytes(buf: &[u8]) -> (r: Self)
        requires
            buf@.len() >= Self::be_width(),
        ensures
            Self::be_decodes(buf@, r),
    ;
}

impl FromLeBytes for u8 {
    open spec fn le_width() -> nat {
        1
    }

    fn le_size() -> (w: usize) {
        1
    }

    open spec fn le_decodes(buf: Seq<u8>, r: u8) -> bool {
        r == buf[0]
    }

    fn from_le_bytes(buf: &[u8]) -> (r: u8) {
        buf[0]
    }
}

impl FromLeBytes for u16 {
    open spec fn le_width() -> nat {
        2
    }

    fn le_size() -> (w: usize) {
        2
    }

    open spec fn le_decodes(buf: Seq<u8>, r: u16) -> bool {
        r as int == le_u16(buf)
    }

    fn from_le_bytes(buf: &[u8]) -> (r: u16) {
        read_u16_le(buf)
    }
}

impl FromLeBytes for u32 {
    open spec fn le_width() -> nat {
        4
    }

    fn le_size() -> (w: usize) {
        4
    }

    open spec fn le_decodes(buf: Seq<u8>, r: u32) -> bool {
        r as int == le_u32(buf)
    }

    fn from_le_bytes(buf: &[u8]) -> (r: u32) {
        read_u32_le(buf)
    }
}

impl FromLeBytes for u64 {
    open spec fn le_width() -> nat {
        8
    }

    fn le_size() -> (w: usize) {
        8
    }

    open spec fn le_decodes(buf: Seq<u8>, r: u64) -> bool {
        r as int == le_u64(buf)
    }

    fn from_le_bytes(buf: &[u8]) -> (r: u64) {
        read_u64_le(buf)
    }
}

impl FromLeBytes for i8 {
    open spec fn le_width() -> nat {
        1
    }

    fn le_size() -> (w: usize) {
        1
    }

    open spec fn le_decodes(buf: Seq<u8>, r: i8) -> bool {
        r as int == signed8(buf[0] as int)
    }

    fn from_le_bytes(buf: &[u8]) -> (r: i8) {
        byte_as_signed(buf[0])
    }
}

impl FromLeBytes for i16 {
    open spec fn le_width() -> nat {
        2
    }

    fn le_size() -> (w: usize) {
        2
    }

    open spec fn le_decodes(buf: Seq<u8>, r: i16) -> bool {
        r as int == signed16(le_u16(buf))
    }

    fn from_le_bytes(buf: &[u8]) -> (r: i16) {
        read_i16_le(buf)
    }
}

impl FromLeBytes for i32 {
    open spec fn le_width() -> nat {
        4
    }

    fn le_size() -> (w: usize) {
        4
    }

    open spec fn le_decodes(buf: Seq<u8>, r: i32) -> bool {
        r as int == signed32(le_u32(buf))
    }

    fn from_le_bytes(buf: &[u8]) -> (r: i32) {
        read_i32_le(buf)
    }
}

impl FromLeBytes for i64 {
    open spec fn le_width() -> nat {
        8
    }

    fn le_size() -> (w: usize) {
        8
    }

    open spec fn le_decodes(buf: Seq<u8>, r: i64) -> bool {
        r as int == signed64(le_u64(buf))
    }

    fn from_le_bytes(buf: &[u8]) -> (r: i64) {
        read_i64_le(buf)
    }
}

impl FromLeBytes for String {
    open spec fn le_width() -> nat {
        0
    }

    fn le_size() -> (w: usize) {
        0
    }

    open spec fn le_decodes(buf: Seq<u8>, r: String) -> bool {
        r@ == utf8_or(buf, "ERROR during parsing LB STRING"@)
    }

    fn from_le_bytes(buf: &[u8]) -> (r: String) {
        match string_from_utf8(slice_to_vec(buf)) {
            Some(s) => s,
            None => "ERROR during parsing LB STRING".to_owned(),
        }
    }
}

impl FromLeBytes for UTF16String {
    open spec fn le_width() -> nat {
        0
    }

    fn le_size() -> (w: usize) {
        0
    }

    open spec fn le_decodes(buf: Seq<u8>, r: UTF16String) -> bool {
        r.inner@ == utf16_lossy_text(le_units(buf))
    }

    fn from_le_bytes(buf: &[u8]) -> (r: UTF16String) {
        let n: usize = buf.len() / 2;
        let len: usize = buf.len();
        let mut units: Vec<u16> = Vec::new();
        let mut i: usize = 0;
        while i < n
            invariant
                i <= n,
                2 * n <= len,
                n == len / 2,
                len == buf@.len(),
                units@.len() == i,
                forall|j: int| 0 <= j < i ==> units@[j] == le_units(buf@)[j],
            decreases n - i,
        {
            units.push(read_u16_le(&buf[2 * i..2 * i + 2]));
            i += 1;
        }
        assert(units@ =~= le_units(buf@));
        UTF16String { inner: string_from_utf16_lossy(units.as_slice()) }
    }
}

impl FromBeBytes for u8 {
    open spec fn be_width() -> nat {
        1
    }

    fn be_size() -> (w: usize) {
        1
    }

    open spec fn be_decodes(buf: Seq<u8>, r: u8) -> bool {
        r == buf[0]
    }

    fn from_be_bytes(buf: &[u8]) -> (r: u8) {
        buf[0]
    }
}

impl FromBeBytes for u16 {
    open spec fn be_width() -> nat {
        2
    }

    fn be_size() -> (w: usize) {
        2
    }

    open spec fn be_decodes(buf: Seq<u8>, r: u16) -> bool {
        r as int == be_u16(buf)
    }

    fn from_be_bytes(buf: &[u8]) -> (r: u16) {
        read_u16_be(buf)
    }
}

impl FromBeBytes for u32 {
    open spec fn be_width() -> nat {
        4
    }

    fn be_size() -> (w: usize) {
        4
    }

    open spec fn be_decodes(buf: Seq<u8>, r: u32) -> bool {
        r as int == be_u32(buf)
    }

    fn from_be_bytes(buf: &[u8]) -> (r: u32) {
        read_u32_be(buf)
    }
}

impl FromBeBytes for u64 {
    open spec fn be_width() -> nat {
        8
    }

    fn be_size() -> (w: usize) {
        8
    }

    open spec fn be_decodes(buf: Seq<u8>, r: u64) -> bool {
        r as int == be_u64(buf)
    }

    fn from_be_bytes(buf: &[u8]) -> (r: u64) {
        read_u64_be(buf)
    }
}

impl FromBeBytes for i8 {
    open spec fn be_width() -> nat {
        1
    }

    fn be_size() -> (w: usize) {
        1
    }

    open spec fn be_decodes(buf: Seq<u8>, r: i8) -> bool {
        r as int == signed8(buf[0] as int)
    }

    fn from_be_bytes(buf: &[u8]) -> (r: i8) {
        byte_as_signed(buf[0])
    }
}

impl FromBeBytes for i16 {
    open spec fn be_width() -> nat {
        2
    }

    fn be_size() -> (w: usize) {
        2
    }

    open spec fn be_decodes(buf: Seq<u8>, r: i16) -> bool {
        r as int == signed16(be_u16(buf))
    }

    fn from_be_bytes(buf: &[u8]) -> (r: i16) {
        read_i16_be(buf)
    }
}

impl FromBeBytes for i32 {
    open spec fn be_width() -> nat {
        4
    }

    fn be_size() -> (w: usize) {
        4
    }

    open spec fn be_decodes(buf: Seq<u8>, r: i32) -> bool {
        r as int == signed32(be_u32(buf))
    }

    fn from_be_bytes(buf: &[u8]) -> (r: i32) {
        read_i32_be(buf)
    }
}

impl FromBeBytes for i64 {
    open spec fn be_width() -> nat {
        8
    }

    fn be_size() -> (w: usize) {
        8
    }

    open spec fn be_decodes(buf: Seq<u8>, r: i64) -> bool {
        r as int == signed64(be_u64(buf))
    }

    fn from_be_bytes(buf: &[u8]) -> (r: i64) {
        read_i64_be(buf)
    }
}

impl FromBeBytes for String {
    open spec fn be_width() -> nat {
        0
    }

    fn be_size() -> (w: usize) {
        0
    }

    open spec fn be_decodes(buf: Seq<u8>, r: String) -> bool {
        r@ == utf8_or(buf.reverse(), "ERROR during parsing BE STRING"@)
    }

    fn from_be_bytes(buf: &[u8]) -> (r: String) {
        let mut bytes: Vec<u8> = slice_to_vec(buf);
        reverse_bytes_array(bytes.as_mut_slice());
        match string_from_utf8(bytes) {
            Some(s) => s,
            None => "ERROR during parsing BE STRING".to_owned(),
        }
    }
}

impl FromBeBytes for UTF16String {
    open spec fn be_width() -> nat {
        0
    }

    fn be_size() -> (w: usize) {
        0
    }

    open spec fn be_decodes(buf: Seq<u8>, r: UTF16String) -> bool {
        r.inner@ == utf16_lossy_text(be_units(buf))
    }

    fn from_be_bytes(buf: &[u8]) -> (r: UTF16String) {
        let n: usize = buf.len() / 2;
        let len: usize = buf.len();
        let mut units: Vec<u16> = Vec::new();
        let mut i: usize = 0;
        while i < n
            invariant
                i <= n,
                2 * n <= len,
                n == len / 2,
                len == buf@.len(),
                units@.len() == i,
                forall|j: int| 0 <= j < i ==> units@[j] == be_units(buf@)[j],
            decreases n - i,
        {
            units.push(read_u16_be(&buf[2 * i..2 * i + 2]));
            i += 1;
        }
        assert(units@ =~= be_units(buf@));
        UTF16String { inner: string_from_utf16_lossy(units.as_slice()) }
    }
}

/// A byte read as a two's complement number.
pub fn byte_as_signed(b: u8) -> (r: i8)
    ensures
        r as int == signed8(b as int),
{
    if b >= 0x80 {
        let low: u8 = b - 0x80;
        (low as i8) - 0x7f - 1
    } else {
        b as i8
    }
}

/// Decodes a value stored least significant byte first.
pub fn parse_le_value<T>(cur: &[u8]) -> (r: T) where T: FromLeBytes
    requires
        cur@.len() >= T::le_width(),
    ensures
        T::le_decodes(cur@, r),
{
    T::from_le_bytes(cur)
}

/// Decodes a value stored most significant byte first.
pub fn parse_be_value<T>(cur: &[u8]) -> (r: T) where T: FromBeBytes
    requires
        cur@.len() >= T::be_width(),
    ensures
        T::be_decodes(cur@, r),
{
    T::from_be_bytes(cur)
}

// ---------------------------------------------------------------------------
// What holds of the shifts
// ---------------------------------------------------------------------------

proof fn lemma_shl_of_shr(lo: u8, mid: u8, hi: u8, s: u8)
    requires
        1 <= s <= 7,
    ensures
        shl_byte(shr_byte(lo, mid, s), shr_byte(mid, hi, s), s) == mid,
        (mid & low_mask(s as u32)) == 0 ==> shl_byte(0, shr_byte(mid, hi, s), s) == mid,
{
    assert(((((mid >> s) | (hi << ((8 - s) as u8))) << s) | (((lo >> s) | (mid << ((8 - s) as u8)))
        >> ((8 - s) as u8))) == mid) by (bit_vector)
        requires
            1 <= s <= 7,
    ;
    assert((mid & (((1u8 << (s as u32)) - 1) as u8)) == 0 ==> ((((mid >> s) | (hi << ((8 - s) as u8)))
        << s) | (0u8 >> ((8 - s) as u8))) == mid) by (bit_vector)
        requires
            1 <= s <= 7,
    ;
}

proof fn lemma_shr_of_shl(lo: u8, mid: u8, hi: u8, s: u8)
    requires
        1 <= s <= 7,
    ensures
        shr_byte(shl_byte(lo, mid, s), shl_byte(mid, hi, s), s) == mid,
        (mid & low_mask((8 - s) as u32)) == mid ==> shr_byte(shl_byte(lo, mid, s), 0, s) == mid,
{
    assert(((((mid << s) | (lo >> ((8 - s) as u8))) >> s) | (((hi << s) | (mid >> ((8 - s) as u8)))
        << ((8 - s) as u8))) == mid) by (bit_vector)
        requires
            1 <= s <= 7,
    ;
    assert((mid & (((1u8 << ((8 - s) as u32)) - 1) as u8)) == mid ==> ((((mid << s) | (lo >> ((8
        - s) as u8))) >> s) | (0u8 << ((8 - s) as u8))) == mid) by (bit_vector)
        requires
            1 <= s <= 7,
    ;
}

/// A run whose lowest `s` bits are clear is unchanged by a shift right by
/// `s` bits followed by a shift left by `s` bits.
pub proof fn lemma_right_then_left_shift(b: Seq<u8>, s: u8)
    requires
        1 <= s <= 7,
        b.len() > 0 ==> (b[0] & low_mask(s as u32)) == 0,
    ensures
        left_shifted(right_shifted(b, s), s) == b,
{
    let r = right_shifted(b, s);
    assert forall|i: int| 0 <= i < b.len() implies left_shifted(r, s)[i] == b[i] by {
        let hi: u8 = if i + 1 < b.len() {
            b[i + 1]
        } else {
            0u8
        };
        if i >= 1 {
            lemma_shl_of_shr(b[i - 1], b[i], hi, s);
        } else {
            lemma_shl_of_shr(0u8, b[i], hi, s);
        }
    }
    assert(left_shifted(r, s) =~= b);
}

/// A run that fits in `s` bits less than its bytes hold, as a value cut to
/// a channel's bit count does, is unchanged by a shift left by `s` bits
/// followed by a shift right by `s` bits.
pub proof fn lemma_left_then_right_shift(b: Seq<u8>, s: u8)
    requires
        1 <= s <= 7,
        b.len() > 0 ==> (b.last() & low_mask((8 - s) as u32)) == b.last(),
    ensures
        right_shifted(left_shifted(b, s), s) == b,
{
    let l = left_shifted(b, s);
    assert forall|i: int| 0 <= i < b.len() implies right_shifted(l, s)[i] == b[i] by {
        let lo: u8 = if i >= 1 {
            b[i - 1]
        } else {
            0u8
        };
        if i + 1 < b.len() {
            lemma_shr_of_shl(lo, b[i], b[i + 1], s);
        } else {
            lemma_shr_of_shl(lo, b[i], 0u8, s);
        }
    }
    assert(right_shifted(l, s) =~= b);
}

/// Cutting a run to `bits` bits twice is the same as cutting it once.
pub proof fn lemma_masked_fits(b: Seq<u8>, bits: u32)
    ensures
        fits_bits(masked(b, bits), bits),
{
    let m = masked(b, bits);
    let k: u32 = bits % 8;
    assert forall|i: int| 0 <= i < b.len() implies masked(m, bits)[i] == m[i] by {
        if i == (bits / 8) as int {
            let x: u8 = b[i];
            assert(((x & (((1u8 << k) - 1) as u8)) & (((1u8 << k) - 1) as u8)) == (x & (((1u8 << k)
                - 1) as u8))) by (bit_vector)
                requires
                    k < 8,
            ;
        }
    }
    assert(masked(m, bits) =~= m);
}

/// A field of `bits` bits that starts `s` bits into a run: once it is
/// shifted down and cut to its width, shifting it up and down again by `s`
/// changes nothing, provided the run has room for `s + bits` bits.
pub proof fn lemma_decoded_field_reshift(b: Seq<u8>, s: u8, bits: u32)
    requires
        1 <= s <= 7,
        s + bits <= 8 * b.len(),
    ensures
        ({
            let field = masked(right_shifted(b, s), bits);
            right_shifted(left_shifted(field, s), s) == field
        }),
{
    let field = masked(right_shifted(b, s), bits);
    if b.len() > 0 {
        let n = b.len() as int;
        let x: u8 = right_shifted(b, s)[n - 1];
        let k: u32 = bits % 8;
        if n - 1 < (bits / 8) as int {
            // bits == 8 * n would leave no room for the shift
            assert(false);
        } else if n - 1 == (bits / 8) as int {
            assert(k + s <= 8);
            assert(((x & (((1u8 << k) - 1) as u8)) & (((1u8 << ((8 - s) as u32)) - 1) as u8)) == (x
                & (((1u8 << k) - 1) as u8))) by (bit_vector)
                requires
                    1 <= s <= 7,
                    k + s <= 8,
            ;
        } else {
            assert(field.last() == 0u8);
            assert((0u8 & (((1u8 << ((8 - s) as u32)) - 1) as u8)) == 0u8) by (bit_vector)
                requires
                    1 <= s <= 7,
            ;
        }
    }
    lemma_left_then_right_shift(field, s);
}

// ---------------------------------------------------------------------------
// What the shifts and masks do to the number
// ---------------------------------------------------------------------------

proof fn lemma_shr_byte_value(lo: u8, hi: u8, s: u8)
    requires
        1 <= s <= 7,
    ensures
        shr_byte(lo, hi, s) as int == (lo as int) / (pow2(s as nat) as int) + ((hi as int) % (pow2(
            s as nat,
        ) as int)) * (pow2((8 - s) as nat) as int),
        pow2(s as nat) * pow2((8 - s) as nat) == 256,
        pow2(s as nat) > 0,
{
    lemma2_to64();
    vstd::arithmetic::power2::lemma_pow2_adds(s as nat, (8 - s) as nat);
    vstd::arithmetic::power2::lemma_pow2_pos(s as nat);
    if s == 1 {
        assert(((lo >> 1u8) | (hi << 7u8)) == lo / 2 + (hi % 2) * 128) by (bit_vector);
    } else if s == 2 {
        assert(((lo >> 2u8) | (hi << 6u8)) == lo / 4 + (hi % 4) * 64) by (bit_vector);
    } else if s == 3 {
        assert(((lo >> 3u8) | (hi << 5u8)) == lo / 8 + (hi % 8) * 32) by (bit_vector);
    } else if s == 4 {
        assert(((lo >> 4u8) | (hi << 4u8)) == lo / 16 + (hi % 16) * 16) by (bit_vector);
    } else if s == 5 {
        assert(((lo >> 5u8) | (hi << 3u8)) == lo / 32 + (hi % 32) * 8) by (bit_vector);
    } else if s == 6 {
        assert(((lo >> 6u8) | (hi << 2u8)) == lo / 64 + (hi % 64) * 4) by (bit_vector);
    } else {
        assert(((lo >> 7u8) | (hi << 1u8)) == lo / 128 + (hi % 128) * 2) by (bit_vector);
    }
}

proof fn lemma_low_mask_value(x: u8, k: u32)
    requires
        k < 8,
    ensures
        (x & low_mask(k)) as int == (x as int) % (pow2(k as nat) as int),
        pow2(k as nat) * pow2((8 - k) as nat) == 256,
        pow2(k as nat) > 0,
{
    lemma2_to64();
    vstd::arithmetic::power2::lemma_pow2_adds(k as nat, (8 - k) as nat);
    vstd::arithmetic::power2::lemma_pow2_pos(k as nat);
    if k == 0 {
        assert((x & (((1u8 << 0u32) - 1) as u8)) == x % 1) by (bit_vector);
    } else if k == 1 {
        assert((x & (((1u8 << 1u32) - 1) as u8)) == x % 2) by (bit_vector);
    } else if k == 2 {
        assert((x & (((1u8 << 2u32) - 1) as u8)) == x % 4) by (bit_vector);
    } else if k == 3 {
        assert((x & (((1u8 << 3u32) - 1) as u8)) == x % 8) by (bit_vector);
    } else if k == 4 {
        assert((x & (((1u8 << 4u32) - 1) as u8)) == x % 16) by (bit_vector);
    } else if k == 5 {
        assert((x & (((1u8 << 5u32) - 1) as u8)) == x % 32) by (bit_vector);
    } else if k == 6 {
        assert((x & (((1u8 << 6u32) - 1) as u8)) == x % 64) by (bit_vector);
    } else {
        assert((x & (((1u8 << 7u32) - 1) as u8)) == x % 128) by (bit_vector);
    }
}

/// The first byte of a run, or 0 where the run is empty.
spec fn first_or_zero(b: Seq<u8>) -> u8 {
    if b.len() > 0 {
        b[0]
    } else {
        0u8
    }
}

/// A number written least significant byte first leaves, divided by a
/// divisor of 256, the remainder that its first byte leaves.
proof fn lemma_le_value_low(b: Seq<u8>, c: int, d: int)
    requires
        c > 0,
        d > 0,
        c * d == 256,
    ensures
        (le_value(b) as int) % c == (first_or_zero(b) as int) % c,
{
    if b.len() > 0 {
        let rest = le_value(b.drop_first()) as int;
        let b0 = b[0] as int;
        assert(256 * rest == c * (d * rest)) by (nonlinear_arith)
            requires
                c * d == 256,
        ;
        vstd::arithmetic::div_mod::lemma_mod_multiples_vanish(d * rest, b0, c);
    } else {
        vstd::arithmetic::div_mod::lemma_small_mod(0, c as nat);
    }
}

/// Shifting a little-endian run right by `s` bits divides the number that
/// it holds by two to the power `s`.
pub proof fn lemma_right_shift_divides(b: Seq<u8>, s: u8)
    requires
        1 <= s <= 7,
    ensures
        le_value(right_shifted(b, s)) == le_value(b) / pow2(s as nat),
    decreases b.len(),
{
    let c = pow2(s as nat) as int;
    let d = pow2((8 - s) as nat) as int;
    lemma_shr_byte_value(0, 0, s);
    if b.len() == 0 {
        assert(right_shifted(b, s) =~= b);
        vstd::arithmetic::div_mod::lemma_div_basics(c);
    } else {
        let rest = b.drop_first();
        let shifted = right_shifted(b, s);
        assert(shifted.drop_first() =~= right_shifted(rest, s));
        lemma_right_shift_divides(rest, s);
        let b0 = b[0] as int;
        let b1 = first_or_zero(rest) as int;
        let v1 = le_value(rest) as int;
        lemma_shr_byte_value(b[0], first_or_zero(rest), s);
        assert(shifted[0] == shr_byte(b[0], first_or_zero(rest), s));
        lemma_le_value_low(rest, c, d);
        // v1 = c * q + r with r = b1 % c
        let q = v1 / c;
        let r = v1 % c;
        vstd::arithmetic::div_mod::lemma_fundamental_div_mod(v1, c);
        vstd::arithmetic::div_mod::lemma_fundamental_div_mod(b0, c);
        let h = b0 / c;
        let l = b0 % c;
        // b0 + 256 v1 == c * (h + d * v1) + l
        assert(b0 + 256 * v1 == c * (h + d * v1) + l) by (nonlinear_arith)
            requires
                b0 == c * h + l,
                c * d == 256,
        ;
        vstd::arithmetic::div_mod::lemma_fundamental_div_mod_converse(b0 + 256 * v1, c, h + d * v1, l);
        // d * v1 == r * d + 256 * q
        assert(d * v1 == r * d + 256 * q) by (nonlinear_arith)
            requires
                v1 == c * q + r,
                c * d == 256,
        ;
    }
}

/// A run of zero bytes holds the number 0.
proof fn lemma_zero_run_value(b: Seq<u8>)
    requires
        forall|i: int| 0 <= i < b.len() ==> b[i] == 0u8,
    ensures
        le_value(b) == 0,
    decreases b.len(),
{
    if b.len() > 0 {
        lemma_zero_run_value(b.drop_first());
    }
}

/// Cutting a little-endian run to `bits` bits leaves the remainder that the
/// number it holds leaves when divided by two to the power `bits`.
pub proof fn lemma_mask_is_remainder(b: Seq<u8>, bits: u32)
    ensures
        le_value(masked(b, bits)) == le_value(b) % pow2(bits as nat),
    decreases b.len(),
{
    let m = masked(b, bits);
    vstd::arithmetic::power2::lemma_pow2_pos(bits as nat);
    if b.len() == 0 {
        assert(m =~= b);
        vstd::arithmetic::div_mod::lemma_small_mod(0, pow2(bits as nat));
    } else if bits < 8 {
        lemma_low_mask_value(b[0], bits);
        let c = pow2(bits as nat) as int;
        let d = pow2((8 - bits) as nat) as int;
        assert(m[0] == b[0] & low_mask(bits % 8));
        assert forall|i: int| 0 <= i < m.drop_first().len() implies m.drop_first()[i] == 0u8 by {
            assert(m.drop_first()[i] == m[i + 1]);
        }
        lemma_zero_run_value(m.drop_first());
        lemma_le_value_low(b, c, d);
    } else {
        let rest = b.drop_first();
        let less: u32 = (bits - 8) as u32;
        assert(m.drop_first() =~= masked(rest, less)) by {
            assert forall|i: int| 0 <= i < rest.len() implies m.drop_first()[i] == masked(rest, less)[i] by {
                assert(m.drop_first()[i] == m[i + 1]);
                assert((bits / 8) as int == (less / 8) as int + 1);
                assert(bits % 8 == less % 8);
            }
        }
        assert(m[0] == b[0]);
        lemma_mask_is_remainder(rest, less);
        let a = b[0] as int;
        let x = le_value(rest) as int;
        let p = pow2(less as nat) as int;
        vstd::arithmetic::power2::lemma_pow2_pos(less as nat);
        vstd::arithmetic::power2::lemma_pow2_adds(8, less as nat);
        lemma2_to64();
        assert(pow2(bits as nat) == 256 * p);
        vstd::arithmetic::div_mod::lemma_fundamental_div_mod(x, p);
        let q = x / p;
        let r = x % p;
        assert(a + 256 * x == (256 * p) * q + (a + 256 * r)) by (nonlinear_arith)
            requires
                x == p * q + r,
        ;
        assert(0 <= a + 256 * r < 256 * p) by (nonlinear_arith)
            requires
                0 <= a < 256,
                0 <= r < p,
        ;
        vstd::arithmetic::div_mod::lemma_fundamental_div_mod_converse(
            a + 256 * x,
            256 * p,
            q,
            a + 256 * r,
        );
    }
}

/// Zero bytes behind a little-endian run do not change the number that it
/// holds.
pub proof fn lemma_zeros_behind(b: Seq<u8>, tail: Seq<u8>)
    requires
        forall|i: int| 0 <= i < tail.len() ==> tail[i] == 0u8,
    ensures
        le_value(b + tail) == le_value(b),
    decreases b.len(),
{
    if b.len() == 0 {
        assert(b + tail =~= tail);
        lemma_zero_run_value(tail);
    } else {
        assert((b + tail).drop_first() =~= b.drop_first() + tail);
        lemma_zeros_behind(b.drop_first(), tail);
    }
}

/// The fixed-width readings are the number that the bytes hold.
pub proof fn lemma_fixed_width_values(b: Seq<u8>)
    ensures
        b.len() >= 2 ==> le_u16(b) == le_value(b.subrange(0, 2)),
        b.len() >= 4 ==> le_u32(b) == le_value(b.subrange(0, 4)),
        b.len() >= 8 ==> le_u64(b) == le_value(b.subrange(0, 8)),
        b.len() >= 2 ==> be_u16(b) == be_value(b.subrange(0, 2)),
        b.len() >= 4 ==> be_u32(b) == be_value(b.subrange(0, 4)),
        b.len() >= 8 ==> be_u64(b) == be_value(b.subrange(0, 8)),
{
    if b.len() >= 2 {
        lemma_le_unfold(b.subrange(0, 2), 2);
        lemma_be_unfold(b.subrange(0, 2), 2);
    }
    if b.len() >= 4 {
        lemma_le_unfold(b.subrange(0, 4), 4);
        lemma_be_unfold(b.subrange(0, 4), 4);
        assert(b.subrange(2, 4) =~= b.subrange(0, 4).subrange(2, 4));
    }
    if b.len() >= 8 {
        lemma_le_unfold(b.subrange(0, 8), 8);
        lemma_be_unfold(b.subrange(0, 8), 8);
        assert(b.subrange(2, 4) =~= b.subrange(0, 8).subrange(2, 4));
        assert(b.subrange(4, 8) =~= b.subrange(0, 8).subrange(4, 8));
        assert(b.subrange(4, 8).subrange(2, 4) =~= b.subrange(0, 8).subrange(6, 8));
    }
}

proof fn lemma_le_unfold(b: Seq<u8>, n: int)
    requires
        b.len() == n,
        n == 2 || n == 4 || n == 8,
    ensures
        n == 2 ==> le_value(b) == b[0] + 0x100 * b[1],
        n == 4 ==> le_value(b) == b[0] + 0x100 * b[1] + 0x1_0000 * (b[2] + 0x100 * b[3]),
        n == 8 ==> le_value(b) == b[0] + 0x100 * b[1] + 0x1_0000 * (b[2] + 0x100 * b[3])
            + 0x1_0000_0000 * (b[4] + 0x100 * b[5] + 0x1_0000 * (b[6] + 0x100 * b[7])),
{
    reveal_with_fuel(le_value, 10);
    let b1 = b.drop_first();
    let b2 = b1.drop_first();
    if n == 2 {
        assert(b2.len() == 0);
    } else if n == 4 {
        let b3 = b2.drop_first();
        let b4 = b3.drop_first();
        assert(b4.len() == 0);
    } else {
        let b3 = b2.drop_first();
        let b4 = b3.drop_first();
        let b5 = b4.drop_first();
        let b6 = b5.drop_first();
        let b7 = b6.drop_first();
        let b8 = b7.drop_first();
        assert(b8.len() == 0);
    }
}

proof fn lemma_be_unfold(b: Seq<u8>, n: int)
    requires
        b.len() == n,
        n == 2 || n == 4 || n == 8,
    ensures
        n == 2 ==> be_value(b) == 0x100 * b[0] + b[1],
        n == 4 ==> be_value(b) == 0x1_0000 * (0x100 * b[0] + b[1]) + (0x100 * b[2] + b[3]),
        n == 8 ==> be_value(b) == 0x1_0000_0000 * (0x1_0000 * (0x100 * b[0] + b[1]) + (0x100 * b[2]
            + b[3])) + (0x1_0000 * (0x100 * b[4] + b[5]) + (0x100 * b[6] + b[7])),
{
    reveal_with_fuel(be_value, 10);
    let b1 = b.drop_last();
    let b2 = b1.drop_last();
    if n == 2 {
        assert(b2.len() == 0);
    } else if n == 4 {
        let b3 = b2.drop_last();
        let b4 = b3.drop_last();
        assert(b4.len() == 0);
    } else {
        let b3 = b2.drop_last();
        let b4 = b3.drop_last();
        let b5 = b4.drop_last();
        let b6 = b5.drop_last();
        let b7 = b6.drop_last();
        let b8 = b7.drop_last();
        assert(b8.len() == 0);
    }
}

// ---------------------------------------------------------------------------
// Decoded values
// ---------------------------------------------------------------------------

/// The result of a conversion that yields text for some inputs and numbers
/// for others. `Real` holds the IEEE 754 bit pattern of a double.
#[derive(Debug, PartialEq)]
pub enum StringOrReal {
    String(String),
    Real(u64),
}

/// What a `StringOrReal` holds.
pub enum MixedModel {
    Text(Seq<char>),
    Real(u64),
}

impl View for StringOrReal {
    type V = MixedModel;

    open spec fn view(&self) -> MixedModel {
        match self {
            StringOrReal::String(s) => MixedModel::Text(s@),
            StringOrReal::Real(bits) => MixedModel::Real(*bits),
        }
    }
}

impl Clone for StringOrReal {
    fn clone(&self) -> (r: Self)
        ensures
            r@ == self@,
    {
        match self {
            StringOrReal::String(s) => StringOrReal::String(s.clone()),
            StringOrReal::Real(bits) => StringOrReal::Real(*bits),
        }
    }
}

impl StringOrReal {
    /// The text, where this is text.
    pub fn into_string(self) -> (r: Result<String, &'static str>)
        ensures
            match self {
                StringOrReal::String(s) => r == Ok::<String, &'static str>(s),
                StringOrReal::Real(_) => r is Err,
            },
    {
        match self {
            StringOrReal::String(s) => Ok(s),
            StringOrReal::Real(_) => Err("Can not convert real to string"),
        }
    }
}

/// A field of a block, or the samples of a channel. The variants `REAL`,
/// `SINGLE` and `FLOAT16` hold IEEE 754 bit patterns of 64, 32 and 16 bits.
#[derive(Debug, PartialEq)]
pub enum DataValue {
    CHAR(String),
    STRINGS(Vec<String>),
    BYTE(Vec<u8>),
    UINT64(Vec<u64>),
    UINT8(Vec<u8>),
    INT8(Vec<i8>),
    INT16(Vec<i16>),
    UINT16(Vec<u16>),
    INT32(Vec<i32>),
    UINT32(Vec<u32>),
    INT64(Vec<i64>),
    REAL(Vec<u64>),
    SINGLE(Vec<u32>),
    FLOAT16(Vec<u16>),
    STRUCT(Vec<(String, DataValue)>),
    BYTEARRAY(Vec<Vec<u8>>),
    MIXED(Vec<StringOrReal>),
}

/// What a `DataValue` holds. The members of a structure are named here and
/// kept as they are.
pub enum DataModel {
    Char(Seq<char>),
    Strings(Seq<Seq<char>>),
    Byte(Seq<u8>),
    U64(Seq<u64>),
    U8(Seq<u8>),
    I8(Seq<i8>),
    I16(Seq<i16>),
    U16(Seq<u16>),
    I32(Seq<i32>),
    U32(Seq<u32>),
    I64(Seq<i64>),
    Real(Seq<u64>),
    Single(Seq<u32>),
    Float16(Seq<u16>),
    Struct(Seq<(Seq<char>, DataValue)>),
    ByteArray(Seq<Seq<u8>>),
    Mixed(Seq<MixedModel>),
}

impl View for DataValue {
    type V = DataModel;

    open spec fn view(&self) -> DataModel {
        match self {
            DataValue::CHAR(s) => DataModel::Char(s@),
            DataValue::STRINGS(v) => DataModel::Strings(v.deep_view()),
            DataValue::BYTE(v) => DataModel::Byte(v@),
            DataValue::UINT64(v) => DataModel::U64(v@),
            DataValue::UINT8(v) => DataModel::U8(v@),
            DataValue::INT8(v) => DataModel::I8(v@),
            DataValue::INT16(v) => DataModel::I16(v@),
            DataValue::UINT16(v) => DataModel::U16(v@),
            DataValue::INT32(v) => DataModel::I32(v@),
            DataValue::UINT32(v) => DataModel::U32(v@),
            DataValue::INT64(v) => DataModel::I64(v@),
            DataValue::REAL(v) => DataModel::Real(v@),
            DataValue::SINGLE(v) => DataModel::Single(v@),
            DataValue::FLOAT16(v) => DataModel::Float16(v@),
            DataValue::STRUCT(v) => DataModel::Struct(
                Seq::new(v@.len(), |i: int| (v@[i].0@, v@[i].1)),
            ),
            DataValue::BYTEARRAY(v) => DataModel::ByteArray(v.deep_view()),
            DataValue::MIXED(v) => DataModel::Mixed(Seq::new(v@.len(), |i: int| v@[i]@)),
        }
    }
}

/// The bytes of a value that holds bytes, or text.
pub open spec fn model_bytes(v: DataModel) -> Option<Seq<u8>> {
    match v {
        DataModel::Byte(s) => Some(s),
        DataModel::U8(s) => Some(s),
        DataModel::Char(s) => Some(encode_utf8(s)),
        _ => None,
    }
}

impl DataValue {
    /// The number of samples held; a `CHAR` counts as one.
    pub open spec fn spec_len(&self) -> nat {
        match self {
            DataValue::CHAR(_) => 1,
            DataValue::STRINGS(v) => v@.len(),
            DataValue::BYTE(v) => v@.len(),
            DataValue::UINT64(v) => v@.len(),
            DataValue::UINT8(v) => v@.len(),
            DataValue::INT8(v) => v@.len(),
            DataValue::INT16(v) => v@.len(),
            DataValue::UINT16(v) => v@.len(),
            DataValue::INT32(v) => v@.len(),
            DataValue::UINT32(v) => v@.len(),
            DataValue::INT64(v) => v@.len(),
            DataValue::REAL(v) => v@.len(),
            DataValue::SINGLE(v) => v@.len(),
            DataValue::FLOAT16(v) => v@.len(),
            DataValue::STRUCT(v) => v@.len(),
            DataValue::BYTEARRAY(v) => v@.len(),
            DataValue::MIXED(v) => v@.len(),
        }
    }

    /// Whether the value holds numbers.
    pub open spec fn spec_is_num(&self) -> bool {
        !(self is CHAR || self is STRINGS || self is BYTEARRAY || self is STRUCT)
    }

    /// Whether the value holds numbers.
    pub fn is_num(&self) -> (r: bool)
        ensures
            r == self.spec_is_num(),
    {
        match self {
            DataValue::CHAR(_) | DataValue::STRINGS(_) | DataValue::BYTEARRAY(_) | DataValue::STRUCT(
                _,
            ) => false,
            _ => true,
        }
    }

    /// The bytes of a value that holds bytes, or text.
    pub fn as_bytes(&self) -> (r: Option<&[u8]>)
        ensures
            match r {
                Some(b) => model_bytes(self@) == Some(b@),
                None => model_bytes(self@) is None,
            },
    {
        match self {
            DataValue::BYTE(v) => Some(v.as_slice()),
            DataValue::UINT8(v) => Some(v.as_slice()),
            DataValue::CHAR(s) => Some(s.as_str().as_bytes()),
            _ => None,
        }
    }

    /// Whether the value is a list of texts.
    pub fn is_strings(&self) -> (r: bool)
        ensures
            r == (self is STRINGS),
    {
        match self {
            DataValue::STRINGS(_) => true,
            _ => false,
        }
    }
}

impl TryFrom<DataValue> for String {
    type Error = &'static str;

    fn try_from(value: DataValue) -> (r: Result<Self, Self::Error>) {
        match value {
            DataValue::CHAR(s) => Ok(s),
            _ => Err("DataValue is not a CHAR"),
        }
    }
}

impl vstd::std_specs::convert::TryFromSpecImpl<DataValue> for String {
    open spec fn obeys_try_from_spec() -> bool {
        true
    }

    open spec fn try_from_spec(value: DataValue) -> Result<Self, &'static str> {
        match value {
            DataValue::CHAR(s) => Ok(s),
            _ => Err("DataValue is not a CHAR"),
        }
    }
}

impl TryFrom<DataValue> for Vec<u64> {
    type Error = &'static str;

    fn try_from(value: DataValue) -> (r: Result<Self, Self::Error>) {
        match value {
            DataValue::UINT64(s) => Ok(s),
            _ => Err("DataValue is not a uint64"),
        }
    }
}

impl vstd::std_specs::convert::TryFromSpecImpl<DataValue> for Vec<u64> {
    open spec fn obeys_try_from_spec() -> bool {
        true
    }

    open spec fn try_from_spec(value: DataValue) -> Result<Self, &'static str> {
        match value {
            DataValue::UINT64(s) => Ok(s),
            _ => Err("DataValue is not a uint64"),
        }
    }
}

impl TryFrom<DataValue> for Vec<i16> {
    type Error = &'static str;

    fn try_from(value: DataValue) -> (r: Result<Self, Self::Error>) {
        match value {
            DataValue::INT16(s) => Ok(s),
            _ => Err("DataValue is not a int16"),
        }
    }
}

impl vstd::std_specs::convert::TryFromSpecImpl<DataValue> for Vec<i16> {
    open spec fn obeys_try_from_spec() -> bool {
        true
    }

    open spec fn try_from_spec(value: DataValue) -> Result<Self, &'static str> {
        match value {
            DataValue::INT16(s) => Ok(s),
            _ => Err("DataValue is not a int16"),
        }
    }
}

impl TryFrom<DataValue> for Vec<u16> {
    type Error = &'static str;

    fn try_from(value: DataValue) -> (r: Result<Self, Self::Error>) {
        match value {
            DataValue::UINT16(s) => Ok(s),
            _ => Err("DataValue is not a uint16"),
        }
    }
}

impl vstd::std_specs::convert::TryFromSpecImpl<DataValue> for Vec<u16> {
    open spec fn obeys_try_from_spec() -> bool {
        true
    }

    open spec fn try_from_spec(value: DataValue) -> Result<Self, &'static str> {
        match value {
            DataValue::UINT16(s) => Ok(s),
            _ => Err("DataValue is not a uint16"),
        }
    }
}

impl TryFrom<DataValue> for Vec<i32> {
    type Error = &'static str;

    fn try_from(value: DataValue) -> (r: Result<Self, Self::Error>) {
        match value {
            DataValue::INT32(s) => Ok(s),
            _ => Err("DataValue is not a int32"),
        }
    }
}

impl vstd::std_specs::convert::TryFromSpecImpl<DataValue> for Vec<i32> {
    open spec fn obeys_try_from_spec() -> bool {
        true
    }

    open spec fn try_from_spec(value: DataValue) -> Result<Self, &'static str> {
        match value {
            DataValue::INT32(s) => Ok(s),
            _ => Err("DataValue is not a int32"),
        }
    }
}

impl TryFrom<DataValue> for Vec<u32> {
    type Error = &'static str;

    fn try_from(value: DataValue) -> (r: Result<Self, Self::Error>) {
        match value {
            DataValue::UINT32(s) => Ok(s),
            _ => Err("DataValue is not a uint32"),
        }
    }
}

impl vstd::std_specs::convert::TryFromSpecImpl<DataValue> for Vec<u32> {
    open spec fn obeys_try_from_spec() -> bool {
        true
    }

    open spec fn try_from_spec(value: DataValue) -> Result<Self, &'static str> {
        match value {
            DataValue::UINT32(s) => Ok(s),
            _ => Err("DataValue is not a uint32"),
        }
    }
}

impl TryFrom<DataValue> for Vec<i64> {
    type Error = &'static str;

    fn try_from(value: DataValue) -> (r: Result<Self, Self::Error>) {
        match value {
            DataValue::INT64(s) => Ok(s),
            _ => Err("DataValue is not a int64"),
        }
    }
}

impl vstd::std_specs::convert::TryFromSpecImpl<DataValue> for Vec<i64> {
    open spec fn obeys_try_from_spec() -> bool {
        true
    }

    open spec fn try_from_spec(value: DataValue) -> Result<Self, &'static str> {
        match value {
            DataValue::INT64(s) => Ok(s),
            _ => Err("DataValue is not a int64"),
        }
    }
}

impl TryFrom<DataValue> for Vec<String> {
    type Error = &'static str;

    fn try_from(value: DataValue) -> (r: Result<Self, Self::Error>) {
        match value {
            DataValue::STRINGS(s) => Ok(s),
            _ => Err("DataValue is not a float16"),
        }
    }
}

impl vstd::std_specs::convert::TryFromSpecImpl<DataValue> for Vec<String> {
    open spec fn obeys_try_from_spec() -> bool {
        true
    }

    open spec fn try_from_spec(value: DataValue) -> Result<Self, &'static str> {
        match value {
            DataValue::STRINGS(s) => Ok(s),
            _ => Err("DataValue is not a float16"),
        }
    }
}

impl TryFrom<DataValue> for Vec<u8> {
    type Error = &'static str;

    fn try_from(value: DataValue) -> (r: Result<Self, Self::Error>)
        ensures
            match r {
                Ok(bytes) => model_bytes(value@) == Some(bytes@),
                Err(_) => model_bytes(value@) is None,
            },
    {
        match value {
            DataValue::BYTE(s) => Ok(s),
            DataValue::UINT8(s) => Ok(s),
            DataValue::CHAR(s) => Ok(slice_to_vec(s.as_str().as_bytes())),
            _ => Err("DataValue is not a uint8 or byte"),
        }
    }
}

impl vstd::std_specs::convert::TryFromSpecImpl<DataValue> for Vec<u8> {
    open spec fn obeys_try_from_spec() -> bool {
        false
    }

    open spec fn try_from_spec(value: DataValue) -> Result<Self, &'static str> {
        Err("DataValue is not a uint8 or byte")
    }
}

/// A copy of a list of texts.
pub fn clone_strings(v: &Vec<String>) -> (r: Vec<String>)
    ensures
        r.deep_view() == v.deep_view(),
{
    let mut out: Vec<String> = Vec::new();
    let mut i: usize = 0;
    while i < v.len()
        invariant
            i <= v@.len(),
            out@.len() == i,
            forall|j: int| 0 <= j < i ==> out@[j]@ == v@[j]@,
        decreases v@.len() - i,
    {
        out.push(v[i].clone());
        i += 1;
    }
    assert(out.deep_view() =~= v.deep_view());
    out
}

/// A copy of a list of byte runs.
pub fn clone_byte_arrays(v: &Vec<Vec<u8>>) -> (r: Vec<Vec<u8>>)
    ensures
        r.deep_view() == v.deep_view(),
{
    let mut out: Vec<Vec<u8>> = Vec::new();
    let mut i: usize = 0;
    while i < v.len()
        invariant
            i <= v@.len(),
            out@.len() == i,
            forall|j: int| 0 <= j < i ==> out@[j]@ == v@[j]@,
        decreases v@.len() - i,
    {
        out.push(v[i].clone());
        i += 1;
    }
    assert(out.deep_view() =~= v.deep_view());
    out
}

/// Whether the member `b` has the name of the member `a` and holds what it
/// holds.
pub open spec fn same_member(a: (String, DataValue), b: (String, DataValue)) -> bool
    decreases a, 0nat,
{
    a.0@ == b.0@ && same_value(a.1, b.1)
}

/// Whether `b` holds what `a` holds: the same elements, or, for a
/// structure, as many members, each with the same name and holding the
/// same as the member of `a` at its place.
pub open spec fn same_value(a: DataValue, b: DataValue) -> bool
    decreases a, 1nat,
{
    match a {
        DataValue::STRUCT(m) => b is STRUCT && m@.len() == b->STRUCT_0@.len() && forall|i: int|
            0 <= i < m@.len() ==> #[trigger] same_member(m@[i], b->STRUCT_0@[i]),
        _ => a@ == b@,
    }
}

/// Whether the value `c` holds what the model `m` says: the same elements,
/// or, for a structure, as many members, each with the name and holding
/// the same as the member of `m` at its place.
pub open spec fn holds_model(m: DataModel, c: DataValue) -> bool {
    match m {
        DataModel::Struct(members) => c is STRUCT && members.len() == c->STRUCT_0@.len()
            && forall|i: int|
            0 <= i < members.len() ==> (#[trigger] members[i]).0 == c->STRUCT_0@[i].0@
                && same_value(members[i].1, c->STRUCT_0@[i].1),
        _ => m == c@,
    }
}

/// Structures whose members hold the same, place by place, hold the same.
proof fn lemma_same_members(a: Vec<(String, DataValue)>, b: Vec<(String, DataValue)>)
    requires
        a@.len() == b@.len(),
        forall|i: int| 0 <= i < a@.len() ==> #[trigger] same_member(a@[i], b@[i]),
    ensures
        same_value(DataValue::STRUCT(a), DataValue::STRUCT(b)),
{
    assert forall|i: int| 0 <= i < a@.len() implies a@[i].0@ == b@[i].0@ && same_value(
        a@[i].1,
        b@[i].1,
    ) by {
        assert(same_member(a@[i], b@[i]));
    }
    reveal_with_fuel(same_value, 2);
    reveal_with_fuel(same_member, 2);
}

/// A copy of a value. The members of a structure are copied in their order
/// and under their names.
pub fn clone_value(value: &DataValue) -> (r: DataValue)
    ensures
        same_value(*value, r),
        holds_model(value@, r),
        !(value is STRUCT) ==> r@ == value@,
        value is STRUCT ==> r is STRUCT && r.spec_len() == value.spec_len(),
    decreases value,
{
    match value {
        DataValue::CHAR(s) => DataValue::CHAR(s.clone()),
        DataValue::STRINGS(v) => DataValue::STRINGS(clone_strings(v)),
        DataValue::BYTE(v) => DataValue::BYTE(v.clone()),
        DataValue::UINT64(v) => DataValue::UINT64(v.clone()),
        DataValue::UINT8(v) => DataValue::UINT8(v.clone()),
        DataValue::INT8(v) => DataValue::INT8(v.clone()),
        DataValue::INT16(v) => DataValue::INT16(v.clone()),
        DataValue::UINT16(v) => DataValue::UINT16(v.clone()),
        DataValue::INT32(v) => DataValue::INT32(v.clone()),
        DataValue::UINT32(v) => DataValue::UINT32(v.clone()),
        DataValue::INT64(v) => DataValue::INT64(v.clone()),
        DataValue::REAL(v) => DataValue::REAL(v.clone()),
        DataValue::SINGLE(v) => DataValue::SINGLE(v.clone()),
        DataValue::FLOAT16(v) => DataValue::FLOAT16(v.clone()),
        DataValue::STRUCT(v) => {
            let mut out: Vec<(String, DataValue)> = Vec::new();
            let mut i: usize = 0;
            while i < v.len()
                invariant
                    i <= v@.len(),
                    out@.len() == i,
                    value == DataValue::STRUCT(*v),
                    forall|j: int| 0 <= j < i ==> #[trigger] same_member(v@[j], out@[j]),
                decreases v@.len() - i,
            {
                let name: String = v[i].0.clone();
                proof {
                    assert(*v == value->STRUCT_0);
                    assert(decreases_to!(value => value->STRUCT_0));
                    assert(decreases_to!(v => v[i as int]));
                    assert(decreases_to!(v[i as int] => v[i as int].1));
                    assert(decreases_to!(value => v[i as int].1));
                }
                let member: DataValue = clone_value(&v[i].1);
                let ghost before = out@;
                out.push((name, member));
                proof {
                    assert(same_member(v@[i as int], out@[i as int]));
                    assert forall|j: int| 0 <= j < i + 1 implies #[trigger] same_member(
                        v@[j],
                        out@[j],
                    ) by {
                        if j < i {
                            assert(out@[j] == before[j]);
                        }
                    }
                }
                i += 1;
            }
            let r = DataValue::STRUCT(out);
            proof {
                assert(r->STRUCT_0@.len() == v@.len());
                assert forall|j: int| 0 <= j < v@.len() implies #[trigger] same_member(
                    v@[j],
                    r->STRUCT_0@[j],
                ) by {}
                lemma_same_members(*v, r->STRUCT_0);
                assert forall|j: int| 0 <= j < value@->Struct_0.len() implies (
                #[trigger] value@->Struct_0[j]).0 == r->STRUCT_0@[j].0@ && same_value(
                    value@->Struct_0[j].1,
                    r->STRUCT_0@[j].1,
                ) by {
                    assert(same_member(v@[j], r->STRUCT_0@[j]));
                }
            }
            r
        },
        DataValue::BYTEARRAY(v) => DataValue::BYTEARRAY(clone_byte_arrays(v)),
        DataValue::MIXED(v) => {
            let mut out: Vec<StringOrReal> = Vec::new();
            let mut i: usize = 0;
            while i < v.len()
                invariant
                    i <= v@.len(),
                    out@.len() == i,
                    forall|j: int| 0 <= j < i ==> out@[j]@ == v@[j]@,
                decreases v@.len() - i,
            {
                out.push(v[i].clone());
                i += 1;
            }
            let r = DataValue::MIXED(out);
            assert(r@ =~= value@) by {
                assert(r@->Mixed_0 =~= value@->Mixed_0);
            }
            r
        },
    }
}

impl Clone for DataValue {
    fn clone(&self) -> (r: Self)
        ensures
            same_value(*self, r),
            holds_model(self@, r),
            !(self is STRUCT) ==> r@ == self@,
            self is STRUCT ==> r is STRUCT && r.spec_len() == self.spec_len(),
    {
        clone_value(self)
    }
}

} // verus!
