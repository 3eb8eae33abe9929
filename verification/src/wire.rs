//! The binary wire primitives: little-endian integers of fixed width, single-byte
//! booleans and length-prefixed UTF-8 strings.
//!
//! The byte-level work is done by `borsh`. Each call into it stands behind a small
//! function whose contract states, over [`le_nat`] and [`le_bytes`], what the call
//! reads or writes. Those contracts are believed, not proved; everything else in
//! this module is verified.
use borsh::BorshDeserialize;
use borsh::BorshSerialize;
use vstd::prelude::*;
use vstd::string::*;
use vstd::utf8::*;

verus! {

/// The error type of `borsh`'s readers and writers. Its content is never inspected:
/// the codec decides which of its own errors to report from the bytes themselves.
#[verifier::external_type_specification]
#[verifier::external_body]
pub struct ExIoError(std::io::Error);

/// `256` to the power `w`: the number of values that `w` bytes can hold.
pub open spec fn pow256(w: nat) -> nat
    decreases w,
{
    if w == 0 {
        1
    } else {
        256 * pow256((w - 1) as nat)
    }
}

/// The number that a sequence of bytes denotes in little-endian order.
pub open spec fn le_nat(b: Seq<u8>) -> nat
    decreases b.len(),
{
    if b.len() == 0 {
        0
    } else {
        b[0] as nat + 256 * le_nat(b.skip(1))
    }
}

/// The `w` low-order bytes of `n`, least significant first.
pub open spec fn le_bytes(n: nat, w: nat) -> Seq<u8>
    decreases w,
{
    if w == 0 {
        Seq::empty()
    } else {
        seq![(n % 256) as u8] + le_bytes(n / 256, (w - 1) as nat)
    }
}

/// The unsigned number whose `w` bytes are the two's complement form of `v`.
pub open spec fn twos(v: int, w: nat) -> nat {
    if v >= 0 {
        v as nat
    } else {
        (v + pow256(w)) as nat
    }
}

/// The signed number that the `w`-byte unsigned number `n` stands for in two's
/// complement.
pub open spec fn from_twos(n: nat, w: nat) -> int {
    if 2 * n < pow256(w) {
        n as int
    } else {
        n - pow256(w)
    }
}

/// What a length-prefixed string occupies at the front of `b`: the `u32` length and
/// that many bytes.
pub open spec fn string_frame_len(b: Seq<u8>) -> nat {
    4 + le_nat(b.take(4))
}

/// The bytes of the string that starts `b`, without the length prefix.
pub open spec fn string_payload(b: Seq<u8>) -> Seq<u8> {
    b.subrange(4, string_frame_len(b) as int)
}

/// Whether `b` starts with a complete length-prefixed string of valid UTF-8.
pub open spec fn string_frame_ok(b: Seq<u8>) -> bool {
    &&& b.len() >= 4
    &&& b.len() >= string_frame_len(b)
    &&& valid_utf8(string_payload(b))
}

/// The number of values of one, two, four, eight and sixteen bytes.
pub proof fn lemma_pow256_values()
    ensures
        pow256(0) == 1,
        pow256(1) == 0x100,
        pow256(2) == 0x1_0000,
        pow256(4) == 0x1_0000_0000,
        pow256(8) == 0x1_0000_0000_0000_0000,
        pow256(16) == 0x1_0000_0000_0000_0000_0000_0000_0000_0000,
{
    reveal_with_fuel(pow256, 17);
}

/// A number written in `w` bytes takes `w` bytes.
pub proof fn lemma_le_bytes_len(n: nat, w: nat)
    ensures
        le_bytes(n, w).len() == w,
    decreases w,
{
    if w > 0 {
        lemma_le_bytes_len(n / 256, (w - 1) as nat);
    }
}

/// A sequence of `w` bytes denotes a number below `256^w`.
pub proof fn lemma_le_nat_bound(b: Seq<u8>)
    ensures
        le_nat(b) < pow256(b.len()),
    decreases b.len(),
{
    if b.len() > 0 {
        lemma_le_nat_bound(b.skip(1));
    }
}

/// Reading back what was written gives the number, as long as it fits the width.
pub proof fn lemma_le_nat_of_le_bytes(n: nat, w: nat)
    requires
        n < pow256(w),
    ensures
        le_nat(le_bytes(n, w)) == n,
    decreases w,
{
    if w > 0 {
        let rest = le_bytes(n / 256, (w - 1) as nat);
        let b = le_bytes(n, w);
        lemma_le_nat_of_le_bytes(n / 256, (w - 1) as nat);
        assert(b.skip(1) =~= rest);
        assert(b[0] == (n % 256) as u8);
    }
}

/// Two's complement loses nothing within the range of a `w`-byte signed integer.
pub proof fn lemma_from_twos_of_twos(v: int, w: nat)
    requires
        -(pow256(w) as int) <= 2 * v < pow256(w),
    ensures
        twos(v, w) < pow256(w),
        from_twos(twos(v, w), w) == v,
{
}

/// Reads one `u8` with `borsh`'s `BorshDeserialize::deserialize`. It succeeds exactly
/// when one byte is left, returns that byte and moves the cursor past it.
#[verifier::external_body]
pub(crate) fn read_u8(buf: &mut &[u8]) -> (r: Result<u8, std::io::Error>)
    ensures
        r is Ok <==> old(buf)@.len() >= 1,
        r matches Ok(v) ==> v as nat == le_nat(old(buf)@.take(1)) && final(buf)@ == old(buf)@.skip(
            1,
        ),
{
    u8::deserialize(buf)
}

/// Reads one `u16` with `borsh`'s `BorshDeserialize::deserialize`. It succeeds exactly
/// when two bytes are left, returns the number they denote in little-endian order and
/// moves the cursor past them.
#[verifier::external_body]
pub(crate) fn read_u16(buf: &mut &[u8]) -> (r: Result<u16, std::io::Error>)
    ensures
        r is Ok <==> old(buf)@.len() >= 2,
        r matches Ok(v) ==> v as nat == le_nat(old(buf)@.take(2)) && final(buf)@ == old(buf)@.skip(
            2,
        ),
{
    u16::deserialize(buf)
}

/// Reads one `u32` with `borsh`'s `BorshDeserialize::deserialize`. It succeeds exactly
/// when four bytes are left, returns the number they denote in little-endian order and
/// moves the cursor past them.
#[verifier::external_body]
pub(crate) fn read_u32(buf: &mut &[u8]) -> (r: Result<u32, std::io::Error>)
    ensures
        r is Ok <==> old(buf)@.len() >= 4,
        r matches Ok(v) ==> v as nat == le_nat(old(buf)@.take(4)) && final(buf)@ == old(buf)@.skip(
            4,
        ),
{
    u32::deserialize(buf)
}

/// Reads one `u64` with `borsh`'s `BorshDeserialize::deserialize`. It succeeds exactly
/// when eight bytes are left, returns the number they denote in little-endian order
/// and moves the cursor past them.
#[verifier::external_body]
pub(crate) fn read_u64(buf: &mut &[u8]) -> (r: Result<u64, std::io::Error>)
    ensures
        r is Ok <==> old(buf)@.len() >= 8,
        r matches Ok(v) ==> v as nat == le_nat(old(buf)@.take(8)) && final(buf)@ == old(buf)@.skip(
            8,
        ),
{
    u64::deserialize(buf)
}

/// Reads one `u128` with `borsh`'s `BorshDeserialize::deserialize`. It succeeds exactly
/// when sixteen bytes are left, returns the number they denote in little-endian order
/// and moves the cursor past them.
#[verifier::external_body]
pub(crate) fn read_u128(buf: &mut &[u8]) -> (r: Result<u128, std::io::Error>)
    ensures
        r is Ok <==> old(buf)@.len() >= 16,
        r matches Ok(v) ==> v as nat == le_nat(old(buf)@.take(16)) && final(buf)@ == old(
            buf,
        )@.skip(16),
{
    u128::deserialize(buf)
}

/// Reads one `i8` with `borsh`'s `BorshDeserialize::deserialize`. It succeeds exactly
/// when one byte is left, returns the two's complement number it denotes and moves the
/// cursor past it.
#[verifier::external_body]
pub(crate) fn read_i8(buf: &mut &[u8]) -> (r: Result<i8, std::io::Error>)
    ensures
        r is Ok <==> old(buf)@.len() >= 1,
        r matches Ok(v) ==> v as int == from_twos(le_nat(old(buf)@.take(1)), 1) && final(buf)@
            == old(buf)@.skip(1),
{
    i8::deserialize(buf)
}

/// Reads one `i16` with `borsh`'s `BorshDeserialize::deserialize`. It succeeds exactly
/// when two bytes are left, returns the little-endian two's complement number they
/// denote and moves the cursor past them.
#[verifier::external_body]
pub(crate) fn read_i16(buf: &mut &[u8]) -> (r: Result<i16, std::io::Error>)
    ensures
        r is Ok <==> old(buf)@.len() >= 2,
        r matches Ok(v) ==> v as int == from_twos(le_nat(old(buf)@.take(2)), 2) && final(buf)@
            == old(buf)@.skip(2),
{
    i16::deserialize(buf)
}

/// Reads one `i32` with `borsh`'s `BorshDeserialize::deserialize`. It succeeds exactly
/// when four bytes are left, returns the little-endian two's complement number they
/// denote and moves the cursor past them.
#[verifier::external_body]
pub(crate) fn read_i32(buf: &mut &[u8]) -> (r: Result<i32, std::io::Error>)
    ensures
        r is Ok <==> old(buf)@.len() >= 4,
        r matches Ok(v) ==> v as int == from_twos(le_nat(old(buf)@.take(4)), 4) && final(buf)@
            == old(buf)@.skip(4),
{
    i32::deserialize(buf)
}

/// Reads one `i64` with `borsh`'s `BorshDeserialize::deserialize`. It succeeds exactly
/// when eight bytes are left, returns the little-endian two's complement number they
/// denote and moves the cursor past them.
#[verifier::external_body]
pub(crate) fn read_i64(buf: &mut &[u8]) -> (r: Result<i64, std::io::Error>)
    ensures
        r is Ok <==> old(buf)@.len() >= 8,
        r matches Ok(v) ==> v as int == from_twos(le_nat(old(buf)@.take(8)), 8) && final(buf)@
            == old(buf)@.skip(8),
{
    i64::deserialize(buf)
}

/// Reads one `i128` with `borsh`'s `BorshDeserialize::deserialize`. It succeeds exactly
/// when sixteen bytes are left, returns the little-endian two's complement number they
/// denote and moves the cursor past them.
#[verifier::external_body]
pub(crate) fn read_i128(buf: &mut &[u8]) -> (r: Result<i128, std::io::Error>)
    ensures
        r is Ok <==> old(buf)@.len() >= 16,
        r matches Ok(v) ==> v as int == from_twos(le_nat(old(buf)@.take(16)), 16) && final(buf)@
            == old(buf)@.skip(16),
{
    i128::deserialize(buf)
}

/// Reads one `bool` with `borsh`'s `BorshDeserialize::deserialize`. It succeeds exactly
/// when a byte is left and that byte is `0` or `1`; the result is `true` for `1`, and
/// the cursor moves past the byte.
#[verifier::external_body]
pub(crate) fn read_bool(buf: &mut &[u8]) -> (r: Result<bool, std::io::Error>)
    ensures
        r is Ok <==> old(buf)@.len() >= 1 && old(buf)@[0] <= 1,
        r matches Ok(v) ==> v == (old(buf)@[0] == 1) && final(buf)@ == old(buf)@.skip(1),
{
    bool::deserialize(buf)
}

/// Reads one `String` with `borsh`'s `BorshDeserialize::deserialize`: a `u32` length in
/// little-endian order, then that many bytes, which must be valid UTF-8. It succeeds
/// exactly when the buffer starts with such a frame; the string's UTF-8 bytes are the
/// frame's payload, and the cursor moves past the frame.
#[verifier::external_body]
pub(crate) fn read_string(buf: &mut &[u8]) -> (r: Result<String, std::io::Error>)
    ensures
        r is Ok <==> string_frame_ok(old(buf)@),
        r matches Ok(s) ==> encode_utf8(s@) == string_payload(old(buf)@) && final(buf)@ == old(
            buf,
        )@.skip(string_frame_len(old(buf)@) as int),
{
    String::deserialize(buf)
}

/// Appends one `u8` with `borsh`'s `BorshSerialize::serialize`. Writing into a `Vec<u8>`
/// cannot fail, so the outcome of the call is dropped.
#[verifier::external_body]
pub(crate) fn write_u8(out: &mut Vec<u8>, v: u8)
    ensures
        final(out)@ == old(out)@ + le_bytes(v as nat, 1),
{
    let _ = v.serialize(out);
}

/// Appends the two little-endian bytes of a `u16` with `borsh`'s
/// `BorshSerialize::serialize`. Writing into a `Vec<u8>` cannot fail.
#[verifier::external_body]
pub(crate) fn write_u16(out: &mut Vec<u8>, v: u16)
    ensures
        final(out)@ == old(out)@ + le_bytes(v as nat, 2),
{
    let _ = v.serialize(out);
}

/// Appends the four little-endian bytes of a `u32` with `borsh`'s
/// `BorshSerialize::serialize`. Writing into a `Vec<u8>` cannot fail.
#[verifier::external_body]
pub(crate) fn write_u32(out: &mut Vec<u8>, v: u32)
    ensures
        final(out)@ == old(out)@ + le_bytes(v as nat, 4),
{
    let _ = v.serialize(out);
}

/// Appends the eight little-endian bytes of a `u64` with `borsh`'s
/// `BorshSerialize::serialize`. Writing into a `Vec<u8>` cannot fail.
#[verifier::external_body]
pub(crate) fn write_u64(out: &mut Vec<u8>, v: u64)
    ensures
        final(out)@ == old(out)@ + le_bytes(v as nat, 8),
{
    let _ = v.serialize(out);
}

/// Appends the two's complement byte of an `i8` with `borsh`'s
/// `BorshSerialize::serialize`. Writing into a `Vec<u8>` cannot fail.
#[verifier::external_body]
pub(crate) fn write_i8(out: &mut Vec<u8>, v: i8)
    ensures
        final(out)@ == old(out)@ + le_bytes(twos(v as int, 1), 1),
{
    let _ = v.serialize(out);
}

/// Appends the two little-endian two's complement bytes of an `i16` with `borsh`'s
/// `BorshSerialize::serialize`. Writing into a `Vec<u8>` cannot fail.
#[verifier::external_body]
pub(crate) fn write_i16(out: &mut Vec<u8>, v: i16)
    ensures
        final(out)@ == old(out)@ + le_bytes(twos(v as int, 2), 2),
{
    let _ = v.serialize(out);
}

/// Appends the four little-endian two's complement bytes of an `i32` with `borsh`'s
/// `BorshSerialize::serialize`. Writing into a `Vec<u8>` cannot fail.
#[verifier::external_body]
pub(crate) fn write_i32(out: &mut Vec<u8>, v: i32)
    ensures
        final(out)@ == old(out)@ + le_bytes(twos(v as int, 4), 4),
{
    let _ = v.serialize(out);
}

/// Appends the eight little-endian two's complement bytes of an `i64` with `borsh`'s
/// `BorshSerialize::serialize`. Writing into a `Vec<u8>` cannot fail.
#[verifier::external_body]
pub(crate) fn write_i64(out: &mut Vec<u8>, v: i64)
    ensures
        final(out)@ == old(out)@ + le_bytes(twos(v as int, 8), 8),
{
    let _ = v.serialize(out);
}

/// Appends one `bool` with `borsh`'s `BorshSerialize::serialize`: the byte `1` for
/// `true`, `0` for `false`. Writing into a `Vec<u8>` cannot fail.
#[verifier::external_body]
pub(crate) fn write_bool(out: &mut Vec<u8>, v: bool)
    ensures
        final(out)@ == old(out)@ + seq![if v { 1u8 } else { 0u8 }],
{
    let _ = v.serialize(out);
}

/// Appends one string with `borsh`'s `BorshSerialize::serialize`: the number of its
/// UTF-8 bytes as a little-endian `u32`, then the bytes. `borsh` refuses a string
/// whose length does not fit a `u32` before it writes anything.
#[verifier::external_body]
pub(crate) fn write_string(out: &mut Vec<u8>, s: &str) -> (r: Result<(), std::io::Error>)
    ensures
        r is Ok <==> encode_utf8(s@).len() <= u32::MAX,
        r is Ok ==> final(out)@ == old(out)@ + le_bytes(encode_utf8(s@).len(), 4) + encode_utf8(
            s@,
        ),
        r is Err ==> final(out)@ == old(out)@,
{
    s.serialize(out)
}

/// The widths, in bytes, that a length prefix or an enum tag may have on the wire.
pub open spec fn is_prefix_width(width: u8) -> bool {
    width == 1 || width == 2 || width == 4 || width == 8
}

/// Reads an unsigned little-endian number of `width` bytes. It succeeds exactly when
/// that many bytes are left.
pub(crate) fn read_prefix(buf: &mut &[u8], width: u8) -> (r: Result<u64, std::io::Error>)
    requires
        is_prefix_width(width),
    ensures
        r is Ok <==> old(buf)@.len() >= width,
        r matches Ok(n) ==> n as nat == le_nat(old(buf)@.take(width as int)) && final(buf)@ == old(
            buf,
        )@.skip(width as int),
{
    if width == 1 {
        match read_u8(buf) {
            Ok(v) => Ok(v as u64),
            Err(e) => Err(e),
        }
    } else if width == 2 {
        match read_u16(buf) {
            Ok(v) => Ok(v as u64),
            Err(e) => Err(e),
        }
    } else if width == 4 {
        match read_u32(buf) {
            Ok(v) => Ok(v as u64),
            Err(e) => Err(e),
        }
    } else {
        read_u64(buf)
    }
}

/// Appends `n` as an unsigned little-endian number of `width` bytes.
pub(crate) fn write_prefix(out: &mut Vec<u8>, n: u64, width: u8)
    requires
        is_prefix_width(width),
        n < pow256(width as nat),
    ensures
        final(out)@ == old(out)@ + le_bytes(n as nat, width as nat),
{
    proof {
        lemma_pow256_values();
    }
    if width == 1 {
        write_u8(out, n as u8);
    } else if width == 2 {
        write_u16(out, n as u16);
    } else if width == 4 {
        write_u32(out, n as u32);
    } else {
        write_u64(out, n);
    }
}

/// Whether `n` can be written in `width` bytes.
pub(crate) fn fits_width(n: u64, width: u8) -> (r: bool)
    requires
        is_prefix_width(width),
    ensures
        r == (n < pow256(width as nat)),
{
    proof {
        lemma_pow256_values();
    }
    if width == 1 {
        n <= 0xff
    } else if width == 2 {
        n <= 0xffff
    } else if width == 4 {
        n <= 0xffff_ffff
    } else {
        true
    }
}

} // verus!
