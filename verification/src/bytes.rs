//! Fixed-width integers as bytes, in either byte order.
//!
//! Feature vectors are little-endian. The files of a store are written in
//! the byte order they were opened with, which is that of the machine
//! unless the caller names one. UUIDs keep the big-endian field order of
//! their textual form.

use vstd::prelude::*;
use byteorder::ByteOrder;

verus! {

/// The order in which the bytes of a stored integer come.
#[derive(Clone, Copy, Debug, PartialEq, Eq, Structural)]
pub enum Endian {
    /// Least significant byte first.
    Little,
    /// Most significant byte first.
    Big,
}

/// `256^width`: the number of values that `width` bytes can hold.
pub open spec fn radix(width: nat) -> nat
    decreases width,
{
    if width == 0 {
        1
    } else {
        256 * radix((width - 1) as nat)
    }
}

/// The number that `bytes` spell, least significant byte first.
pub open spec fn le_value(bytes: Seq<u8>) -> nat
    decreases bytes.len(),
{
    if bytes.len() == 0 {
        0
    } else {
        bytes[0] as nat + 256 * le_value(bytes.drop_first())
    }
}

/// The `width` low bytes of `n`, least significant byte first.
pub open spec fn le_bytes(n: nat, width: nat) -> Seq<u8>
    decreases width,
{
    if width == 0 {
        Seq::empty()
    } else {
        seq![(n % 256) as u8] + le_bytes(n / 256, (width - 1) as nat)
    }
}

/// The number that `bytes` spell, most significant byte first.
pub open spec fn be_value(bytes: Seq<u8>) -> nat {
    le_value(bytes.reverse())
}

/// The `width` low bytes of `n`, most significant byte first.
pub open spec fn be_bytes(n: nat, width: nat) -> Seq<u8> {
    le_bytes(n, width).reverse()
}

/// The number that `bytes` spell in the given byte order.
pub open spec fn uint_value(order: Endian, bytes: Seq<u8>) -> nat {
    match order {
        Endian::Little => le_value(bytes),
        Endian::Big => be_value(bytes),
    }
}

/// The `width` low bytes of `n` in the given byte order.
pub open spec fn uint_bytes(order: Endian, n: nat, width: nat) -> Seq<u8> {
    match order {
        Endian::Little => le_bytes(n, width),
        Endian::Big => be_bytes(n, width),
    }
}

/// The number of values that one, two, four, eight and sixteen bytes hold.
pub proof fn lemma_radix_values()
    ensures
        radix(0) == 1,
        radix(1) == 0x100,
        radix(2) == 0x1_0000,
        radix(4) == 0x1_0000_0000,
        radix(8) == 0x1_0000_0000_0000_0000,
        radix(16) == 0x1_0000_0000_0000_0000_0000_0000_0000_0000,
{
    reveal_with_fuel(radix, 17);
}

/// A number written in `width` bytes takes `width` bytes.
pub proof fn lemma_le_bytes_len(n: nat, width: nat)
    ensures
        le_bytes(n, width).len() == width,
    decreases width,
{
    if width > 0 {
        lemma_le_bytes_len(n / 256, (width - 1) as nat);
    }
}

/// A number read from `bytes` fits in as many bytes.
pub proof fn lemma_le_value_bound(bytes: Seq<u8>)
    ensures
        le_value(bytes) < radix(bytes.len()),
    decreases bytes.len(),
{
    if bytes.len() > 0 {
        lemma_le_value_bound(bytes.drop_first());
    }
}

/// Writing a number that fits and reading it back gives the number.
pub proof fn lemma_le_value_of_bytes(n: nat, width: nat)
    requires
        n < radix(width),
    ensures
        le_value(le_bytes(n, width)) == n,
    decreases width,
{
    if width > 0 {
        let rest = le_bytes(n / 256, (width - 1) as nat);
        let whole = le_bytes(n, width);
        lemma_le_bytes_len(n / 256, (width - 1) as nat);
        assert(whole.drop_first() =~= rest);
        assert(n / 256 < radix((width - 1) as nat)) by (nonlinear_arith)
            requires
                n < 256 * radix((width - 1) as nat),
        ;
        lemma_le_value_of_bytes(n / 256, (width - 1) as nat);
        assert(n == n % 256 + 256 * (n / 256)) by (nonlinear_arith);
    }
}

/// Writing a number that fits most significant byte first and reading it
/// back gives the number.
pub proof fn lemma_be_value_of_bytes(n: nat, width: nat)
    requires
        n < radix(width),
    ensures
        be_value(be_bytes(n, width)) == n,
        be_bytes(n, width).len() == width,
{
    lemma_le_value_of_bytes(n, width);
    lemma_le_bytes_len(n, width);
    assert(le_bytes(n, width).reverse().reverse() =~= le_bytes(n, width));
}

/// In either byte order, writing a number that fits and reading it back
/// gives the number.
pub proof fn lemma_uint_value_of_bytes(order: Endian, n: nat, width: nat)
    requires
        n < radix(width),
    ensures
        uint_value(order, uint_bytes(order, n, width)) == n,
        uint_bytes(order, n, width).len() == width,
{
    lemma_le_value_of_bytes(n, width);
    lemma_le_bytes_len(n, width);
    lemma_be_value_of_bytes(n, width);
}

/// In either byte order, a number read from `bytes` fits in as many bytes.
pub proof fn lemma_uint_value_bound(order: Endian, bytes: Seq<u8>)
    ensures
        uint_value(order, bytes) < radix(bytes.len()),
{
    lemma_le_value_bound(bytes);
    lemma_le_value_bound(bytes.reverse());
}

/// Reads the `width`-byte little-endian integer that starts at `at`.
///
/// Trusted: `byteorder::LittleEndian::read_uint` on the tail of `buf` that
/// begins at `at`. It copies `width` bytes into the low end of a `u64` and
/// panics unless `1 <= width <= 8` and the bytes are there.
#[verifier::external_body]
pub(crate) fn read_uint(buf: &[u8], at: usize, width: usize) -> (n: u64)
    requires
        1 <= width <= 8,
        at + width <= buf@.len(),
    ensures
        n as nat == le_value(buf@.subrange(at as int, at + width)),
{
    byteorder::LittleEndian::read_uint(&buf[at..], width)
}

/// Writes `n` as a `width`-byte little-endian integer at `at`.
///
/// Trusted: `byteorder::LittleEndian::write_uint` on the tail of `buf` that
/// begins at `at`. It stores the `width` low bytes of `n` and touches nothing
/// else; it panics unless `n` fits in `width <= 8` bytes and the room is
/// there, and so never unwinds on what is admitted here.
#[verifier::external_body]
pub(crate) fn write_uint(buf: &mut Vec<u8>, at: usize, n: u64, width: usize)
    requires
        1 <= width <= 8,
        at + width <= old(buf)@.len(),
        (n as nat) < radix(width as nat),
    ensures
        final(buf)@.len() == old(buf)@.len(),
        final(buf)@.subrange(at as int, at + width) == le_bytes(n as nat, width as nat),
        forall|i: int|
            0 <= i < old(buf)@.len() && !(at <= i < at + width) ==> final(buf)@[i] == old(buf)@[i],
    no_unwind
{
    byteorder::LittleEndian::write_uint(&mut buf[at..], n, width)
}

/// Reads the `width`-byte big-endian integer that starts at `at`.
///
/// Trusted: `byteorder::BigEndian::read_uint` on the tail of `buf` that
/// begins at `at`. It copies `width` bytes into the high end of a zeroed
/// big-endian `u64` and panics unless `1 <= width <= 8` and the bytes are
/// there.
#[verifier::external_body]
pub(crate) fn read_uint_be(buf: &[u8], at: usize, width: usize) -> (n: u64)
    requires
        1 <= width <= 8,
        at + width <= buf@.len(),
    ensures
        n as nat == be_value(buf@.subrange(at as int, at + width)),
{
    byteorder::BigEndian::read_uint(&buf[at..], width)
}

/// Writes `n` as a `width`-byte big-endian integer at `at`.
///
/// Trusted: `byteorder::BigEndian::write_uint` on the tail of `buf` that
/// begins at `at`. It stores the `width` low bytes of `n`, most significant
/// first, and touches nothing else; it panics unless `n` fits in
/// `width <= 8` bytes and the room is there, and so never unwinds on what
/// is admitted here.
#[verifier::external_body]
pub(crate) fn write_uint_be(buf: &mut Vec<u8>, at: usize, n: u64, width: usize)
    requires
        1 <= width <= 8,
        at + width <= old(buf)@.len(),
        (n as nat) < radix(width as nat),
    ensures
        final(buf)@.len() == old(buf)@.len(),
        final(buf)@.subrange(at as int, at + width) == be_bytes(n as nat, width as nat),
        forall|i: int|
            0 <= i < old(buf)@.len() && !(at <= i < at + width) ==> final(buf)@[i] == old(buf)@[i],
    no_unwind
{
    byteorder::BigEndian::write_uint(&mut buf[at..], n, width)
}

/// The two bytes `1, 0` read as a `u16` in the byte order of the machine.
///
/// Trusted: `byteorder::NativeEndian::read_u16`. Nothing is claimed of the
/// result, which differs from machine to machine.
#[verifier::external_body]
fn native_probe() -> u16 {
    byteorder::NativeEndian::read_u16(&[1u8, 0u8])
}

/// The sixteen bytes of a UUID, in the order of its textual form.
///
/// Trusted: `uuid::Uuid::from_u128` followed by `Uuid::as_bytes`. The first
/// stores the number's big-endian bytes, the second hands them out.
#[verifier::external_body]
pub(crate) fn uuid_to_bytes(uuid: u128) -> (bytes: Vec<u8>)
    ensures
        bytes@ == be_bytes(uuid as nat, 16),
{
    uuid::Uuid::from_u128(uuid).as_bytes().to_vec()
}

/// The UUID whose sixteen bytes start at `at`, as a number.
///
/// Trusted: `uuid::Uuid::from_bytes` followed by `Uuid::as_u128`. The first
/// keeps the bytes as they are, the second reads them as one big-endian
/// number.
#[verifier::external_body]
pub(crate) fn uuid_from_bytes(buf: &[u8], at: usize) -> (uuid: u128)
    requires
        at + 16 <= buf@.len(),
    ensures
        uuid as nat == be_value(buf@.subrange(at as int, at + 16)),
{
    let mut bytes = [0u8; 16];
    bytes.copy_from_slice(&buf[at..at + 16]);
    uuid::Uuid::from_bytes(bytes).as_u128()
}

/// The byte order of the machine this runs on.
pub fn native_order() -> Endian {
    if native_probe() == 1 {
        Endian::Little
    } else {
        Endian::Big
    }
}

/// Reads the `width`-byte integer that starts at `at`, in the given byte
/// order.
pub fn read_ordered(order: Endian, buf: &[u8], at: usize, width: usize) -> (n: u64)
    requires
        1 <= width <= 8,
        at + width <= buf@.len(),
    ensures
        n as nat == uint_value(order, buf@.subrange(at as int, at + width)),
{
    match order {
        Endian::Little => read_uint(buf, at, width),
        Endian::Big => read_uint_be(buf, at, width),
    }
}

/// Writes `n` as a `width`-byte integer at `at`, in the given byte order,
/// and touches nothing else.
pub fn write_ordered(order: Endian, buf: &mut Vec<u8>, at: usize, n: u64, width: usize)
    requires
        1 <= width <= 8,
        at + width <= old(buf)@.len(),
        (n as nat) < radix(width as nat),
    ensures
        final(buf)@.len() == old(buf)@.len(),
        final(buf)@.subrange(at as int, at + width) == uint_bytes(order, n as nat, width as nat),
        forall|i: int|
            0 <= i < old(buf)@.len() && !(at <= i < at + width) ==> final(buf)@[i] == old(buf)@[i],
{
    match order {
        Endian::Little => write_uint(buf, at, n, width),
        Endian::Big => write_uint_be(buf, at, n, width),
    }
}

} // verus!
