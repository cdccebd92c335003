//! Numbers in a fixed byte order, and zeroed buffers.

use vstd::prelude::*;
use zerocopy::{AllocError, FromBytes, FromZeros};

use crate::error::Error;

verus! {

/// The error of zerocopy for an allocation that failed.
#[verifier::external_type_specification]
#[verifier::external_body]
pub struct ExAllocError(AllocError);

/// The number that four bytes in big-endian order stand for.
pub open spec fn be_u32(b: Seq<u8>) -> u32 {
    (b[0] * 0x100_0000 + b[1] * 0x1_0000 + b[2] * 0x100 + b[3]) as u32
}

/// A number as four bytes in big-endian order.
pub open spec fn be_u32_seq(v: u32) -> Seq<u8> {
    seq![
        (v / 0x100_0000) as u8,
        (v / 0x1_0000 % 0x100) as u8,
        (v / 0x100 % 0x100) as u8,
        (v % 0x100) as u8,
    ]
}

/// The number that four bytes in little-endian order stand for.
pub open spec fn le_u32(b: Seq<u8>) -> u32 {
    (b[3] * 0x100_0000 + b[2] * 0x1_0000 + b[1] * 0x100 + b[0]) as u32
}

/// A number as four bytes in little-endian order.
pub open spec fn le_u32_seq(v: u32) -> Seq<u8> {
    seq![
        (v % 0x100) as u8,
        (v / 0x100 % 0x100) as u8,
        (v / 0x1_0000 % 0x100) as u8,
        (v / 0x100_0000) as u8,
    ]
}

/// The number that two bytes in big-endian order stand for.
pub open spec fn be_u16(b: Seq<u8>) -> u16 {
    (b[0] * 0x100 + b[1]) as u16
}

/// A number as two bytes in big-endian order.
pub open spec fn be_u16_seq(v: u16) -> Seq<u8> {
    seq![(v / 0x100) as u8, (v % 0x100) as u8]
}

/// Reads `zerocopy::big_endian::U32` with `read_from_bytes`, which fails only on a slice of
/// another size.
#[verifier::external_body]
pub(crate) fn read_be_u32(bytes: &[u8]) -> (v: u32)
    requires
        bytes@.len() == 4,
    ensures
        v == be_u32(bytes@),
{
    zerocopy::big_endian::U32::read_from_bytes(bytes).unwrap().get()
}

/// The bytes of `zerocopy::big_endian::U32`, from `to_bytes`.
#[verifier::external_body]
pub(crate) fn be_u32_bytes(v: u32) -> (bytes: [u8; 4])
    ensures
        bytes@ == be_u32_seq(v),
{
    zerocopy::big_endian::U32::new(v).to_bytes()
}

/// Reads `zerocopy::little_endian::U32` with `read_from_bytes`, which fails only on a slice of
/// another size.
#[verifier::external_body]
pub(crate) fn read_le_u32(bytes: &[u8]) -> (v: u32)
    requires
        bytes@.len() == 4,
    ensures
        v == le_u32(bytes@),
{
    zerocopy::little_endian::U32::read_from_bytes(bytes).unwrap().get()
}

/// The bytes of `zerocopy::little_endian::U32`, from `to_bytes`.
#[verifier::external_body]
pub(crate) fn le_u32_bytes(v: u32) -> (bytes: [u8; 4])
    ensures
        bytes@ == le_u32_seq(v),
{
    zerocopy::little_endian::U32::new(v).to_bytes()
}

/// Reads `zerocopy::big_endian::U16` with `read_from_bytes`, which fails only on a slice of
/// another size.
#[verifier::external_body]
pub(crate) fn read_be_u16(bytes: &[u8]) -> (v: u16)
    requires
        bytes@.len() == 2,
    ensures
        v == be_u16(bytes@),
{
    zerocopy::big_endian::U16::read_from_bytes(bytes).unwrap().get()
}

/// The bytes of `zerocopy::big_endian::U16`, from `to_bytes`.
#[verifier::external_body]
pub(crate) fn be_u16_bytes(v: u16) -> (bytes: [u8; 2])
    ensures
        bytes@ == be_u16_seq(v),
{
    zerocopy::big_endian::U16::new(v).to_bytes()
}

/// Allocates with `zerocopy::FromZeros::new_box_zeroed_with_elems`: `count` zero bytes, or an
/// error if the memory cannot be had.
#[verifier::external_body]
fn new_box_zeroed_bytes(count: usize) -> (r: Result<Vec<u8>, AllocError>)
    ensures
        r matches Ok(v) ==> v@ == Seq::new(count as nat, |i: int| 0u8),
{
    <[u8]>::new_box_zeroed_with_elems(count).map(|b| b.into_vec())
}

/// Allocates with `zerocopy::FromZeros::new_box_zeroed_with_elems`: `count` zero words, or an
/// error if the memory cannot be had.
#[verifier::external_body]
fn new_box_zeroed_words(count: usize) -> (r: Result<Vec<u16>, AllocError>)
    ensures
        r matches Ok(v) ==> v@ == Seq::new(count as nat, |i: int| 0u16),
{
    <[u16]>::new_box_zeroed_with_elems(count).map(|b| b.into_vec())
}

/// A buffer of zero bytes. It fails only for want of memory.
pub fn zeroed_bytes(count: usize) -> (r: Result<Vec<u8>, Error>)
    ensures
        match r {
            Ok(v) => v@ == Seq::new(count as nat, |i: int| 0u8),
            Err(e) => e == Error::OutOfMemory,
        },
{
    match new_box_zeroed_bytes(count) {
        Ok(v) => Ok(v),
        Err(_) => Err(Error::OutOfMemory),
    }
}

/// A buffer of zero words. It fails only for want of memory.
pub fn zeroed_words(count: usize) -> (r: Result<Vec<u16>, Error>)
    ensures
        match r {
            Ok(v) => v@ == Seq::new(count as nat, |i: int| 0u16),
            Err(e) => e == Error::OutOfMemory,
        },
{
    match new_box_zeroed_words(count) {
        Ok(v) => Ok(v),
        Err(_) => Err(Error::OutOfMemory),
    }
}

/// A number in big-endian order reads back as it was written.
pub proof fn law_be_u32_round_trip(v: u32)
    ensures
        be_u32(be_u32_seq(v)) == v,
        be_u32_seq(v).len() == 4,
{
}

/// Four bytes in big-endian order are written as they were read.
#[verifier::rlimit(40)]
pub proof fn law_be_u32_rewrite(b: Seq<u8>)
    requires
        b.len() == 4,
    ensures
        be_u32_seq(be_u32(b)) == b,
{
    let v = be_u32(b) as int;
    let high = b[0] * 0x100 + b[1];
    let middle = high * 0x100 + b[2];
    assert(v == middle * 0x100 + b[3]);
    assert(v / 0x100 == middle && v % 0x100 == b[3]);
    assert(v / 0x1_0000 == high) by {
        assert(v == high * 0x1_0000 + (b[2] * 0x100 + b[3]));
    }
    assert(v / 0x100_0000 == b[0]) by {
        assert(v == b[0] * 0x100_0000 + (b[1] * 0x1_0000 + b[2] * 0x100 + b[3]));
    }
    assert(middle % 0x100 == b[2] && high % 0x100 == b[1]);
    assert(be_u32_seq(be_u32(b)) =~= b);
}

/// A number in little-endian order reads back as it was written.
pub proof fn law_le_u32_round_trip(v: u32)
    ensures
        le_u32(le_u32_seq(v)) == v,
        le_u32_seq(v).len() == 4,
{
}

/// A short number in big-endian order reads back as it was written.
pub proof fn law_be_u16_round_trip(v: u16)
    ensures
        be_u16(be_u16_seq(v)) == v,
        be_u16_seq(v).len() == 2,
{
}

} // verus!
