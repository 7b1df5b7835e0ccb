//! The fixed-capacity `heapless` containers that the logger works with: the
//! 512-byte block buffer and the 32-byte file name. Their contents are named
//! by `block_bytes` and `name_bytes`; every method the library calls has a
//! wrapper here whose contract restates what `heapless` 0.8 does.
use vstd::prelude::*;
use vstd::string::StringSliceAdditionalSpecFns;

verus! {

/// Capacity of one log block buffer, in bytes.
pub const LOG_BLOCK_CAPACITY: usize = 512;

/// Capacity of a file name, in bytes.
pub const FILE_NAME_CAPACITY: usize = 32;

#[verifier::external_type_specification]
#[verifier::external_body]
#[verifier::reject_recursive_types(T)]
pub struct ExHeaplessVec<T, const N: usize>(heapless::Vec<T, N>);

#[verifier::external_type_specification]
#[verifier::external_body]
pub struct ExHeaplessString<const N: usize>(heapless::String<N>);

/// The bytes held by a log block buffer, in order.
pub uninterp spec fn block_bytes(v: heapless::Vec<u8, LOG_BLOCK_CAPACITY>) -> Seq<u8>;

/// The UTF-8 bytes of a file name, in order.
pub uninterp spec fn name_bytes(s: heapless::String<FILE_NAME_CAPACITY>) -> Seq<u8>;

/// `heapless::Vec::new`: an empty buffer.
#[verifier::external_body]
pub(crate) fn block_new() -> (v: heapless::Vec<u8, LOG_BLOCK_CAPACITY>)
    ensures
        block_bytes(v) == Seq::<u8>::empty(),
{
    heapless::Vec::new()
}

/// `heapless::Vec::extend_from_slice`: appends all of `other` when the
/// result fits in the capacity; otherwise changes nothing and fails.
#[verifier::external_body]
pub(crate) fn block_extend(v: &mut heapless::Vec<u8, LOG_BLOCK_CAPACITY>, other: &[u8]) -> (r: Result<(), ()>)
    ensures
        block_bytes(*old(v)).len() + other@.len() <= LOG_BLOCK_CAPACITY ==> r is Ok && block_bytes(*final(v)) == block_bytes(*old(v)) + other@,
        block_bytes(*old(v)).len() + other@.len() > LOG_BLOCK_CAPACITY ==> r is Err && block_bytes(*final(v)) == block_bytes(*old(v)),
{
    v.extend_from_slice(other)
}

/// `heapless::Vec::as_slice`: the bytes held, as a slice.
#[verifier::external_body]
pub(crate) fn block_as_slice(v: &heapless::Vec<u8, LOG_BLOCK_CAPACITY>) -> (s: &[u8])
    ensures
        s@ == block_bytes(*v),
{
    v.as_slice()
}

/// `heapless::String::new`: an empty name.
#[verifier::external_body]
pub(crate) fn name_new() -> (s: heapless::String<FILE_NAME_CAPACITY>)
    ensures
        name_bytes(s) == Seq::<u8>::empty(),
{
    heapless::String::new()
}

/// `heapless::String::push_str`: appends the bytes of `t` when the result
/// fits in the capacity; otherwise changes nothing and fails.
#[verifier::external_body]
pub(crate) fn name_push_str(s: &mut heapless::String<FILE_NAME_CAPACITY>, t: &str) -> (r: Result<(), ()>)
    ensures
        name_bytes(*old(s)).len() + t.spec_bytes().len() <= FILE_NAME_CAPACITY ==> r is Ok && name_bytes(*final(s)) == name_bytes(*old(s)) + t.spec_bytes(),
        name_bytes(*old(s)).len() + t.spec_bytes().len() > FILE_NAME_CAPACITY ==> r is Err && name_bytes(*final(s)) == name_bytes(*old(s)),
{
    s.push_str(t)
}

/// `heapless::String::push` of an ASCII character: appends its one byte
/// when there is room; otherwise changes nothing and fails.
#[verifier::external_body]
pub(crate) fn name_push_ascii(s: &mut heapless::String<FILE_NAME_CAPACITY>, c: char) -> (r: Result<(), ()>)
    requires
        (c as u32) < 128,
    ensures
        name_bytes(*old(s)).len() < FILE_NAME_CAPACITY ==> r is Ok && name_bytes(*final(s)) == name_bytes(*old(s)).push(c as u8),
        name_bytes(*old(s)).len() >= FILE_NAME_CAPACITY ==> r is Err && name_bytes(*final(s)) == name_bytes(*old(s)),
{
    s.push(c)
}

/// `heapless::String::as_str`: the name as a string slice.
#[verifier::external_body]
pub(crate) fn name_as_str(s: &heapless::String<FILE_NAME_CAPACITY>) -> (t: &str)
    ensures
        t.spec_bytes() == name_bytes(*s),
{
    s.as_str()
}

} // verus!
