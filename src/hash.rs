//! The byte mixer: MurmurHash3 (x86, 32-bit variant) with seed 0.
use vstd::prelude::*;
use vstd::string::StringSliceAdditionalSpecFns;

verus! {

/// What `murmur3::murmur3_32` returns for these bytes and seed 0.
pub uninterp spec fn murmur3_x86_32(data: Seq<u8>) -> u32;

#[verifier::external_type_specification]
#[verifier::external_body]
pub struct ExIoError(std::io::Error);

/// Why the mixer gave no digest.
#[derive(Clone, Copy, Debug, PartialEq, Eq, Structural)]
pub enum HashError {
    /// The input holds more than `u32::MAX` bytes, more than the mixer counts.
    InputTooLong,
    /// Reading the input failed inside the mixer; reading bytes held in
    /// memory never does.
    Read,
}

/// Relies on `murmur3::murmur3_32(source, 0)`, reading the slice: it fails only
/// when its reader fails, which reading a byte slice never does; it returns a
/// digest of exactly these bytes, and `finish(0, 0) == 0` for no bytes at all.
/// Its byte counter is a `u32`, hence the bound on the length.
#[verifier::external_body]
fn murmur3_32_seed0(data: &[u8]) -> (r: Result<u32, std::io::Error>)
    requires
        data@.len() <= u32::MAX,
    ensures
        r is Ok,
        r matches Ok(h) ==> h == murmur3_x86_32(data@),
        r matches Ok(h) ==> (data@.len() == 0 ==> h == 0),
{
    let mut source: &[u8] = data;
    murmur3::murmur3_32(&mut source, 0)
}

/// The digest of `data`, or why there is none.
pub fn mix(data: &[u8]) -> (r: Result<u32, HashError>)
    ensures
        data@.len() > u32::MAX ==> r == Err::<u32, HashError>(HashError::InputTooLong),
        data@.len() <= u32::MAX ==> r == Ok::<u32, HashError>(murmur3_x86_32(data@)),
        data@.len() == 0 ==> r == Ok::<u32, HashError>(0),
{
    if data.len() > 0xFFFF_FFFFusize {
        return Err(HashError::InputTooLong);
    }
    match murmur3_32_seed0(data) {
        Ok(h) => Ok(h),
        Err(_) => Err(HashError::Read),
    }
}

/// The digest that `result` holds, with 0 standing for a failure.
pub fn digest_or_zero(result: Result<u32, HashError>) -> (r: u32)
    ensures
        result matches Ok(h) ==> r == h,
        result is Err ==> r == 0,
{
    match result {
        Ok(h) => h,
        Err(_) => 0,
    }
}

/// The digest of the UTF-8 bytes of `input`, with 0 standing for an input too
/// long to hash. A result of 0 is therefore not a sign that the mixer succeeded.
pub fn murmur_hash(input: &str) -> (r: u32)
    ensures
        input.spec_bytes().len() <= u32::MAX ==> r == murmur3_x86_32(input.spec_bytes()),
        input.spec_bytes().len() > u32::MAX ==> r == 0,
        input.spec_bytes().len() == 0 ==> r == 0,
{
    digest_or_zero(mix(input.as_bytes()))
}

} // verus!
