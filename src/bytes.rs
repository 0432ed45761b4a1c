use vstd::prelude::*;

verus! {

/// The error of a byte string of the wrong length.
#[derive(Debug, Clone, Copy, PartialEq, Eq, Structural)]
pub enum LengthError {
    IncorrectLength { expect: usize, actual: usize },
    ExceedsMaximumLength { max_length: usize, actual_length: usize },
}

/// The bytes, which must be exactly `size` of them.
pub fn to_sized(data: &[u8], size: usize) -> (r: Result<Vec<u8>, LengthError>)
    ensures
        data@.len() == size ==> (r matches Ok(v) && v@ == data@),
        data@.len() != size ==> r == Err::<Vec<u8>, LengthError>(LengthError::IncorrectLength { expect: size, actual: data@.len() as usize }),
{
    if data.len() != size {
        return Err(LengthError::IncorrectLength { expect: size, actual: data.len() });
    }
    Ok(slice_to_vec(data, size))
}

/// The first `size` bytes; an error where there are fewer.
pub fn truncate(data: &[u8], size: usize) -> (r: Result<Vec<u8>, LengthError>)
    ensures
        data@.len() >= size ==> (r matches Ok(v) && v@ == data@.subrange(0, size as int)),
        data@.len() < size ==> r == Err::<Vec<u8>, LengthError>(
            LengthError::ExceedsMaximumLength { max_length: size, actual_length: data@.len() as usize },
        ),
{
    if data.len() < size {
        return Err(LengthError::ExceedsMaximumLength { max_length: size, actual_length: data.len() });
    }
    Ok(slice_to_vec(data, size))
}

fn slice_to_vec(data: &[u8], n: usize) -> (r: Vec<u8>)
    requires
        n <= data@.len(),
    ensures
        r@ == data@.subrange(0, n as int),
{
    let mut r: Vec<u8> = Vec::new();
    let mut i: usize = 0;
    while i < n
        invariant
            i <= n <= data@.len(),
            r@ == data@.subrange(0, i as int),
        decreases n - i,
    {
        r.push(data[i]);
        i = i + 1;
        assert(r@ =~= data@.subrange(0, i as int));
    }
    r
}

/// The four most significant bytes of a `u64`.
pub fn from_high_half(data: u64) -> (r: u32)
    ensures
        r == data / 0x1_0000_0000,
{
    (data / 0x1_0000_0000) as u32
}

/// The four least significant bytes of a `u64`.
pub fn from_low_half(data: u64) -> (r: u32)
    ensures
        r == data % 0x1_0000_0000,
{
    (data % 0x1_0000_0000) as u32
}

/// The length of the key that ends a record, in its last two bytes (big-endian).
pub open spec fn tail_key_len(data: Seq<u8>) -> int {
    data[data.len() - 2] * 256 + data[data.len() - 1]
}

/// Splits a record laid out as `key | value | len(key)`, the length in two
/// big-endian bytes, into its key and value.
pub fn split_tail(data: Vec<u8>) -> (r: (Vec<u8>, Vec<u8>))
    requires
        data@.len() >= 2,
        tail_key_len(data@) <= data@.len() - 2,
    ensures
        r.0@ == data@.subrange(0, tail_key_len(data@)),
        r.1@ == data@.subrange(tail_key_len(data@), data@.len() - 2),
{
    let ghost whole = data@;
    let mut data = data;
    let byte1 = data.pop().unwrap();
    let byte2 = data.pop().unwrap();
    let key_len = (byte2 as usize) * 256 + (byte1 as usize);
    let value = data.split_off(key_len);
    proof {
        assert(data@ =~= whole.subrange(0, tail_key_len(whole)));
        assert(value@ =~= whole.subrange(tail_key_len(whole), whole.len() - 2));
    }
    (data, value)
}

} // verus!
