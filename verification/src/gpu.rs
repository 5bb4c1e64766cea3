use vstd::prelude::*;

verus! {

/// Byte `k` (0 = least significant) of `value`.
pub open spec fn le_byte(value: u32, k: int) -> u8 {
    ((value as int / pow256(k)) % 256) as u8
}

/// 256 to the power `k`, for `k` in 0..4.
pub open spec fn pow256(k: int) -> int {
    if k == 0 {
        1
    } else if k == 1 {
        256
    } else if k == 2 {
        65536
    } else {
        16777216
    }
}

/// The four bytes of `value`, least significant first.
pub open spec fn le_bytes(value: u32) -> Seq<u8> {
    seq![le_byte(value, 0), le_byte(value, 1), le_byte(value, 2), le_byte(value, 3)]
}

/// The four bytes of `value`, most significant first.
pub open spec fn be_bytes(value: u32) -> Seq<u8> {
    seq![le_byte(value, 3), le_byte(value, 2), le_byte(value, 1), le_byte(value, 0)]
}

/// `u32::to_ne_bytes`: the bytes of `value` in the byte order of the
/// machine, which is either little-endian or big-endian; which one is not
/// stated.
#[verifier::external_body]
fn u32_to_ne_bytes(value: u32) -> (b: [u8; 4])
    ensures
        b@ == le_bytes(value) || b@ == be_bytes(value),
{
    value.to_ne_bytes()
}

/// Stores `value` in `bytes[offset..offset + 4]` in the machine's byte order
/// (little-endian or big-endian); every other byte is unchanged.
pub fn write_u32(bytes: &mut [u8], offset: usize, value: u32)
    requires
        offset + 4 <= old(bytes)@.len(),
    ensures
        final(bytes)@.len() == old(bytes)@.len(),
        final(bytes)@.subrange(offset as int, offset + 4) == le_bytes(value)
            || final(bytes)@.subrange(offset as int, offset + 4) == be_bytes(value),
        forall|i: int|
            0 <= i < final(bytes)@.len() && !(offset <= i < offset + 4)
                ==> #[trigger] final(bytes)@[i] == old(bytes)@[i],
{
    let b = u32_to_ne_bytes(value);
    bytes[offset] = b[0];
    bytes[offset + 1] = b[1];
    bytes[offset + 2] = b[2];
    bytes[offset + 3] = b[3];
    assert(bytes@.subrange(offset as int, offset + 4) =~= b@);
}

} // verus!
