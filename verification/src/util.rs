//! Small arithmetic and byte helpers shared by the readers.
use vstd::prelude::*;

verus! {

/// The least multiple of `multiple` that is not below `num`; `num` itself when `multiple` is 0.
pub open spec fn spec_round_up(num: int, multiple: int) -> int {
    if multiple == 0 {
        num
    } else if num % multiple == 0 {
        num
    } else {
        num + multiple - num % multiple
    }
}

/// Rounds `num_to_round` up to the next multiple of `multiple` (0 leaves it unchanged).
pub fn round_up(num_to_round: usize, multiple: usize) -> (result: usize)
    requires
        multiple > 0 && num_to_round % multiple != 0 ==> num_to_round + multiple <= usize::MAX,
    ensures
        result == spec_round_up(num_to_round as int, multiple as int),
        result >= num_to_round,
        multiple > 0 ==> result % multiple == 0,
        multiple > 0 ==> result - num_to_round < multiple,
{
    if multiple == 0 {
        return num_to_round;
    }
    let remainder = num_to_round % multiple;
    if remainder == 0 {
        num_to_round
    } else {
        proof {
            let n = num_to_round as int;
            let m = multiple as int;
            let q = n / m;
            vstd::arithmetic::div_mod::lemma_fundamental_div_mod(n, m);
            assert(m * (q + 1) == m * q + m) by (nonlinear_arith);
            assert(n + m - n % m == (q + 1) * m) by (nonlinear_arith)
                requires n == m * q + n % m, m * (q + 1) == m * q + m;
            vstd::arithmetic::div_mod::lemma_mod_multiples_basic(q + 1, m);
        }
        num_to_round + multiple - remainder
    }
}

} // verus!

verus! {

/// The little-endian `u32` held by the four bytes of `b` from `pos`.
pub open spec fn spec_u32_le(b: Seq<u8>, pos: int) -> u32 {
    (b[pos] as int + b[pos + 1] as int * 0x100 + b[pos + 2] as int * 0x1_0000 + b[pos + 3] as int
        * 0x100_0000) as u32
}

/// Reads the little-endian `u32` at `pos`.
pub fn read_u32_le(data: &[u8], pos: usize) -> (r: u32)
    requires
        pos + 4 <= data@.len(),
    ensures
        r == spec_u32_le(data@, pos as int),
{
    let b0 = data[pos] as u32;
    let b1 = data[pos + 1] as u32;
    let b2 = data[pos + 2] as u32;
    let b3 = data[pos + 3] as u32;
    b0 + b1 * 0x100 + b2 * 0x1_0000 + b3 * 0x100_0000
}

/// The four little-endian bytes of `v`.
pub open spec fn spec_u32_le_bytes(v: u32) -> Seq<u8> {
    seq![(v % 0x100) as u8, ((v / 0x100) % 0x100) as u8, ((v / 0x1_0000) % 0x100) as u8, (v / 0x100_0000) as u8]
}

} // verus!
