//! Lower-case hexadecimal encoding of byte strings.

use vstd::prelude::*;

verus! {

/// The lower-case hexadecimal digit for a nibble `n` (0 <= n < 16).
pub open spec fn hex_digit(n: int) -> char {
    if n < 10 {
        (n + 48) as char
    } else {
        (n + 87) as char
    }
}

/// Lower-case hexadecimal rendering of `bytes`, two digits per byte, high nibble first.
pub open spec fn hex_lower(bytes: Seq<u8>) -> Seq<char> {
    Seq::new(
        bytes.len() * 2,
        |i: int|
            if i % 2 == 0 {
                hex_digit(bytes[i / 2] as int / 16)
            } else {
                hex_digit(bytes[i / 2] as int % 16)
            },
    )
}

/// The ASCII byte of the hexadecimal digit of nibble `n`.
fn hex_digit_byte(n: u8) -> (b: u8)
    requires
        n < 16,
    ensures
        b as char == hex_digit(n as int),
        b < 128,
{
    if n < 10 {
        n + 48
    } else {
        n + 87
    }
}

/// Renders `bytes` as lower-case hexadecimal ASCII bytes.
pub fn hex_lower_bytes(bytes: &[u8]) -> (r: Vec<u8>)
    requires
        bytes@.len() * 2 <= usize::MAX,
    ensures
        r@.len() == bytes@.len() * 2,
        forall|i: int| 0 <= i < r@.len() ==> #[trigger] r@[i] as char == hex_lower(bytes@)[i],
        forall|i: int| 0 <= i < r@.len() ==> #[trigger] r@[i] < 128,
{
    let mut r: Vec<u8> = Vec::new();
    let mut k: usize = 0;
    while k < bytes.len()
        invariant
            k <= bytes@.len(),
            bytes@.len() * 2 <= usize::MAX,
            r@.len() == 2 * k,
            forall|i: int| 0 <= i < r@.len() ==> #[trigger] r@[i] as char == hex_lower(bytes@)[i],
            forall|i: int| 0 <= i < r@.len() ==> #[trigger] r@[i] < 128,
        decreases bytes@.len() - k,
    {
        let b = bytes[k];
        let hi = hex_digit_byte(b / 16);
        let lo = hex_digit_byte(b % 16);
        r.push(hi);
        r.push(lo);
        assert(hex_lower(bytes@)[2 * k as int] == hex_digit(bytes@[k as int] as int / 16));
        assert(hex_lower(bytes@)[2 * k as int + 1] == hex_digit(bytes@[k as int] as int % 16));
        k = k + 1;
    }
    r
}

} // verus!
