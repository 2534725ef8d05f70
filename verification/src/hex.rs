use vstd::prelude::*;

verus! {

/// The lower-case hexadecimal digit for a value below 16, as an ASCII
/// code.
pub open spec fn hex_digit(n: u8) -> u8 {
    if n < 10 {
        (48 + n) as u8
    } else {
        (87 + n) as u8
    }
}

/// The text `0x` followed by two lower-case hexadecimal digits for each
/// byte, as ASCII codes.
pub open spec fn hex_of(bytes: Seq<u8>) -> Seq<u8> {
    Seq::new(
        2 + 2 * bytes.len(),
        |i: int|
            if i == 0 {
                48u8
            } else if i == 1 {
                120u8
            } else if i % 2 == 0 {
                hex_digit(bytes[(i - 2) / 2] / 16)
            } else {
                hex_digit(bytes[(i - 2) / 2] % 16)
            },
    )
}

fn digit(n: u8) -> (r: u8)
    requires
        n < 16,
    ensures
        r == hex_digit(n),
{
    if n < 10 {
        48 + n
    } else {
        87 + n
    }
}

/// Writes bytes as `0x` and their lower-case hexadecimal digits.
pub fn to_hex(bytes: &[u8]) -> (r: Vec<u8>)
    ensures
        r@ == hex_of(bytes@),
{
    let mut out: Vec<u8> = Vec::new();
    out.push(48u8);
    out.push(120u8);
    let mut i: usize = 0;
    while i < bytes.len()
        invariant
            i <= bytes.len(),
            out@.len() == 2 + 2 * i,
            forall|j: int| 0 <= j < out@.len() ==> out@[j] == hex_of(bytes@)[j],
        decreases bytes.len() - i,
    {
        let b: u8 = bytes[i];
        out.push(digit(b / 16));
        out.push(digit(b % 16));
        i += 1;
    }
    assert(out@ =~= hex_of(bytes@));
    out
}

} // verus!
