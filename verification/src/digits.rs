use vstd::prelude::*;

verus! {

/// Whether `b` is one of the digits `0` to `9` and `a` to `f`.
pub open spec fn is_lower_hex(b: u8) -> bool {
    (0x30 <= b <= 0x39) || (0x61 <= b <= 0x66)
}

/// What a hexadecimal digit stands for, in either case of the letters; `None`
/// for every other byte.
pub open spec fn hex_digit_value(b: u8) -> Option<nat> {
    if 0x30 <= b <= 0x39 {
        Some((b - 0x30) as nat)
    } else if 0x61 <= b <= 0x66 {
        Some((b - 0x61 + 10) as nat)
    } else if 0x41 <= b <= 0x46 {
        Some((b - 0x41 + 10) as nat)
    } else {
        None
    }
}

/// The lowercase hexadecimal digit for a value below sixteen.
pub open spec fn lower_hex_digit(value: nat) -> u8 {
    if value < 10 {
        (0x30 + value) as u8
    } else {
        (0x61 + value - 10) as u8
    }
}

/// The value of a lowercase hexadecimal digit, and `None` for any other byte.
pub fn lower_hex_value(b: u8) -> (value: Option<u8>)
    ensures
        match value {
            Some(v) => is_lower_hex(b) && hex_digit_value(b) == Some(v as nat) && v < 16,
            None => !is_lower_hex(b),
        },
{
    if 0x30 <= b && b <= 0x39 {
        Some(b - 0x30)
    } else if 0x61 <= b && b <= 0x66 {
        Some(b - 0x61 + 10)
    } else {
        None
    }
}

/// The lowercase hexadecimal digit that stands for `value`.
pub fn to_lower_hex(value: u8) -> (digit: u8)
    requires
        value < 16,
    ensures
        digit == lower_hex_digit(value as nat),
        is_lower_hex(digit),
        hex_digit_value(digit) == Some(value as nat),
{
    if value < 10 {
        0x30 + value
    } else {
        0x61 + (value - 10)
    }
}

/// The bytes that a hexadecimal text stands for, two digits of either case to
/// a byte and the high digit first. `None` where the text has an odd length
/// or holds a byte that is no hexadecimal digit.
pub open spec fn hex_decoded(text: Seq<u8>) -> Option<Seq<u8>> {
    if text.len() % 2 == 0 && (forall|i: int|
        0 <= i < text.len() ==> (#[trigger] hex_digit_value(text[i])) is Some) {
        Some(
            Seq::new(
                text.len() / 2,
                |i: int|
                    (16 * hex_digit_value(text[2 * i]).unwrap() + hex_digit_value(
                        text[2 * i + 1],
                    ).unwrap()) as u8,
            ),
        )
    } else {
        None
    }
}

/// Calls `hex::decode` and keeps the bytes where it succeeds. Trusted: the
/// call succeeds exactly on texts of even length made of hexadecimal digits
/// of either case, and then returns the byte of each pair of digits.
#[verifier::external_body]
pub(crate) fn decode_hex(text: &[u8]) -> (bytes: Option<Vec<u8>>)
    ensures
        bytes is Some <==> hex_decoded(text@) is Some,
        bytes matches Some(decoded) ==> hex_decoded(text@) == Some(decoded@),
{
    hex::decode(text).ok()
}

/// The decimal digits of `n`, without leading zeros.
pub open spec fn decimal(n: nat) -> Seq<u8>
    decreases n,
{
    if n < 10 {
        seq![(0x30 + n) as u8]
    } else {
        decimal(n / 10).push((0x30 + n % 10) as u8)
    }
}

/// Appends the decimal digits of `n` to `out`.
pub fn push_decimal(out: &mut Vec<u8>, n: u64)
    ensures
        final(out)@ == old(out)@ + decimal(n as nat),
{
    // The digits after the leading one, the last of them first.
    let mut low: Vec<u8> = Vec::new();
    let mut rest: u64 = n;
    while rest >= 10
        invariant
            decimal(n as nat) == decimal(rest as nat) + Seq::new(
                low@.len(),
                |k: int| low@[low@.len() - 1 - k],
            ),
        decreases rest,
    {
        let ghost before = low@;
        let digit: u8 = 0x30 + (rest % 10) as u8;
        low.push(digit);
        assert(Seq::new(low@.len(), |k: int| low@[low@.len() - 1 - k]) =~= seq![digit] + Seq::new(
            before.len(),
            |k: int| before[before.len() - 1 - k],
        ));
        assert(decimal(rest as nat) == decimal(rest as nat / 10).push(digit));
        rest = rest / 10;
    }
    out.push(0x30 + rest as u8);
    let mut left: usize = low.len();
    while left > 0
        invariant
            left <= low@.len(),
            out@ == old(out)@ + decimal(rest as nat) + Seq::new(
                (low@.len() - left) as nat,
                |k: int| low@[low@.len() - 1 - k],
            ),
        decreases left,
    {
        left -= 1;
        out.push(low[left]);
    }
}

} // verus!
