//! Decimal and hexadecimal renderings of numbers and bytes.

use vstd::prelude::*;
use vstd::string::*;

verus! {

/// The lower-case hexadecimal digit for a value below 16.
pub open spec fn hex_char(d: int) -> char {
    seq!['0', '1', '2', '3', '4', '5', '6', '7', '8', '9', 'a', 'b', 'c', 'd', 'e', 'f'][d]
}

/// The ASCII decimal digits of `n`, most significant first, without leading
/// zeros (as `serde_json` writes an unsigned integer).
pub open spec fn decimal_bytes(n: nat) -> Seq<u8>
    decreases n,
{
    if n < 10 {
        seq![(48 + n) as u8]
    } else {
        decimal_bytes(n / 10).push((48 + n % 10) as u8)
    }
}

/// The `i`-th four-bit group of `bytes`, high half of each byte first.
pub open spec fn nibble(bytes: Seq<u8>, i: int) -> int {
    if i % 2 == 0 {
        bytes[i / 2] as int / 16
    } else {
        bytes[i / 2] as int % 16
    }
}

/// Two lower-case hexadecimal digits per byte, high half first.
pub open spec fn hex_text(bytes: Seq<u8>) -> Seq<char> {
    Seq::new(2 * bytes.len(), |i: int| hex_char(nibble(bytes, i)))
}

/// The value of a lower-case hexadecimal digit, -1 for any other character.
pub open spec fn hex_digit_value(c: char) -> int {
    let v = c as u32;
    if 48 <= v <= 57 {
        v - 48
    } else if 97 <= v <= 102 {
        v - 87
    } else {
        -1
    }
}

/// Hexadecimal text reads back as the bytes it was made from: two digits
/// per byte, high half first, every character a lower-case hexadecimal digit.
pub proof fn lemma_hex_text_reads_back(bytes: Seq<u8>)
    ensures
        hex_text(bytes).len() == 2 * bytes.len(),
        forall|i: int| 0 <= i < hex_text(bytes).len() ==> 0 <= #[trigger] hex_digit_value(hex_text(bytes)[i]) < 16,
        forall|i: int|
            0 <= i < bytes.len() ==> #[trigger] bytes[i] == hex_digit_value(hex_text(bytes)[2 * i]) * 16
                + hex_digit_value(hex_text(bytes)[2 * i + 1]),
{
    assert forall|d: int| 0 <= d < 16 implies #[trigger] hex_digit_value(hex_char(d)) == d by {
        assert(hex_char(0) == '0');
        assert(hex_char(1) == '1');
        assert(hex_char(2) == '2');
        assert(hex_char(3) == '3');
        assert(hex_char(4) == '4');
        assert(hex_char(5) == '5');
        assert(hex_char(6) == '6');
        assert(hex_char(7) == '7');
        assert(hex_char(8) == '8');
        assert(hex_char(9) == '9');
        assert(hex_char(10) == 'a');
        assert(hex_char(11) == 'b');
        assert(hex_char(12) == 'c');
        assert(hex_char(13) == 'd');
        assert(hex_char(14) == 'e');
        assert(hex_char(15) == 'f');
    }
    assert forall|i: int| 0 <= i < hex_text(bytes).len() implies 0 <= #[trigger] hex_digit_value(
        hex_text(bytes)[i],
    ) < 16 by {
        assert(0 <= nibble(bytes, i) < 16);
    }
    assert forall|i: int| 0 <= i < bytes.len() implies #[trigger] bytes[i] == hex_digit_value(
        hex_text(bytes)[2 * i],
    ) * 16 + hex_digit_value(hex_text(bytes)[2 * i + 1]) by {
        assert(nibble(bytes, 2 * i) == bytes[i] as int / 16);
        assert(nibble(bytes, 2 * i + 1) == bytes[i] as int % 16);
    }
}

/// A one-character string holding the hexadecimal digit for `d`.
pub fn hex_digit(d: u8) -> (s: &'static str)
    requires
        d < 16,
    ensures
        s@ == seq![hex_char(d as int)],
{
    match d {
        0 => { proof { reveal_strlit("0"); } "0" },
        1 => { proof { reveal_strlit("1"); } "1" },
        2 => { proof { reveal_strlit("2"); } "2" },
        3 => { proof { reveal_strlit("3"); } "3" },
        4 => { proof { reveal_strlit("4"); } "4" },
        5 => { proof { reveal_strlit("5"); } "5" },
        6 => { proof { reveal_strlit("6"); } "6" },
        7 => { proof { reveal_strlit("7"); } "7" },
        8 => { proof { reveal_strlit("8"); } "8" },
        9 => { proof { reveal_strlit("9"); } "9" },
        10 => { proof { reveal_strlit("a"); } "a" },
        11 => { proof { reveal_strlit("b"); } "b" },
        12 => { proof { reveal_strlit("c"); } "c" },
        13 => { proof { reveal_strlit("d"); } "d" },
        14 => { proof { reveal_strlit("e"); } "e" },
        _ => { proof { reveal_strlit("f"); } "f" },
    }
}

/// Appends the decimal digits of `n` to `out`.
pub fn push_decimal(out: &mut Vec<u8>, n: u64)
    ensures
        final(out)@ == old(out)@ + decimal_bytes(n as nat),
    decreases n,
{
    if n >= 10 {
        push_decimal(out, n / 10);
    }
    let digit = (n % 10) as u8;
    out.push(48 + digit);
}

/// Appends `bytes` to `out`.
pub fn push_bytes(out: &mut Vec<u8>, bytes: &[u8])
    ensures
        final(out)@ == old(out)@ + bytes@,
{
    let ghost start = out@;
    let mut i: usize = 0;
    while i < bytes.len()
        invariant
            i <= bytes@.len(),
            out@ =~= start + bytes@.take(i as int),
        decreases bytes@.len() - i,
    {
        out.push(bytes[i]);
        i = i + 1;
    }
    assert(bytes@.take(bytes@.len() as int) =~= bytes@);
}

/// The lower-case hexadecimal rendering of `bytes`.
pub fn to_hex(bytes: &[u8]) -> (s: String)
    ensures
        s@ == hex_text(bytes@),
{
    let mut s = String::new();
    let mut k: usize = 0;
    while k < bytes.len()
        invariant
            k <= bytes@.len(),
            s@ =~= hex_text(bytes@.take(k as int)),
        decreases bytes@.len() - k,
    {
        let b = bytes[k];
        s.append(hex_digit(b / 16));
        s.append(hex_digit(b % 16));
        k = k + 1;
    }
    s
}

} // verus!
