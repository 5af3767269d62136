//! JSON string literals, written byte by byte as `serde_json` writes them.

use vstd::prelude::*;

use vstd::utf8::encode_utf8;

use crate::text::push_bytes;

verus! {

/// The lower-case hexadecimal digit for a value below 16, as an ASCII byte.
pub open spec fn hex_byte(d: int) -> u8 {
    if d < 10 {
        (48 + d) as u8
    } else {
        (87 + d) as u8
    }
}

/// How one byte of a string is written inside a JSON string literal: `"`
/// and `\` behind a backslash; backspace, tab, line feed, form feed and
/// carriage return as `\b \t \n \f \r`; the other bytes below 0x20 as
/// `\u00` and two lower-case hexadecimal digits; every other byte as it is.
pub open spec fn escaped_byte(b: u8) -> Seq<u8> {
    if b == 34 {
        seq![92u8, 34u8]
    } else if b == 92 {
        seq![92u8, 92u8]
    } else if b == 8 {
        seq![92u8, 98u8]
    } else if b == 9 {
        seq![92u8, 116u8]
    } else if b == 10 {
        seq![92u8, 110u8]
    } else if b == 12 {
        seq![92u8, 102u8]
    } else if b == 13 {
        seq![92u8, 114u8]
    } else if b < 32 {
        seq![92u8, 117u8, 48u8, 48u8, hex_byte(b as int / 16), hex_byte(b as int % 16)]
    } else {
        seq![b]
    }
}

/// The bytes of a string, each written as `escaped_byte` says.
pub open spec fn escaped_bytes(bytes: Seq<u8>) -> Seq<u8>
    decreases bytes.len(),
{
    if bytes.len() == 0 {
        Seq::<u8>::empty()
    } else {
        escaped_bytes(bytes.drop_last()) + escaped_byte(bytes.last())
    }
}

/// The JSON string literal for the UTF-8 bytes of a string: the escaped
/// bytes between double quotes.
pub open spec fn json_string(bytes: Seq<u8>) -> Seq<u8> {
    seq![34u8] + escaped_bytes(bytes) + seq![34u8]
}

/// The value of a hexadecimal digit byte (either case), -1 for any other byte.
pub open spec fn hex_byte_value(c: u8) -> int {
    if 48 <= c <= 57 {
        c - 48
    } else if 97 <= c <= 102 {
        c - 87
    } else if 65 <= c <= 70 {
        c - 55
    } else {
        -1
    }
}

/// `b` in front of the bytes read so far, if they could be read.
pub open spec fn prepend(b: u8, rest: Option<Seq<u8>>) -> Option<Seq<u8>> {
    match rest {
        Some(r) => Some(seq![b] + r),
        None => None,
    }
}

/// Reads the inside of a JSON string literal back into the bytes it stands
/// for, as JSON defines it: a backslash followed by `"`, `\`, `/`, `b`, `t`,
/// `n`, `f`, `r`, or `u00` and two hexadecimal digits stands for one byte;
/// any other byte stands for itself, except a bare `"` or a control byte
/// below 0x20, which cannot stand there (then there is no reading).
pub open spec fn json_unescape(e: Seq<u8>) -> Option<Seq<u8>>
    decreases e.len(),
{
    if e.len() == 0 {
        Some(Seq::<u8>::empty())
    } else if e[0] == 92 {
        if e.len() >= 2 && (e[1] == 34 || e[1] == 92 || e[1] == 47) {
            prepend(e[1], json_unescape(e.skip(2)))
        } else if e.len() >= 2 && e[1] == 98 {
            prepend(8, json_unescape(e.skip(2)))
        } else if e.len() >= 2 && e[1] == 116 {
            prepend(9, json_unescape(e.skip(2)))
        } else if e.len() >= 2 && e[1] == 110 {
            prepend(10, json_unescape(e.skip(2)))
        } else if e.len() >= 2 && e[1] == 102 {
            prepend(12, json_unescape(e.skip(2)))
        } else if e.len() >= 2 && e[1] == 114 {
            prepend(13, json_unescape(e.skip(2)))
        } else if e.len() >= 6 && e[1] == 117 && e[2] == 48 && e[3] == 48 && hex_byte_value(e[4]) >= 0
            && hex_byte_value(e[5]) >= 0 {
            prepend((hex_byte_value(e[4]) * 16 + hex_byte_value(e[5])) as u8, json_unescape(e.skip(6)))
        } else {
            None
        }
    } else if e[0] == 34 || e[0] < 32 {
        None
    } else {
        prepend(e[0], json_unescape(e.skip(1)))
    }
}

proof fn lemma_escaped_bytes_append(a: Seq<u8>, b: Seq<u8>)
    ensures
        escaped_bytes(a + b) == escaped_bytes(a) + escaped_bytes(b),
    decreases b.len(),
{
    if b.len() == 0 {
        assert(a + b =~= a);
        assert(escaped_bytes(a) + escaped_bytes(b) =~= escaped_bytes(a));
    } else {
        lemma_escaped_bytes_append(a, b.drop_last());
        assert((a + b).drop_last() =~= a + b.drop_last());
        assert(escaped_bytes(a) + escaped_bytes(b) =~= escaped_bytes(a) + escaped_bytes(b.drop_last())
            + escaped_byte(b.last()));
    }
}

proof fn lemma_unescape_one(c: u8, tail: Seq<u8>)
    ensures
        json_unescape(escaped_byte(c) + tail) == prepend(c, json_unescape(tail)),
{
    let e = escaped_byte(c) + tail;
    if c == 34 || c == 92 || c == 8 || c == 9 || c == 10 || c == 12 || c == 13 {
        assert(e.skip(2) =~= tail);
    } else if c < 32 {
        assert(e.skip(6) =~= tail);
        assert(hex_byte_value(hex_byte(c as int / 16)) == c as int / 16);
        assert(hex_byte_value(hex_byte(c as int % 16)) == c as int % 16);
        assert((c as int / 16) * 16 + c as int % 16 == c);
    } else {
        assert(e.skip(1) =~= tail);
    }
}

/// What `json_string` writes reads back as the bytes it was given: it is the
/// escaped bytes between two double quotes, and reading the inside as JSON
/// gives exactly the original bytes.
pub proof fn lemma_json_string_reads_back(bytes: Seq<u8>)
    ensures
        json_string(bytes).len() >= 2,
        json_string(bytes)[0] == 34,
        json_string(bytes).last() == 34,
        json_unescape(json_string(bytes).subrange(1, json_string(bytes).len() - 1)) == Some(bytes),
    decreases bytes.len(),
{
    let j = json_string(bytes);
    assert(j.subrange(1, j.len() - 1) =~= escaped_bytes(bytes));
    if bytes.len() == 0 {
        assert(escaped_bytes(bytes) =~= Seq::<u8>::empty());
        assert(bytes =~= Seq::<u8>::empty());
    } else {
        let rest = bytes.drop_first();
        lemma_json_string_reads_back(rest);
        let jr = json_string(rest);
        assert(jr.subrange(1, jr.len() - 1) =~= escaped_bytes(rest));
        assert(bytes =~= seq![bytes[0]] + rest);
        lemma_escaped_bytes_append(seq![bytes[0]], rest);
        assert(seq![bytes[0]].drop_last() =~= Seq::<u8>::empty());
        assert(escaped_bytes(Seq::<u8>::empty()) == Seq::<u8>::empty());
        assert(seq![bytes[0]].last() == bytes[0]);
        assert(escaped_bytes(seq![bytes[0]]) =~= escaped_byte(bytes[0]));
        lemma_unescape_one(bytes[0], escaped_bytes(rest));
    }
}

/// Appends the escaped form of one byte.
fn push_escaped_byte(out: &mut Vec<u8>, b: u8)
    ensures
        final(out)@ == old(out)@ + escaped_byte(b),
{
    let ghost start = out@;
    if b == 34 || b == 92 {
        out.push(92);
        out.push(b);
    } else if b == 8 {
        out.push(92);
        out.push(98);
    } else if b == 9 {
        out.push(92);
        out.push(116);
    } else if b == 10 {
        out.push(92);
        out.push(110);
    } else if b == 12 {
        out.push(92);
        out.push(102);
    } else if b == 13 {
        out.push(92);
        out.push(114);
    } else if b < 32 {
        out.push(92);
        out.push(117);
        out.push(48);
        out.push(48);
        let high = b / 16;
        out.push(48 + high);
        let low = b % 16;
        if low < 10 {
            out.push(48 + low);
        } else {
            out.push(87 + low);
        }
    } else {
        out.push(b);
    }
    assert(out@ =~= start + escaped_byte(b));
}

/// Appends the JSON string literal for `text`.
pub fn push_json_string(out: &mut Vec<u8>, text: &str)
    ensures
        final(out)@ == old(out)@ + json_string(encode_utf8(text@)),
{
    let bytes = text.as_bytes();
    let ghost start = out@;
    out.push(34);
    let mut i: usize = 0;
    while i < bytes.len()
        invariant
            i <= bytes@.len(),
            out@ =~= start + seq![34u8] + escaped_bytes(bytes@.take(i as int)),
        decreases bytes@.len() - i,
    {
        assert(bytes@.take(i + 1).drop_last() =~= bytes@.take(i as int));
        push_escaped_byte(out, bytes[i]);
        i = i + 1;
    }
    assert(bytes@.take(bytes@.len() as int) =~= bytes@);
    out.push(34);
    assert(out@ =~= start + json_string(bytes@));
}

} // verus!
