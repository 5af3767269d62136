//! Reading the command line and the server's configuration text.

use vstd::prelude::*;
use vstd::utf8::encode_utf8;

use crate::text::decimal_bytes;
use crate::Runner;

verus! {

/// The role that the command line asks for: its first argument after the
/// program's name is `--server` or `--client`.
pub open spec fn runner_for(args: Seq<Seq<char>>) -> Option<Runner> {
    if args.len() > 1 {
        if args[1] == "--server"@ {
            Some(Runner::Server)
        } else if args[1] == "--client"@ {
            Some(Runner::Client)
        } else {
            None
        }
    } else {
        None
    }
}

/// The role asked for by `args`, the program's arguments with its own name first.
pub fn runner_from_args(args: &Vec<String>) -> (runner: Option<Runner>)
    ensures
        runner == runner_for(args@.map_values(|a: String| a@)),
{
    if args.len() > 1 {
        let server = "--server".to_owned();
        let client = "--client".to_owned();
        if args[1] == server {
            Some(Runner::Server)
        } else if args[1] == client {
            Some(Runner::Client)
        } else {
            None
        }
    } else {
        None
    }
}

/// The pieces of `bytes` between occurrences of `sep`, as `str::split`
/// yields them: there is always at least one, possibly empty.
pub open spec fn split_on(bytes: Seq<u8>, sep: u8) -> Seq<Seq<u8>>
    decreases bytes.len(),
{
    if bytes.len() == 0 {
        seq![Seq::<u8>::empty()]
    } else {
        let rest = split_on(bytes.drop_first(), sep);
        if bytes[0] == sep {
            seq![Seq::<u8>::empty()] + rest
        } else {
            rest.update(0, seq![bytes[0]] + rest[0])
        }
    }
}

/// The pieces put back together with `sep` between them.
pub open spec fn join_with(pieces: Seq<Seq<u8>>, sep: u8) -> Seq<u8>
    decreases pieces.len(),
{
    if pieces.len() <= 1 {
        if pieces.len() == 1 {
            pieces[0]
        } else {
            Seq::<u8>::empty()
        }
    } else {
        pieces[0] + seq![sep] + join_with(pieces.drop_first(), sep)
    }
}

/// Splitting cuts at every separator and nowhere else: no piece holds the
/// separator, and joining the pieces with it gives back the bytes.
pub proof fn lemma_split_on_cuts_at_separators(bytes: Seq<u8>, sep: u8)
    ensures
        split_on(bytes, sep).len() >= 1,
        forall|k: int, i: int|
            0 <= k < split_on(bytes, sep).len() && 0 <= i < split_on(bytes, sep)[k].len()
                ==> #[trigger] split_on(bytes, sep)[k][i] != sep,
        join_with(split_on(bytes, sep), sep) == bytes,
    decreases bytes.len(),
{
    if bytes.len() > 0 {
        let rest = bytes.drop_first();
        lemma_split_on_cuts_at_separators(rest, sep);
        let r = split_on(rest, sep);
        let p = split_on(bytes, sep);
        if bytes[0] == sep {
            assert(p.drop_first() =~= r);
            assert(join_with(p, sep) =~= seq![sep] + join_with(r, sep));
            assert(bytes =~= seq![sep] + rest);
            assert forall|k: int, i: int| 0 <= k < p.len() && 0 <= i < p[k].len() implies #[trigger] p[k][i]
                != sep by {
                assert(p[k] == r[k - 1]);
            }
        } else {
            assert forall|k: int, i: int| 0 <= k < p.len() && 0 <= i < p[k].len() implies #[trigger] p[k][i]
                != sep by {
                if k == 0 {
                    if i > 0 {
                        assert(p[0][i] == r[0][i - 1]);
                    }
                } else {
                    assert(p[k] == r[k]);
                }
            }
            if r.len() == 1 {
                assert(join_with(p, sep) =~= seq![bytes[0]] + r[0]);
            } else {
                assert(p.drop_first() =~= r.drop_first());
                assert(join_with(p, sep) =~= (seq![bytes[0]] + r[0]) + seq![sep] + join_with(r.drop_first(), sep));
                assert(join_with(r, sep) =~= r[0] + seq![sep] + join_with(r.drop_first(), sep));
            }
            assert(bytes =~= seq![bytes[0]] + rest);
        }
    }
}

/// The lines of a configuration text: its UTF-8 bytes split at `'\n'`.
pub open spec fn config_lines(text: Seq<char>) -> Seq<Seq<u8>> {
    split_on(encode_utf8(text), 10)
}

/// The value on a configuration line: what follows its last `':'` (the
/// whole line when it has none).
pub open spec fn line_value(line: Seq<u8>) -> Seq<u8> {
    split_on(line, 58).last()
}

/// The `m`-th piece of `bytes` split at `sep`, read from the front.
spec fn piece_at(bytes: Seq<u8>, sep: u8, m: nat) -> Option<Seq<u8>>
    decreases bytes.len(),
{
    if bytes.len() == 0 {
        if m == 0 {
            Some(Seq::<u8>::empty())
        } else {
            None
        }
    } else if bytes[0] == sep {
        if m == 0 {
            Some(Seq::<u8>::empty())
        } else {
            piece_at(bytes.drop_first(), sep, (m - 1) as nat)
        }
    } else if m == 0 {
        Some(seq![bytes[0]] + piece_at(bytes.drop_first(), sep, 0).unwrap())
    } else {
        piece_at(bytes.drop_first(), sep, m)
    }
}

proof fn lemma_piece_at(bytes: Seq<u8>, sep: u8, m: nat)
    ensures
        split_on(bytes, sep).len() >= 1,
        piece_at(bytes, sep, m) == if m < split_on(bytes, sep).len() {
            Some(split_on(bytes, sep)[m as int])
        } else {
            None
        },
    decreases bytes.len(),
{
    if bytes.len() > 0 {
        lemma_piece_at(bytes.drop_first(), sep, 0);
        if m > 0 {
            lemma_piece_at(bytes.drop_first(), sep, (m - 1) as nat);
            lemma_piece_at(bytes.drop_first(), sep, m);
        }
    }
}

/// Where the last piece of `bytes` split at `sep` starts: just after the
/// last `sep`, or at 0 when there is none.
spec fn last_piece_start(bytes: Seq<u8>, sep: u8) -> int
    decreases bytes.len(),
{
    if bytes.len() == 0 {
        0
    } else if bytes.last() == sep {
        bytes.len() as int
    } else {
        last_piece_start(bytes.drop_last(), sep)
    }
}

proof fn lemma_last_piece_start_bounds(bytes: Seq<u8>, sep: u8)
    ensures
        0 <= last_piece_start(bytes, sep) <= bytes.len(),
        forall|i: int|
            last_piece_start(bytes, sep) <= i < bytes.len() ==> #[trigger] bytes[i] != sep,
        last_piece_start(bytes, sep) > 0 ==> bytes[last_piece_start(bytes, sep) - 1] == sep,
    decreases bytes.len(),
{
    if bytes.len() > 0 && bytes.last() != sep {
        let front = bytes.drop_last();
        lemma_last_piece_start_bounds(front, sep);
        assert forall|i: int| last_piece_start(bytes, sep) <= i < bytes.len() implies #[trigger] bytes[i]
            != sep by {
            if i < front.len() {
                assert(front[i] == bytes[i]);
            }
        }
    }
}

proof fn lemma_split_single_piece(bytes: Seq<u8>, sep: u8)
    requires
        forall|i: int| 0 <= i < bytes.len() ==> #[trigger] bytes[i] != sep,
    ensures
        split_on(bytes, sep).len() == 1,
    decreases bytes.len(),
{
    if bytes.len() > 0 {
        let rest = bytes.drop_first();
        assert forall|i: int| 0 <= i < rest.len() implies #[trigger] rest[i] != sep by {
            assert(rest[i] == bytes[i + 1]);
        }
        lemma_split_single_piece(rest, sep);
    }
}

proof fn lemma_split_many_pieces(bytes: Seq<u8>, sep: u8, i: int)
    requires
        0 <= i < bytes.len(),
        bytes[i] == sep,
    ensures
        split_on(bytes, sep).len() >= 2,
    decreases bytes.len(),
{
    lemma_piece_at(bytes.drop_first(), sep, 0);
    if i > 0 {
        lemma_split_many_pieces(bytes.drop_first(), sep, i - 1);
    }
}

proof fn lemma_split_last(bytes: Seq<u8>, sep: u8, start: int)
    requires
        0 <= start <= bytes.len(),
        forall|i: int| start <= i < bytes.len() ==> #[trigger] bytes[i] != sep,
        start > 0 ==> bytes[start - 1] == sep,
    ensures
        split_on(bytes, sep).last() == bytes.skip(start),
    decreases bytes.len(),
{
    if bytes.len() == 0 {
        assert(bytes.skip(start) =~= Seq::<u8>::empty());
    } else {
        let rest = bytes.drop_first();
        lemma_piece_at(rest, sep, 0);
        if start == 0 {
            assert(bytes[0] != sep);
            assert forall|i: int| 0 <= i < rest.len() implies #[trigger] rest[i] != sep by {
                assert(rest[i] == bytes[i + 1]);
            }
            lemma_split_single_piece(rest, sep);
            lemma_split_last(rest, sep, 0);
            assert(seq![bytes[0]] + rest.skip(0) =~= bytes.skip(0));
        } else {
            assert forall|i: int| start - 1 <= i < rest.len() implies #[trigger] rest[i] != sep by {
                assert(rest[i] == bytes[i + 1]);
            }
            if start - 1 > 0 {
                assert(rest[start - 2] == bytes[start - 1]);
            }
            lemma_split_last(rest, sep, start - 1);
            assert(rest.skip(start - 1) =~= bytes.skip(start));
            if bytes[0] != sep {
                assert(start - 1 > 0);
                assert(rest[start - 2] == sep);
                lemma_split_many_pieces(rest, sep, start - 2);
            }
        }
    }
}

/// The value on line `line` (counting from 0) of a configuration text, as
/// bytes; `None` when the text has fewer lines.
pub fn config_value(text: &str, line: usize) -> (value: Option<Vec<u8>>)
    ensures
        value is Some <==> line < config_lines(text@).len(),
        value matches Some(v) ==> v@ == line_value(config_lines(text@)[line as int]),
{
    let bytes = text.as_bytes();
    let ghost all = bytes@;
    assert(all == encode_utf8(text@));
    let mut remaining = line;
    let mut current: Vec<u8> = Vec::new();
    let mut k: usize = 0;
    proof {
        assert(all.skip(0) =~= all);
        lemma_piece_at(all, 10, line as nat);
    }
    let mut found = false;
    while k < bytes.len()
        invariant
            bytes@ == all,
            k <= all.len(),
            remaining > 0 ==> current@.len() == 0,
            remaining > 0 ==> piece_at(all, 10, line as nat) == piece_at(all.skip(k as int), 10, remaining as nat),
            remaining == 0 ==> piece_at(all, 10, line as nat) == Some(current@ + piece_at(all.skip(k as int), 10, 0).unwrap()),
            found ==> remaining == 0 && piece_at(all, 10, line as nat) == Some(current@),
        ensures
            remaining > 0 ==> piece_at(all, 10, line as nat) == piece_at(all.skip(k as int), 10, remaining as nat),
            remaining == 0 ==> piece_at(all, 10, line as nat) == Some(current@ + piece_at(all.skip(k as int), 10, 0).unwrap()),
            found || k == all.len(),
            found ==> remaining == 0 && piece_at(all, 10, line as nat) == Some(current@),
        decreases all.len() - k,
    {
        assert(all.skip(k as int).drop_first() =~= all.skip(k + 1));
        let b = bytes[k];
        if b == 10 {
            if remaining == 0 {
                found = true;
                assert(current@ + Seq::<u8>::empty() =~= current@);
                break;
            }
            remaining = remaining - 1;
        } else if remaining == 0 {
            let ghost before = current@;
            current.push(b);
            proof {
                let tail = piece_at(all.skip(k + 1), 10, 0).unwrap();
                assert(current@ + tail =~= before + (seq![b] + tail));
            }
        }
        k = k + 1;
    }
    if !found {
        assert(all.skip(k as int).len() == 0);
        if remaining > 0 {
            proof {
                lemma_piece_at(all, 10, line as nat);
            }
            return None;
        }
        assert(current@ + Seq::<u8>::empty() =~= current@);
    }
    proof {
        lemma_piece_at(all, 10, line as nat);
    }
    let mut start: usize = 0;
    let mut j: usize = 0;
    while j < current.len()
        invariant
            j <= current@.len(),
            start <= j,
            start == last_piece_start(current@.take(j as int), 58),
        decreases current@.len() - j,
    {
        assert(current@.take(j + 1).drop_last() =~= current@.take(j as int));
        if current[j] == 58 {
            start = j + 1;
        }
        j = j + 1;
    }
    assert(current@.take(current@.len() as int) =~= current@);
    proof {
        lemma_last_piece_start_bounds(current@, 58);
        lemma_split_last(current@, 58, start as int);
    }
    let mut value: Vec<u8> = Vec::new();
    let mut p = start;
    while p < current.len()
        invariant
            start <= p <= current@.len(),
            value@ =~= current@.subrange(start as int, p as int),
        decreases current@.len() - p,
    {
        value.push(current[p]);
        p = p + 1;
    }
    assert(value@ =~= current@.skip(start as int));
    Some(value)
}

/// The value of a string of decimal digits, most significant first.
pub open spec fn digits_value(digits: Seq<u8>) -> nat
    decreases digits.len(),
{
    if digits.len() == 0 {
        0
    } else {
        digits_value(digits.drop_last()) * 10 + (digits.last() - 48) as nat
    }
}

/// Every byte is an ASCII digit.
pub open spec fn all_digits(digits: Seq<u8>) -> bool {
    forall|i: int| 0 <= i < digits.len() ==> 48 <= #[trigger] digits[i] <= 57
}

/// An unsigned integer in decimal as `str::parse` reads it: an optional
/// leading `'+'`, then at least one digit and nothing else, with a value
/// no larger than `max`.
pub open spec fn parse_unsigned(text: Seq<u8>, max: nat) -> Option<nat> {
    let digits = if text.len() > 0 && text[0] == 43 {
        text.drop_first()
    } else {
        text
    };
    if digits.len() == 0 || !all_digits(digits) || digits_value(digits) > max {
        None
    } else {
        Some(digits_value(digits))
    }
}

proof fn lemma_digits_prefix(digits: Seq<u8>, k: int)
    requires
        0 <= k <= digits.len(),
        all_digits(digits),
    ensures
        digits_value(digits.take(k)) <= digits_value(digits),
    decreases digits.len(),
{
    if k < digits.len() {
        assert(digits.drop_last().take(k) =~= digits.take(k));
        lemma_digits_prefix(digits.drop_last(), k);
    } else {
        assert(digits.take(k) =~= digits);
    }
}

/// `digits` is how the number `n` is written in decimal: at least one ASCII
/// digit '0'..='9', no leading '0' unless it is the only digit, and the
/// digits, most significant first, make up `n`.
pub open spec fn writes_decimal(digits: Seq<u8>, n: nat) -> bool {
    &&& digits.len() >= 1
    &&& forall|i: int| 0 <= i < digits.len() ==> 48 <= #[trigger] digits[i] <= 57
    &&& digits.len() > 1 ==> digits[0] != 48
    &&& digits_value(digits) == n
}

/// `decimal_bytes` writes every number in decimal.
pub proof fn lemma_decimal_bytes_writes_decimal(n: nat)
    ensures
        writes_decimal(decimal_bytes(n), n),
    decreases n,
{
    let d = decimal_bytes(n);
    if n < 10 {
        assert(d.drop_last() =~= Seq::<u8>::empty());
        assert(digits_value(Seq::<u8>::empty()) == 0);
        assert(d.len() == 1);
        assert(d[0] == (48 + n) as u8);
        assert(digits_value(d) == n);
    } else {
        lemma_decimal_bytes_writes_decimal(n / 10);
        let front = decimal_bytes(n / 10);
        assert(d.drop_last() =~= front);
        assert(d[0] == front[0]);
        assert((n / 10) * 10 + n % 10 == n);
        assert forall|i: int| 0 <= i < d.len() implies 48 <= #[trigger] d[i] <= 57 by {
            if i < front.len() {
                assert(d[i] == front[i]);
            }
        }
        assert(digits_value(d) == n);
        if n / 10 >= 10 {
            lemma_decimal_bytes_writes_decimal(n / 100);
            assert(n / 10 / 10 == n / 100);
            assert(front.len() >= 2);
        }
    }
}

/// A value read back from its own decimal writing is the value: what
/// `decimal_bytes` writes for `n`, `parse_unsigned` reads as `n` when `n` is
/// within `max` and refuses otherwise (also behind a '+').
pub proof fn lemma_decimal_round_trip(n: nat, max: nat)
    ensures
        parse_unsigned(decimal_bytes(n), max) == if n <= max {
            Some(n)
        } else {
            None::<nat>
        },
        parse_unsigned(seq![43u8] + decimal_bytes(n), max) == if n <= max {
            Some(n)
        } else {
            None::<nat>
        },
{
    lemma_decimal_bytes_writes_decimal(n);
    let d = decimal_bytes(n);
    assert((seq![43u8] + d).drop_first() =~= d);
}

/// Every string of one or more ASCII digits '0'..='9' is read as the number
/// it writes, when that number is within `max`; a string with any other byte
/// (after an optional leading '+') is refused.
pub proof fn lemma_parse_reads_digit_strings(text: Seq<u8>, max: nat)
    ensures
        text.len() >= 1 && (forall|i: int| 0 <= i < text.len() ==> 48 <= #[trigger] text[i] <= 57)
            && digits_value(text) <= max ==> parse_unsigned(text, max) == Some(digits_value(text)),
        (exists|i: int| 0 <= i < text.len() && !(48 <= #[trigger] text[i] <= 57) && !(i == 0
            && text[i] == 43)) ==> parse_unsigned(text, max) is None,
{
    if exists|i: int| 0 <= i < text.len() && !(48 <= #[trigger] text[i] <= 57) && !(i == 0 && text[i] == 43) {
        let i = choose|i: int| 0 <= i < text.len() && !(48 <= #[trigger] text[i] <= 57) && !(i == 0 && text[i] == 43);
        if text.len() > 0 && text[0] == 43 {
            assert(text.drop_first()[i - 1] == text[i]);
        }
    }
}

fn parse_decimal(text: &[u8], max: u32) -> (value: Option<u32>)
    requires
        max < 1_000_000,
    ensures
        value matches Some(v) ==> parse_unsigned(text@, max as nat) == Some(v as nat),
        value is None ==> parse_unsigned(text@, max as nat) is None,
{
    let ghost digits = if text@.len() > 0 && text@[0] == 43 {
        text@.drop_first()
    } else {
        text@
    };
    let first: usize = if text.len() > 0 && text[0] == 43 {
        1
    } else {
        0
    };
    if first == text.len() {
        return None;
    }
    let mut value: u32 = 0;
    let mut i: usize = first;
    while i < text.len()
        invariant
            first <= i <= text@.len(),
            first < text@.len(),
            digits =~= text@.skip(first as int),
            digits == (if text@.len() > 0 && text@[0] == 43 {
                text@.drop_first()
            } else {
                text@
            }),
            max < 1_000_000,
            all_digits(digits.take(i - first)),
            value as nat == digits_value(digits.take(i - first)),
            value <= max,
        decreases text@.len() - i,
    {
        assert(digits.take(i - first + 1).drop_last() =~= digits.take(i - first));
        let b = text[i];
        assert(digits[i - first] == b);
        if b < 48 || b > 57 {
            assert(!all_digits(digits));
            return None;
        }
        let next = value * 10 + (b - 48) as u32;
        if next > max {
            proof {
                if all_digits(digits) {
                    lemma_digits_prefix(digits, i - first + 1);
                }
            }
            return None;
        }
        value = next;
        i = i + 1;
    }
    assert(digits.take(i - first) =~= digits);
    Some(value)
}

/// The port number written in a configuration value.
pub fn parse_port(text: &[u8]) -> (port: Option<u16>)
    ensures
        port matches Some(p) ==> parse_unsigned(text@, 65535) == Some(p as nat),
        port is None ==> parse_unsigned(text@, 65535) is None,
{
    match parse_decimal(text, 65535) {
        Some(v) => Some(v as u16),
        None => None,
    }
}

/// The mining difficulty written in a configuration value.
pub fn parse_difficulty(text: &[u8]) -> (difficulty: Option<u8>)
    ensures
        difficulty matches Some(d) ==> parse_unsigned(text@, 255) == Some(d as nat),
        difficulty is None ==> parse_unsigned(text@, 255) is None,
{
    match parse_decimal(text, 255) {
        Some(v) => Some(v as u8),
        None => None,
    }
}

} // verus!
