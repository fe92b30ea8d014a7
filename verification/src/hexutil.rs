//! Hex input parsing, and the textual byte list emitted into each
//! section header, with its round-trip law: the rendered `BYTECODE`
//! items decode to exactly the section's raw bytes.

use vstd::prelude::*;
use crate::errors::Error;
use crate::render::{hex_digit, spec_uhex_pad, append_uhex64_pad};

verus! {

/// The value of an ASCII hex digit, if it is one.
pub open spec fn spec_hex_val(c: u8) -> Option<u8> {
    if 0x30 <= c <= 0x39 {
        Some((c - 0x30) as u8)
    } else if 0x61 <= c <= 0x66 {
        Some((c - 0x61 + 10) as u8)
    } else if 0x41 <= c <= 0x46 {
        Some((c - 0x41 + 10) as u8)
    } else {
        None
    }
}

fn hex_val(c: u8) -> (r: Option<u8>)
    ensures
        r == spec_hex_val(c),
{
    if 0x30 <= c && c <= 0x39 {
        Some(c - 0x30)
    } else if 0x61 <= c && c <= 0x66 {
        Some(c - 0x61 + 10)
    } else if 0x41 <= c && c <= 0x46 {
        Some(c - 0x41 + 10)
    } else {
        None
    }
}

/// An ASCII whitespace byte.
pub open spec fn spec_is_space(c: u8) -> bool {
    c == 0x20 || c == 0x09 || c == 0x0a || c == 0x0d || c == 0x0c
}

fn is_space(c: u8) -> (r: bool)
    ensures
        r == spec_is_space(c),
{
    c == 0x20 || c == 0x09 || c == 0x0a || c == 0x0d || c == 0x0c
}

/// The input with leading whitespace removed.
pub open spec fn trim_front(s: Seq<u8>) -> Seq<u8>
    decreases s.len(),
{
    if s.len() > 0 && spec_is_space(s[0]) {
        trim_front(s.drop_first())
    } else {
        s
    }
}

/// The input with trailing whitespace removed.
pub open spec fn trim_back(s: Seq<u8>) -> Seq<u8>
    decreases s.len(),
{
    if s.len() > 0 && spec_is_space(s.last()) {
        trim_back(s.drop_last())
    } else {
        s
    }
}

/// The input with an optional `0x` prefix removed.
pub open spec fn strip_hex_prefix(s: Seq<u8>) -> Seq<u8> {
    if s.len() >= 2 && s[0] == 0x30 && s[1] == 0x78 {
        s.skip(2)
    } else {
        s
    }
}

/// The digit region of a hex input: surrounding whitespace and the
/// optional prefix dropped.
pub open spec fn hex_region(s: Seq<u8>) -> Seq<u8> {
    strip_hex_prefix(trim_back(trim_front(s)))
}

/// Every byte is a hex digit.
pub open spec fn all_hex(s: Seq<u8>) -> bool {
    forall|i: int| 0 <= i < s.len() ==> spec_hex_val(s[i]) is Some
}

/// The bytes a digit sequence decodes to: pairs of digits, with a
/// leading odd digit read as a whole byte.
pub open spec fn decode_hex(s: Seq<u8>) -> Seq<u8>
    decreases s.len(),
{
    if s.len() == 0 {
        Seq::empty()
    } else if s.len() % 2 == 1 {
        seq![spec_hex_val(s[0])->0] + decode_hex(s.drop_first())
    } else {
        seq![(spec_hex_val(s[0])->0 * 16 + spec_hex_val(s[1])->0) as u8] + decode_hex(s.skip(2))
    }
}

/// Decode a hex string into bytes: surrounding whitespace is trimmed,
/// an optional `0x` prefix is dropped, and an odd digit count reads
/// the leading digit as a whole byte.  Succeeds exactly when every
/// remaining byte is a hex digit, and then returns their decoding.
pub fn parse_hex(text: &[u8]) -> (r: Result<Vec<u8>, Error>)
    ensures
        r is Ok <==> all_hex(hex_region(text@)),
        r matches Ok(bs) ==> bs@ == decode_hex(hex_region(text@)),
        r matches Err(e) ==> e is InvalidHex,
{
    let n = text.len();
    proof {
        assert(text@.subrange(0, n as int) =~= text@);
    }
    // Trim whitespace from both ends.
    let mut lo: usize = 0;
    while lo < n && is_space(text[lo])
        invariant
            n == text@.len(),
            lo <= n,
            trim_front(text@) == trim_front(text@.subrange(lo as int, n as int)),
        decreases n - lo,
    {
        proof {
            let cur = text@.subrange(lo as int, n as int);
            assert(cur[0] == text@[lo as int]);
            assert(cur.drop_first() =~= text@.subrange(lo + 1, n as int));
        }
        lo += 1;
    }
    proof {
        let cur = text@.subrange(lo as int, n as int);
        if cur.len() > 0 {
            assert(cur[0] == text@[lo as int]);
        }
        assert(trim_front(text@) == cur);
    }
    let mut hi: usize = n;
    while hi > lo && is_space(text[hi - 1])
        invariant
            n == text@.len(),
            lo <= hi <= n,
            trim_back(trim_front(text@)) == trim_back(text@.subrange(lo as int, hi as int)),
        decreases hi,
    {
        proof {
            let cur = text@.subrange(lo as int, hi as int);
            assert(cur.last() == text@[hi - 1]);
            assert(cur.drop_last() =~= text@.subrange(lo as int, hi - 1));
        }
        hi -= 1;
    }
    proof {
        let cur = text@.subrange(lo as int, hi as int);
        if cur.len() > 0 {
            assert(cur.last() == text@[hi - 1]);
        }
        assert(trim_back(trim_front(text@)) == cur);
    }
    // Drop an optional `0x` prefix.
    proof {
        let cur = text@.subrange(lo as int, hi as int);
        if cur.len() >= 2 {
            assert(cur[0] == text@[lo as int] && cur[1] == text@[lo + 1]);
        }
        assert(hex_region(text@) == strip_hex_prefix(cur));
    }
    if hi - lo >= 2 && text[lo] == 0x30 && text[lo + 1] == 0x78 {
        proof {
            let cur = text@.subrange(lo as int, hi as int);
            assert(cur.skip(2) =~= text@.subrange(lo + 2, hi as int));
        }
        lo += 2;
    }
    let ghost region = hex_region(text@);
    proof {
        assert(region =~= text@.subrange(lo as int, hi as int));
    }
    let mut out: Vec<u8> = Vec::new();
    let mut i: usize = lo;
    // An odd number of digits: the leading digit is a byte by itself.
    if (hi - lo) % 2 == 1 {
        match hex_val(text[i]) {
            Some(v) => {
                out.push(v);
                proof {
                    assert(region[0] == text@[lo as int]);
                    assert(region.drop_first() =~= text@.subrange(lo + 1, hi as int));
                    assert(decode_hex(region) == seq![v] + decode_hex(
                        text@.subrange(lo + 1, hi as int),
                    ));
                }
            },
            None => {
                proof {
                    assert(region[0] == text@[i as int]);
                    assert(!all_hex(region));
                }
                return Err(Error::InvalidHex(i));
            },
        }
        i += 1;
    }
    while i < hi
        invariant
            n == text@.len(),
            lo <= i <= hi <= n,
            (hi - i) % 2 == 0,
            region == hex_region(text@),
            region =~= text@.subrange(lo as int, hi as int),
            forall|j: int| lo <= j < i ==> spec_hex_val(text@[j]) is Some,
            decode_hex(region) == out@ + decode_hex(text@.subrange(i as int, hi as int)),
        decreases hi - i,
    {
        let a = match hex_val(text[i]) {
            Some(v) => v,
            None => {
                proof {
                    assert(region[i - lo] == text@[i as int]);
                    assert(!all_hex(region));
                }
                return Err(Error::InvalidHex(i));
            },
        };
        let b = match hex_val(text[i + 1]) {
            Some(v) => v,
            None => {
                proof {
                    assert(region[i + 1 - lo] == text@[i + 1]);
                    assert(!all_hex(region));
                }
                return Err(Error::InvalidHex(i + 1));
            },
        };
        let ghost pre = out@;
        out.push(a * 16 + b);
        proof {
            let rest = text@.subrange(i as int, hi as int);
            assert(rest[0] == text@[i as int] && rest[1] == text@[i + 1]);
            assert(rest.skip(2) =~= text@.subrange(i + 2, hi as int));
            assert(decode_hex(rest) == seq![(a * 16 + b) as u8] + decode_hex(
                text@.subrange(i + 2, hi as int),
            ));
            assert(out@ + decode_hex(text@.subrange(i + 2, hi as int)) =~= pre + decode_hex(
                rest,
            ));
        }
        i += 2;
    }
    proof {
        assert(text@.subrange(hi as int, hi as int).len() == 0);
        assert(out@ + decode_hex(text@.subrange(hi as int, hi as int)) =~= out@);
        assert forall|j: int| 0 <= j < region.len() implies spec_hex_val(region[j]) is Some by {
            assert(region[j] == text@[lo + j]);
        }
    }
    Ok(out)
}

// ===================================================================
// The emitted byte list and its round trip
// ===================================================================

/// One byte as exactly two hex digits.
pub open spec fn byte_chars(b: int) -> Seq<char> {
    seq![hex_digit(b / 16), hex_digit(b % 16)]
}

/// The comma-separated byte items of the bytecode constant:
/// `0xHH, 0xHH, ...`.
pub open spec fn byte_items(bs: Seq<u8>) -> Seq<char>
    decreases bs.len(),
{
    if bs.len() == 0 {
        Seq::empty()
    } else if bs.len() == 1 {
        "0x"@ + byte_chars(bs[0] as int)
    } else {
        "0x"@ + byte_chars(bs[0] as int) + ", "@ + byte_items(bs.drop_first())
    }
}

/// The numeric value a hex digit character stands for.
pub open spec fn char_val(c: char) -> int {
    if c == '0' {
        0
    } else if c == '1' {
        1
    } else if c == '2' {
        2
    } else if c == '3' {
        3
    } else if c == '4' {
        4
    } else if c == '5' {
        5
    } else if c == '6' {
        6
    } else if c == '7' {
        7
    } else if c == '8' {
        8
    } else if c == '9' {
        9
    } else if c == 'a' {
        10
    } else if c == 'b' {
        11
    } else if c == 'c' {
        12
    } else if c == 'd' {
        13
    } else if c == 'e' {
        14
    } else {
        15
    }
}

/// Decode the fixed-stride byte items back into bytes: each item is
/// four characters (`0xHH`), followed by a two-character separator.
pub open spec fn decode_items(s: Seq<char>) -> Seq<u8>
    decreases s.len(),
{
    if s.len() < 4 {
        Seq::empty()
    } else if s.len() < 6 {
        seq![(char_val(s[2]) * 16 + char_val(s[3])) as u8]
    } else {
        seq![(char_val(s[2]) * 16 + char_val(s[3])) as u8] + decode_items(s.skip(6))
    }
}

/// Reading back a rendered hex digit yields the digit.
proof fn lemma_char_val(d: int)
    requires
        0 <= d < 16,
    ensures
        char_val(hex_digit(d)) == d,
{
}

/// The round-trip law of the emitted bytecode constant: decoding the
/// rendered byte items yields exactly the bytes that were rendered.
pub proof fn lemma_byte_items_round_trip(bs: Seq<u8>)
    ensures
        decode_items(byte_items(bs)) == bs,
    decreases bs.len(),
{
    reveal_strlit("0x");
    reveal_strlit(", ");
    if bs.len() == 0 {
        assert(byte_items(bs).len() == 0);
        assert(decode_items(byte_items(bs)) =~= bs);
    } else {
        let s = byte_items(bs);
        lemma_char_val(bs[0] as int / 16);
        lemma_char_val(bs[0] as int % 16);
        assert(s[2] == hex_digit(bs[0] as int / 16));
        assert(s[3] == hex_digit(bs[0] as int % 16));
        assert((char_val(s[2]) * 16 + char_val(s[3])) as u8 == bs[0]);
        if bs.len() == 1 {
            assert(s.len() == 4);
            assert(decode_items(s) =~= bs);
        } else {
            lemma_byte_items_round_trip(bs.drop_first());
            assert(s.skip(6) =~= byte_items(bs.drop_first()));
            assert(decode_items(s) =~= bs);
        }
    }
}

/// Extending the byte list by one byte appends one item.
pub proof fn lemma_byte_items_push(bs: Seq<u8>, x: u8)
    ensures
        byte_items(bs.push(x)) == if bs.len() == 0 {
            "0x"@ + byte_chars(x as int)
        } else {
            byte_items(bs) + ", "@ + byte_items(seq![x])
        },
    decreases bs.len(),
{
    let e = bs.push(x);
    if bs.len() == 0 {
        assert(e.len() == 1);
        assert(e[0] == x);
        assert(byte_items(e) =~= "0x"@ + byte_chars(x as int));
    } else {
        lemma_byte_items_push(bs.drop_first(), x);
        assert(e.drop_first() =~= bs.drop_first().push(x));
        assert(e[0] == bs[0]);
        if bs.len() == 1 {
            assert(byte_items(e) =~= byte_items(bs) + ", "@ + byte_items(seq![x]));
        } else {
            assert(byte_items(e) == "0x"@ + byte_chars(e[0] as int) + ", "@ + byte_items(
                e.drop_first(),
            ));
            assert(byte_items(e) =~= byte_items(bs) + ", "@ + byte_items(seq![x]));
        }
    }
}

/// Append one byte as `0xHH`.
pub fn append_byte_hex(s: &mut String, b: u8)
    ensures
        final(s)@ == old(s)@ + "0x"@ + byte_chars(b as int),
{
    s.append("0x");
    append_uhex64_pad(s, b as u64, 2);
    proof {
        reveal_with_fuel(crate::render::pow16, 4);
        assert(crate::render::pow16(2) == 256);
        crate::render::lemma_uhex_len_bound(b as int, 2);
        assert(spec_uhex_pad(b as int, 2) =~= byte_chars(b as int)) by {
            if b >= 16 {
                assert(crate::render::spec_uhex(b as int / 16) =~= seq![
                    hex_digit(b as int / 16),
                ]);
                assert(crate::render::spec_uhex(b as int) =~= byte_chars(b as int));
            } else {
                assert(crate::render::spec_uhex(b as int) =~= seq![hex_digit(b as int)]);
            }
        }
        assert(final(s)@ =~= old(s)@ + "0x"@ + byte_chars(b as int));
    }
}

} // verus!
