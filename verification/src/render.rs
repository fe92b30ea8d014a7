//! Verified text rendering: decimal and hexadecimal numerals as
//! character sequences, used by the emitted proof source.

use vstd::prelude::*;

verus! {

/// The decimal digit character for a value below ten.
pub open spec fn dec_digit(d: int) -> char {
    if d == 0 {
        '0'
    } else if d == 1 {
        '1'
    } else if d == 2 {
        '2'
    } else if d == 3 {
        '3'
    } else if d == 4 {
        '4'
    } else if d == 5 {
        '5'
    } else if d == 6 {
        '6'
    } else if d == 7 {
        '7'
    } else if d == 8 {
        '8'
    } else {
        '9'
    }
}

/// The hexadecimal digit character for a value below sixteen.
pub open spec fn hex_digit(d: int) -> char {
    if d < 10 {
        dec_digit(d)
    } else if d == 10 {
        'a'
    } else if d == 11 {
        'b'
    } else if d == 12 {
        'c'
    } else if d == 13 {
        'd'
    } else if d == 14 {
        'e'
    } else {
        'f'
    }
}

/// The decimal numeral of a number, most significant digit first.
pub open spec fn spec_udec(n: int) -> Seq<char>
    recommends
        n >= 0,
    decreases n,
{
    if n < 10 {
        seq![dec_digit(n)]
    } else {
        spec_udec(n / 10).push(dec_digit(n % 10))
    }
}

/// The minimal hexadecimal numeral of a number, without a prefix.
pub open spec fn spec_uhex(n: int) -> Seq<char>
    recommends
        n >= 0,
    decreases n,
{
    if n < 16 {
        seq![hex_digit(n)]
    } else {
        spec_uhex(n / 16).push(hex_digit(n % 16))
    }
}

/// The hexadecimal numeral of a number, zero-padded on the left to at
/// least `width` digits.
pub open spec fn spec_uhex_pad(n: int, width: int) -> Seq<char> {
    if spec_uhex(n).len() >= width {
        spec_uhex(n)
    } else {
        Seq::new((width - spec_uhex(n).len()) as nat, |i: int| '0') + spec_uhex(n)
    }
}

/// Append a single decimal digit to a string.
pub fn append_dec_digit(s: &mut String, d: usize)
    requires
        d < 10,
    ensures
        final(s)@ == old(s)@.push(dec_digit(d as int)),
{
    proof {
        reveal_strlit("0");
        reveal_strlit("1");
        reveal_strlit("2");
        reveal_strlit("3");
        reveal_strlit("4");
        reveal_strlit("5");
        reveal_strlit("6");
        reveal_strlit("7");
        reveal_strlit("8");
        reveal_strlit("9");
    }
    match d {
        0 => s.append("0"),
        1 => s.append("1"),
        2 => s.append("2"),
        3 => s.append("3"),
        4 => s.append("4"),
        5 => s.append("5"),
        6 => s.append("6"),
        7 => s.append("7"),
        8 => s.append("8"),
        _ => s.append("9"),
    }
    assert(final(s)@ =~= old(s)@.push(dec_digit(d as int)));
}

/// Append a single hexadecimal digit to a string.
pub fn append_hex_digit(s: &mut String, d: usize)
    requires
        d < 16,
    ensures
        final(s)@ == old(s)@.push(hex_digit(d as int)),
{
    if d < 10 {
        append_dec_digit(s, d);
    } else {
        proof {
            reveal_strlit("a");
            reveal_strlit("b");
            reveal_strlit("c");
            reveal_strlit("d");
            reveal_strlit("e");
            reveal_strlit("f");
        }
        match d {
            10 => s.append("a"),
            11 => s.append("b"),
            12 => s.append("c"),
            13 => s.append("d"),
            14 => s.append("e"),
            _ => s.append("f"),
        }
        assert(final(s)@ =~= old(s)@.push(hex_digit(d as int)));
    }
}

/// Append the decimal numeral of a number to a string.
pub fn append_udec(s: &mut String, n: usize)
    ensures
        final(s)@ == old(s)@ + spec_udec(n as int),
    decreases n,
{
    if n < 10 {
        append_dec_digit(s, n);
        assert(final(s)@ =~= old(s)@ + spec_udec(n as int));
    } else {
        append_udec(s, n / 10);
        append_dec_digit(s, n % 10);
        assert(final(s)@ =~= old(s)@ + spec_udec(n as int));
    }
}

/// Append the minimal hexadecimal numeral of a 64-bit number.
pub fn append_uhex64(s: &mut String, n: u64)
    ensures
        final(s)@ == old(s)@ + spec_uhex(n as int),
    decreases n,
{
    if n < 16 {
        append_hex_digit(s, (n % 16) as usize);
        assert(final(s)@ =~= old(s)@ + spec_uhex(n as int));
    } else {
        append_uhex64(s, n / 16);
        append_hex_digit(s, (n % 16) as usize);
        assert(final(s)@ =~= old(s)@ + spec_uhex(n as int));
    }
}

/// The number of digits in the minimal hexadecimal numeral.
pub fn hex_width64(n: u64) -> (c: usize)
    ensures
        c == spec_uhex(n as int).len(),
        c >= 1,
    decreases n,
{
    if n < 16 {
        1
    } else {
        let c = hex_width64(n / 16);
        proof {
            assert(spec_uhex(n as int).len() == spec_uhex(n as int / 16).len() + 1);
            reveal_with_fuel(pow16, 20);
            assert(pow16(16) == 0x1_0000_0000_0000_0000);
            lemma_uhex_len_bound(n as int, 16);
        }
        c + 1
    }
}

/// A numeral of a number below `16^k` has at most `k` digits.
pub proof fn lemma_uhex_len_bound(n: int, k: int)
    requires
        0 <= n,
        1 <= k,
        n < pow16(k),
    ensures
        spec_uhex(n).len() <= k,
    decreases k,
{
    if n >= 16 {
        assert(pow16(k) == 16 * pow16(k - 1));
        assert(n / 16 < pow16(k - 1)) by (nonlinear_arith)
            requires
                n < 16 * pow16(k - 1),
                n >= 16,
                pow16(k - 1) >= 1,
        {
        }
        lemma_uhex_len_bound(n / 16, k - 1);
    }
}

/// Powers of sixteen.
pub open spec fn pow16(k: int) -> int
    decreases k,
{
    if k <= 0 {
        1
    } else {
        16 * pow16(k - 1)
    }
}

/// Append the hexadecimal numeral of a 64-bit number, zero-padded on
/// the left to at least `width` digits.
pub fn append_uhex64_pad(s: &mut String, n: u64, width: usize)
    ensures
        final(s)@ == old(s)@ + spec_uhex_pad(n as int, width as int),
{
    let ghost orig = s@;
    let w = hex_width64(n);
    let mut zeros: usize = 0;
    if w < width {
        let pad = width - w;
        while zeros < pad
            invariant
                zeros <= pad,
                pad == width - w,
                w == spec_uhex(n as int).len(),
                w < width,
                s@ == orig + Seq::new(zeros as nat, |i: int| '0'),
            decreases pad - zeros,
        {
            let ghost pre = s@;
            append_dec_digit(s, 0);
            zeros += 1;
            proof {
                assert(s@ =~= orig + Seq::new(zeros as nat, |i: int| '0'));
            }
        }
    }
    append_uhex64(s, n);
    proof {
        assert(s@ =~= orig + spec_uhex_pad(n as int, width as int));
    }
}

} // verus!
