//! Decimal digit strings: the numeric value of a digit run and the rendering
//! of a value back to a zero-padded digit string, as packing needs them.

use vstd::prelude::*;

verus! {

/// Ten to the `n`-th power.
pub open spec fn pow10(n: nat) -> nat
    decreases n,
{
    if n == 0 {
        1
    } else {
        10 * pow10((n - 1) as nat)
    }
}

/// Powers of ten grow monotonically.
pub proof fn lemma_pow10_mono(m: nat, n: nat)
    requires
        m <= n,
    ensures
        pow10(m) <= pow10(n),
    decreases n,
{
    if m < n {
        lemma_pow10_mono(m, (n - 1) as nat);
    }
}

/// The concrete value of ten to the eighteenth, the largest index width
/// packing accepts; it fits comfortably in a `u64`.
pub proof fn lemma_pow10_18()
    ensures
        pow10(18) == 1000000000000000000,
{
    reveal_with_fuel(pow10, 19);
}

/// The numeric value of a digit character; meaningful only for ASCII digits.
pub open spec fn digit_val(c: char) -> int {
    c as u32 - 48
}

/// The digit character of a value below ten.
pub open spec fn digit_char_of(d: int) -> char {
    if d == 0 {
        '0'
    } else if d == 1 {
        '1'
    } else if d == 2 {
        '2'
    } else if d == 3 {
        '3'
    } else if d == 4 {
        '4'
    } else if d == 5 {
        '5'
    } else if d == 6 {
        '6'
    } else if d == 7 {
        '7'
    } else if d == 8 {
        '8'
    } else {
        '9'
    }
}

/// The decimal representation of a non-negative value, most significant
/// digit first, without leading zeroes (a single `0` for zero).
pub open spec fn dec_rep(v: int) -> Seq<char>
    decreases v,
{
    if v < 10 {
        seq![digit_char_of(v)]
    } else {
        dec_rep(v / 10).push(digit_char_of(v % 10))
    }
}

/// A run of `n` zero characters.
pub open spec fn zeroes(n: int) -> Seq<char>
    decreases n,
{
    if n <= 0 {
        Seq::<char>::empty()
    } else {
        zeroes(n - 1).push('0')
    }
}

/// The decimal representation of `v`, zero-padded on the left to width `w`
/// (left alone when it is already at least that wide).
pub open spec fn padded(v: int, w: int) -> Seq<char> {
    if dec_rep(v).len() >= w {
        dec_rep(v)
    } else {
        zeroes(w - dec_rep(v).len()) + dec_rep(v)
    }
}

/// The one-character string of a digit value.
pub fn digit_str(d: u64) -> (r: &'static str)
    requires
        d < 10,
    ensures
        r@ == seq![digit_char_of(d as int)],
{
    proof {
        reveal_strlit("0");
        reveal_strlit("1");
        reveal_strlit("2");
        reveal_strlit("3");
        reveal_strlit("4");
        reveal_strlit("5");
        reveal_strlit("6");
        reveal_strlit("7");
        reveal_strlit("8");
        reveal_strlit("9");
        assert("0"@ =~= seq![digit_char_of(0)]);
        assert("1"@ =~= seq![digit_char_of(1)]);
        assert("2"@ =~= seq![digit_char_of(2)]);
        assert("3"@ =~= seq![digit_char_of(3)]);
        assert("4"@ =~= seq![digit_char_of(4)]);
        assert("5"@ =~= seq![digit_char_of(5)]);
        assert("6"@ =~= seq![digit_char_of(6)]);
        assert("7"@ =~= seq![digit_char_of(7)]);
        assert("8"@ =~= seq![digit_char_of(8)]);
        assert("9"@ =~= seq![digit_char_of(9)]);
    }
    if d == 0 {
        "0"
    } else if d == 1 {
        "1"
    } else if d == 2 {
        "2"
    } else if d == 3 {
        "3"
    } else if d == 4 {
        "4"
    } else if d == 5 {
        "5"
    } else if d == 6 {
        "6"
    } else if d == 7 {
        "7"
    } else if d == 8 {
        "8"
    } else {
        "9"
    }
}

/// Appends the decimal representation of `v` to `out`.
pub fn push_dec(out: &mut String, v: u64)
    ensures
        final(out)@ == old(out)@ + dec_rep(v as int),
    decreases v,
{
    if v < 10 {
        out.append(digit_str(v));
        proof {
            assert(out@ =~= old(out)@ + dec_rep(v as int));
        }
    } else {
        push_dec(out, v / 10);
        out.append(digit_str(v % 10));
        proof {
            assert(out@ =~= old(out)@ + dec_rep(v as int));
        }
    }
}

/// Appends the decimal representation of `v`, zero-padded to width `w`.
pub fn push_padded(out: &mut String, v: u64, w: usize)
    ensures
        final(out)@ == old(out)@ + padded(v as int, w as int),
{
    let mut tmp = String::new();
    push_dec(&mut tmp, v);
    proof {
        assert(tmp@ =~= dec_rep(v as int));
    }
    let dlen = tmp.as_str().unicode_len();
    let mut z: usize = dlen;
    while z < w
        invariant
            dlen <= z,
            dlen == dec_rep(v as int).len(),
            dlen >= w ==> z == dlen,
            dlen < w ==> z <= w,
            out@ == old(out)@ + zeroes(z - dlen),
        decreases w - z,
    {
        proof {
            reveal_strlit("0");
        }
        out.append("0");
        proof {
            assert(out@ =~= old(out)@ + zeroes(z + 1 - dlen));
        }
        z = z + 1;
    }
    out.append(tmp.as_str());
    proof {
        assert(out@ =~= old(out)@ + padded(v as int, w as int));
    }
}

} // verus!
