use vstd::prelude::*;

use vstd::arithmetic::div_mod::lemma_fundamental_div_mod;

verus! {

/// The character of a single decimal digit value.
pub open spec fn digit_char(d: nat) -> char {
    if d == 0 {
        '0'
    } else if d == 1 {
        '1'
    } else if d == 2 {
        '2'
    } else if d == 3 {
        '3'
    } else if d == 4 {
        '4'
    } else if d == 5 {
        '5'
    } else if d == 6 {
        '6'
    } else if d == 7 {
        '7'
    } else if d == 8 {
        '8'
    } else {
        '9'
    }
}

/// Whether `c` is a decimal digit character.
pub open spec fn is_digit(c: char) -> bool {
    c == '0' || c == '1' || c == '2' || c == '3' || c == '4' || c == '5' || c == '6' || c == '7'
        || c == '8' || c == '9'
}

/// The value of a decimal digit character; meaningful only when `is_digit`.
pub open spec fn digit_val(c: char) -> nat {
    if c == '0' {
        0
    } else if c == '1' {
        1
    } else if c == '2' {
        2
    } else if c == '3' {
        3
    } else if c == '4' {
        4
    } else if c == '5' {
        5
    } else if c == '6' {
        6
    } else if c == '7' {
        7
    } else if c == '8' {
        8
    } else {
        9
    }
}

/// Ten to the `w`th power.
pub open spec fn pow10(w: nat) -> nat
    decreases w,
{
    if w == 0 {
        1
    } else {
        10 * pow10((w - 1) as nat)
    }
}

/// The lowest `width` decimal digits of `n`, zero padded, most significant
/// first; all of `n` when `n < pow10(width)`.
pub open spec fn padded_decimal(n: nat, width: nat) -> Seq<char>
    decreases width,
{
    if width == 0 {
        Seq::empty()
    } else {
        padded_decimal(n / 10, (width - 1) as nat).push(digit_char(n % 10))
    }
}

/// `n` in ordinary decimal notation: no padding, no leading zero except for
/// zero itself.
pub open spec fn decimal(n: nat) -> Seq<char>
    decreases n,
{
    if n < 10 {
        seq![digit_char(n)]
    } else {
        decimal(n / 10).push(digit_char(n % 10))
    }
}

/// Every character of `s` is a decimal digit.
pub open spec fn all_digits(s: Seq<char>) -> bool {
    forall|i: int| 0 <= i < s.len() ==> is_digit(#[trigger] s[i])
}

/// The number that the digit characters of `s` denote, most significant
/// first; meaningful only when `all_digits(s)`.
pub open spec fn decimal_value(s: Seq<char>) -> nat
    decreases s.len(),
{
    if s.len() == 0 {
        0
    } else {
        decimal_value(s.drop_last()) * 10 + digit_val(s.last())
    }
}

pub proof fn lemma_pow10_pos(w: nat)
    ensures
        pow10(w) >= 1,
    decreases w,
{
    if w > 0 {
        lemma_pow10_pos((w - 1) as nat);
    }
}

pub proof fn lemma_pow10_monotone(a: nat, b: nat)
    requires
        a <= b,
    ensures
        pow10(a) <= pow10(b),
    decreases b,
{
    if a < b {
        lemma_pow10_monotone(a, (b - 1) as nat);
        lemma_pow10_pos((b - 1) as nat);
    }
}

/// The concrete bounds of the two fixed field widths used by this crate:
/// twenty digits hold any 64-bit value and ten digits hold any 32-bit value.
pub proof fn lemma_pow10_bounds()
    ensures
        pow10(10) == 0x2540BE400,
        pow10(20) == 0x56BC75E2D63100000,
        u32::MAX < pow10(10),
        u64::MAX < pow10(20),
        usize::MAX < pow10(20),
{
    reveal_with_fuel(pow10, 21);
    assert(pow10(10) == 0x2540BE400);
    assert(pow10(20) == 0x56BC75E2D63100000);
}

pub proof fn lemma_padded_decimal_len(n: nat, width: nat)
    ensures
        padded_decimal(n, width).len() == width,
    decreases width,
{
    if width > 0 {
        lemma_padded_decimal_len(n / 10, (width - 1) as nat);
    }
}

pub proof fn lemma_padded_decimal_digits(n: nat, width: nat)
    ensures
        all_digits(padded_decimal(n, width)),
    decreases width,
{
    if width > 0 {
        lemma_padded_decimal_digits(n / 10, (width - 1) as nat);
        let s = padded_decimal(n / 10, (width - 1) as nat);
        assert(is_digit(digit_char(n % 10)));
        assert(forall|i: int|
            0 <= i < s.len() ==> #[trigger] s.push(digit_char(n % 10))[i] == s[i]);
        assert(s.push(digit_char(n % 10)).last() == digit_char(n % 10));
    }
}

/// Writing `n` as `width` zero-padded digits and reading them back yields
/// `n`, as long as `n` fits in `width` digits.
pub proof fn lemma_padded_decimal_value(n: nat, width: nat)
    requires
        n < pow10(width),
    ensures
        decimal_value(padded_decimal(n, width)) == n,
    decreases width,
{
    if width == 0 {
        lemma_pow10_pos(width);
    } else {
        assert(n / 10 < pow10((width - 1) as nat)) by {
            lemma_fundamental_div_mod(n as int, 10);
        }
        lemma_padded_decimal_value(n / 10, (width - 1) as nat);
        let s = padded_decimal(n / 10, (width - 1) as nat);
        let d = digit_char(n % 10);
        assert(s.push(d).drop_last() =~= s);
        assert(s.push(d).last() == d);
        assert(digit_val(digit_char(n % 10)) == n % 10);
        lemma_fundamental_div_mod(n as int, 10);
    }
}

/// Zero-padded notation is canonical: a sequence of digit characters is the
/// padded notation, at its own width, of the value it denotes.
pub proof fn lemma_padded_decimal_canonical(s: Seq<char>)
    requires
        all_digits(s),
    ensures
        padded_decimal(decimal_value(s), s.len()) == s,
    decreases s.len(),
{
    if s.len() == 0 {
        assert(padded_decimal(decimal_value(s), 0) =~= s);
    } else {
        let v = decimal_value(s);
        let q = decimal_value(s.drop_last());
        let c = s.last();
        assert(is_digit(c));
        assert(digit_val(c) < 10);
        assert(v == q * 10 + digit_val(c));
        assert(v / 10 == q && v % 10 == digit_val(c)) by {
            lemma_fundamental_div_mod(v as int, 10);
        }
        assert(all_digits(s.drop_last()));
        lemma_padded_decimal_canonical(s.drop_last());
        assert(digit_char(digit_val(c)) == c);
        assert(padded_decimal(v, s.len()) =~= s);
    }
}

/// Relies on `String::push`: appends exactly the given character to the end
/// of the string.
#[verifier::external_body]
pub(crate) fn push_char(out: &mut String, c: char)
    ensures
        final(out)@ == old(out)@.push(c),
{
    out.push(c);
}

/// The character of a digit value.
pub(crate) fn digit_to_char(d: u8) -> (c: char)
    requires
        d < 10,
    ensures
        c == digit_char(d as nat),
{
    if d == 0 {
        '0'
    } else if d == 1 {
        '1'
    } else if d == 2 {
        '2'
    } else if d == 3 {
        '3'
    } else if d == 4 {
        '4'
    } else if d == 5 {
        '5'
    } else if d == 6 {
        '6'
    } else if d == 7 {
        '7'
    } else if d == 8 {
        '8'
    } else {
        '9'
    }
}

/// The value of a digit character, or nothing if `c` is not a digit.
pub(crate) fn char_to_digit(c: char) -> (r: Option<u8>)
    ensures
        r is Some <==> is_digit(c),
        r matches Some(d) ==> d < 10 && d as nat == digit_val(c),
{
    match c {
        '0' => Some(0),
        '1' => Some(1),
        '2' => Some(2),
        '3' => Some(3),
        '4' => Some(4),
        '5' => Some(5),
        '6' => Some(6),
        '7' => Some(7),
        '8' => Some(8),
        '9' => Some(9),
        _ => None,
    }
}

/// Appends `n` to `out` as exactly `width` zero-padded decimal digits.
pub(crate) fn push_padded_decimal(out: &mut String, n: u64, width: usize)
    ensures
        final(out)@ == old(out)@ + padded_decimal(n as nat, width as nat),
    decreases width,
{
    if width == 0 {
        assert(final(out)@ =~= old(out)@ + padded_decimal(n as nat, 0));
    } else {
        push_padded_decimal(out, n / 10, width - 1);
        let d: u8 = (n % 10) as u8;
        let c = digit_to_char(d);
        push_char(out, c);
        proof {
            let prefix = padded_decimal((n / 10) as nat, (width - 1) as nat);
            assert(padded_decimal(n as nat, width as nat) == prefix.push(
                digit_char((n % 10) as nat),
            ));
            assert(final(out)@ =~= old(out)@ + padded_decimal(n as nat, width as nat));
        }
    }
}

/// Appends `n` to `out` in ordinary decimal notation.
pub(crate) fn push_decimal(out: &mut String, n: u64)
    ensures
        final(out)@ == old(out)@ + decimal(n as nat),
    decreases n,
{
    if n < 10 {
        let c = digit_to_char(n as u8);
        push_char(out, c);
        assert(final(out)@ =~= old(out)@ + decimal(n as nat));
    } else {
        push_decimal(out, n / 10);
        let d: u8 = (n % 10) as u8;
        let c = digit_to_char(d);
        push_char(out, c);
        proof {
            let prefix = decimal((n / 10) as nat);
            assert(decimal(n as nat) == prefix.push(digit_char((n % 10) as nat)));
            assert(final(out)@ =~= old(out)@ + decimal(n as nat));
        }
    }
}

/// Reads the `width` characters of `s` at offset `off` as a zero-padded
/// decimal number. Fails exactly when a character is not a digit or the
/// denoted value exceeds `max`.
pub(crate) fn parse_padded_decimal(s: &str, off: usize, width: usize, max: u64) -> (r: Option<u64>)
    requires
        off + width <= s@.len(),
        off + width <= usize::MAX,
        width <= 20,
    ensures
        r is Some <==> (all_digits(s@.subrange(off as int, off as int + width)) && decimal_value(
            s@.subrange(off as int, off as int + width),
        ) <= max),
        r matches Some(v) ==> v as nat == decimal_value(
            s@.subrange(off as int, off as int + width),
        ),
{
    let ghost whole = s@.subrange(off as int, off as int + width);
    let mut acc: u128 = 0;
    let mut i: usize = 0;
    assert(s@.subrange(off as int, off as int) =~= Seq::<char>::empty());
    while i < width
        invariant
            off + width <= s@.len(),
            off + width <= usize::MAX,
            width <= 20,
            i <= width,
            whole == s@.subrange(off as int, off as int + width),
            all_digits(s@.subrange(off as int, off as int + i)),
            acc as nat == decimal_value(s@.subrange(off as int, off as int + i)),
            acc < pow10(i as nat),
        decreases width - i,
    {
        let c = s.get_char(off + i);
        let ghost prefix = s@.subrange(off as int, off as int + i);
        let ghost extended = s@.subrange(off as int, off as int + i + 1);
        proof {
            assert(extended.drop_last() =~= prefix);
            assert(extended.last() == c);
            assert(whole[i as int] == c);
        }
        match char_to_digit(c) {
            None => {
                assert(!all_digits(whole));
                return None;
            },
            Some(d) => {
                proof {
                    lemma_pow10_monotone(i as nat + 1, 20);
                    lemma_pow10_bounds();
                }
                acc = acc * 10 + (d as u128);
                proof {
                    assert(all_digits(extended));
                    assert(acc as nat == decimal_value(extended));
                }
                i = i + 1;
            },
        }
    }
    assert(whole =~= s@.subrange(off as int, off as int + i));
    proof {
        lemma_pow10_monotone(i as nat, 20);
        lemma_pow10_bounds();
    }
    if acc <= max as u128 {
        Some(acc as u64)
    } else {
        None
    }
}

} // verus!
