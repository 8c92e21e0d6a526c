use vstd::prelude::*;
use vstd::arithmetic::div_mod::{lemma_fundamental_div_mod, lemma_fundamental_div_mod_converse};

use crate::unit_index::{lemma_power_monotonic, power};

verus! {

/// The character that writes decimal digit `d` (for `d < 10`).
pub open spec fn digit_char(d: nat) -> char {
    if d == 0 {
        '0'
    } else if d == 1 {
        '1'
    } else if d == 2 {
        '2'
    } else if d == 3 {
        '3'
    } else if d == 4 {
        '4'
    } else if d == 5 {
        '5'
    } else if d == 6 {
        '6'
    } else if d == 7 {
        '7'
    } else if d == 8 {
        '8'
    } else {
        '9'
    }
}

/// `n` in decimal, with no leading zero (`0` is written `"0"`).
pub open spec fn digits_of(n: nat) -> Seq<char>
    decreases n,
{
    if n < 10 {
        seq![digit_char(n)]
    } else {
        digits_of(n / 10).push(digit_char(n % 10))
    }
}

/// The lowest `width` decimal digits of `n`, zeros in front included.
pub open spec fn padded_digits(n: nat, width: nat) -> Seq<char>
    decreases width,
{
    if width == 0 {
        Seq::empty()
    } else {
        padded_digits(n / 10, (width - 1) as nat).push(digit_char(n % 10))
    }
}

/// The number `n / 10^places` written with exactly `places` decimals.
pub open spec fn fixed_point_text(n: nat, places: nat) -> Seq<char> {
    if places == 0 {
        digits_of(n)
    } else {
        digits_of(n / power(10, places)) + seq!['.'] + padded_digits(n % power(10, places), places)
    }
}

/// `num / den` rounded to the nearest integer, a tie going to the even one.
pub open spec fn round_half_even(num: nat, den: nat) -> nat {
    let q = num / den;
    let r = num % den;
    if 2 * r > den || (2 * r == den && q % 2 == 1) {
        q + 1
    } else {
        q
    }
}

/// The text of `bytes / div`: with `places` decimals, rounded to nearest, or
/// as a bare integer when `remove_zero` is set and the quotient is exact.
pub open spec fn scaled_text(bytes: nat, div: nat, places: nat, remove_zero: bool) -> Seq<char> {
    if remove_zero && bytes % div == 0 {
        digits_of(bytes / div)
    } else {
        fixed_point_text(round_half_even(bytes * power(10, places), div), places)
    }
}

/// The number that a sequence of decimal digits writes, most significant first.
spec fn digits_value(s: Seq<u8>) -> nat
    decreases s.len(),
{
    if s.len() == 0 {
        0
    } else {
        digits_value(s.drop_last()) * 10 + s.last() as nat
    }
}

spec fn all_digits(s: Seq<u8>) -> bool {
    forall|i: int| 0 <= i < s.len() ==> s[i] < 10
}

spec fn digit_chars(s: Seq<u8>) -> Seq<char> {
    s.map_values(|d: u8| digit_char(d as nat))
}

proof fn lemma_power_succ(base: nat, e: nat)
    ensures
        power(base, e + 1) == base * power(base, e),
{
    assert(((e + 1) as nat - 1) as nat == e);
}

proof fn lemma_digits_value_push(s: Seq<u8>, d: u8)
    ensures
        digits_value(s.push(d)) == digits_value(s) * 10 + d,
{
    assert(s.push(d).drop_last() =~= s);
}

proof fn lemma_digits_value_bound(s: Seq<u8>)
    requires
        all_digits(s),
    ensures
        digits_value(s) < power(10, s.len()),
    decreases s.len(),
{
    if s.len() > 0 {
        let p = s.drop_last();
        lemma_digits_value_bound(p);
        lemma_power_succ(10, p.len());
        let v = digits_value(p);
        let w = power(10, p.len());
        let l = s.last() as nat;
        assert(v * 10 + l < 10 * w) by (nonlinear_arith)
            requires
                v < w,
                l < 10,
        ;
    }
}

proof fn lemma_padded_digit_chars(s: Seq<u8>)
    requires
        all_digits(s),
    ensures
        padded_digits(digits_value(s), s.len()) == digit_chars(s),
    decreases s.len(),
{
    if s.len() == 0 {
        assert(digit_chars(s) =~= Seq::empty());
    } else {
        let p = s.drop_last();
        lemma_padded_digit_chars(p);
        let v = digits_value(s);
        lemma_fundamental_div_mod_converse(v as int, 10, digits_value(p) as int, s.last() as int);
        assert(digit_chars(s) =~= digit_chars(p).push(digit_char(s.last() as nat)));
    }
}

proof fn lemma_digits_value_update(s: Seq<u8>, j: int, v: u8)
    requires
        0 <= j < s.len(),
    ensures
        digits_value(s.update(j, v)) + s[j] * power(10, (s.len() - 1 - j) as nat) == digits_value(s)
            + v * power(10, (s.len() - 1 - j) as nat),
    decreases s.len(),
{
    let t = s.update(j, v);
    if j == s.len() - 1 {
        assert(t.drop_last() =~= s.drop_last());
        assert(power(10, 0) == 1);
        assert((s.len() - 1 - j) as nat == 0);
    } else {
        let e = (s.len() - 2 - j) as nat;
        assert(t.drop_last() =~= s.drop_last().update(j, v));
        lemma_digits_value_update(s.drop_last(), j, v);
        lemma_power_succ(10, e);
        assert((s.len() - 1 - j) as nat == e + 1);
        assert(t.last() == s.last());
        assert(s.drop_last()[j] == s[j]);
        let w = power(10, e);
        let a = digits_value(t.drop_last());
        let b = digits_value(s.drop_last());
        assert((a * 10 + s.last()) + s[j] * (10 * w) == (b * 10 + s.last()) + v * (10 * w))
            by (nonlinear_arith)
            requires
                a + s[j] * w == b + v * w,
        ;
    }
}

/// Appends the character of digit `d`.
fn push_digit(out: &mut String, d: u8)
    requires
        d < 10,
    ensures
        final(out)@ == old(out)@.push(digit_char(d as nat)),
{
    let piece: &str = if d == 0 {
        "0"
    } else if d == 1 {
        "1"
    } else if d == 2 {
        "2"
    } else if d == 3 {
        "3"
    } else if d == 4 {
        "4"
    } else if d == 5 {
        "5"
    } else if d == 6 {
        "6"
    } else if d == 7 {
        "7"
    } else if d == 8 {
        "8"
    } else {
        "9"
    };
    proof {
        reveal_strlit("0");
        reveal_strlit("1");
        reveal_strlit("2");
        reveal_strlit("3");
        reveal_strlit("4");
        reveal_strlit("5");
        reveal_strlit("6");
        reveal_strlit("7");
        reveal_strlit("8");
        reveal_strlit("9");
    }
    assert(piece@ =~= seq![digit_char(d as nat)]);
    out.append(piece);
}

/// Appends `n` in decimal.
fn push_digits(out: &mut String, n: u128)
    ensures
        final(out)@ == old(out)@ + digits_of(n as nat),
    decreases n,
{
    if n >= 10 {
        push_digits(out, n / 10);
    }
    push_digit(out, (n % 10) as u8);
    assert(final(out)@ =~= old(out)@ + digits_of(n as nat));
}

/// `delimiter^index`, computed exactly.
fn unit_size(delimiter: u64, index: usize) -> (size: u64)
    requires
        delimiter >= 1,
        power(delimiter as nat, index as nat) <= u64::MAX,
    ensures
        size == power(delimiter as nat, index as nat),
{
    let mut size: u64 = 1;
    let mut i: usize = 0;
    while i < index
        invariant
            delimiter >= 1,
            i <= index,
            power(delimiter as nat, index as nat) <= u64::MAX,
            size == power(delimiter as nat, i as nat),
        decreases index - i,
    {
        proof {
            lemma_power_succ(delimiter as nat, i as nat);
            lemma_power_monotonic(delimiter as nat, (i + 1) as nat, index as nat);
        }
        size = size * delimiter;
        i = i + 1;
    }
    size
}

/// Writes `bytes / delimiter^index` with `number_of_decimal` decimals,
/// rounded to nearest with ties to even; when `remove_zero_decimal` is set
/// and the quotient is a whole number, writes it with no decimals.
pub fn get_string(
    bytes: u64,
    delimiter: u64,
    index: usize,
    number_of_decimal: usize,
    remove_zero_decimal: bool,
) -> (text: String)
    requires
        delimiter >= 1,
        power(delimiter as nat, index as nat) <= u64::MAX,
    ensures
        text@ == scaled_text(
            bytes as nat,
            power(delimiter as nat, index as nat),
            number_of_decimal as nat,
            remove_zero_decimal,
        ),
{
    let div: u64 = unit_size(delimiter, index);
    proof {
        lemma_power_monotonic(delimiter as nat, 0, index as nat);
    }
    let whole: u64 = bytes / div;
    let rest: u64 = bytes % div;
    let mut out = String::new();
    if remove_zero_decimal && rest == 0 {
        push_digits(&mut out, whole as u128);
        assert(out@ =~= digits_of(whole as nat));
        return out;
    }
    let places: usize = number_of_decimal;
    let ghost num: nat = bytes as nat * power(10, places as nat);
    // Long division: one decimal of the quotient per step.
    let mut frac: Vec<u8> = Vec::new();
    let mut r: u64 = rest;
    let mut k: usize = 0;
    proof {
        lemma_fundamental_div_mod(bytes as int, div as int);
        assert(power(10, 0) == 1);
        assert(frac@ =~= Seq::<u8>::empty());
        assert((whole * power(10, 0) + digits_value(frac@)) * div + r == bytes * power(10, 0))
            by (nonlinear_arith)
            requires
                bytes == div * whole + rest,
                r == rest,
                power(10, 0) == 1,
                digits_value(frac@) == 0,
        ;
    }
    while k < places
        invariant
            div >= 1,
            k <= places,
            frac@.len() == k,
            all_digits(frac@),
            r < div,
            (whole * power(10, k as nat) + digits_value(frac@)) * div + r == bytes * power(10, k as nat),
        decreases places - k,
    {
        let t: u128 = (r as u128) * 10;
        let digit: u128 = t / (div as u128);
        let r_next: u64 = (t % (div as u128)) as u64;
        proof {
            lemma_fundamental_div_mod(t as int, div as int);
            assert(digit < 10) by (nonlinear_arith)
                requires
                    t == div * digit + t % (div as u128),
                    t % (div as u128) >= 0,
                    t == r * 10,
                    r < div,
            ;
            let p = power(10, k as nat);
            let v = digits_value(frac@);
            lemma_power_succ(10, k as nat);
            lemma_digits_value_push(frac@, digit as u8);
            assert((whole * (10 * p) + (v * 10 + digit)) * div + r_next == bytes * (10 * p))
                by (nonlinear_arith)
                requires
                    (whole * p + v) * div + r == bytes * p,
                    t == div * digit + r_next,
                    t == r * 10,
            ;
        }
        frac.push(digit as u8);
        r = r_next;
        k = k + 1;
    }
    let ghost floor: nat = whole as nat * power(10, places as nat) + digits_value(frac@);
    proof {
        lemma_fundamental_div_mod_converse(num as int, div as int, floor as int, r as int);
    }
    // Round half to even on the remainder left after the last decimal.
    let odd: bool = if places == 0 {
        whole % 2 == 1
    } else {
        frac[places - 1] % 2 == 1
    };
    proof {
        if places > 0 {
            let pre = frac@.drop_last();
            let x = whole * power(10, (places - 1) as nat) + digits_value(pre);
            lemma_power_succ(10, (places - 1) as nat);
            assert(floor == 10 * x + frac@.last()) by (nonlinear_arith)
                requires
                    floor == whole * power(10, places as nat) + digits_value(frac@),
                    power(10, places as nat) == 10 * power(10, (places - 1) as nat),
                    digits_value(frac@) == digits_value(pre) * 10 + frac@.last(),
                    x == whole * power(10, (places - 1) as nat) + digits_value(pre),
            ;
        } else {
            assert(power(10, 0) == 1);
            assert(floor == whole);
        }
    }
    let round_up: bool = 2 * (r as u128) > div as u128 || (2 * (r as u128) == div as u128 && odd);
    assert(round_half_even(num, div as nat) == floor + if round_up { 1nat } else { 0nat });
    let ghost before: Seq<u8> = frac@;
    let mut int_part: u128 = whole as u128;
    if round_up {
        // Add one in the last place, carrying leftwards through nines.
        let mut i: usize = places;
        let mut carry: bool = true;
        while i > 0 && carry
            invariant
                i <= places,
                frac@.len() == places,
                all_digits(frac@),
                digits_value(frac@) + (if carry { power(10, (places - i) as nat) } else { 0 })
                    == digits_value(before) + 1,
            decreases i,
        {
            i = i - 1;
            let v: u8 = frac[i];
            let ghost old_frac: Seq<u8> = frac@;
            proof {
                lemma_power_succ(10, (places - 1 - i) as nat);
                assert((places - i) as nat == (places - 1 - i) as nat + 1);
            }
            if v == 9 {
                frac.set(i, 0);
                proof {
                    lemma_digits_value_update(old_frac, i as int, 0);
                    let w = power(10, (places - 1 - i) as nat);
                    assert(old_frac[i as int] * w == 9 * w);
                    assert(frac@ == old_frac.update(i as int, 0));
                }
            } else {
                frac.set(i, v + 1);
                carry = false;
                proof {
                    lemma_digits_value_update(old_frac, i as int, (v + 1) as u8);
                    let w = power(10, (places - 1 - i) as nat);
                    assert((v + 1) * w == v * w + w) by (nonlinear_arith);
                    assert(old_frac[i as int] == v);
                    assert(frac@ == old_frac.update(i as int, (v + 1) as u8));
                }
            }
        }
        if carry {
            int_part = int_part + 1;
        }
    }
    proof {
        lemma_digits_value_bound(frac@);
    }
    let ghost n: nat = round_half_even(num, div as nat);
    assert(n == int_part * power(10, places as nat) + digits_value(frac@)) by (nonlinear_arith)
        requires
            n == floor + if round_up { 1nat } else { 0nat },
            floor == whole * power(10, places as nat) + digits_value(before),
            round_up ==> (int_part == whole && digits_value(frac@) == digits_value(before) + 1)
                || (int_part == whole + 1 && digits_value(frac@) + power(10, places as nat)
                == digits_value(before) + 1),
            !round_up ==> int_part == whole && frac@ == before,
    ;
    proof {
        lemma_fundamental_div_mod_converse(
            n as int,
            power(10, places as nat) as int,
            int_part as int,
            digits_value(frac@) as int,
        );
    }
    push_digits(&mut out, int_part);
    if places > 0 {
        proof {
            reveal_strlit(".");
        }
        out.append(".");
        let ghost head: Seq<char> = out@;
        let mut j: usize = 0;
        while j < places
            invariant
                j <= places,
                frac@.len() == places,
                all_digits(frac@),
                out@ == head + digit_chars(frac@.subrange(0, j as int)),
            decreases places - j,
        {
            push_digit(&mut out, frac[j]);
            assert(frac@.subrange(0, j + 1) =~= frac@.subrange(0, j as int).push(frac@[j as int]));
            assert(digit_chars(frac@.subrange(0, j + 1)) =~= digit_chars(
                frac@.subrange(0, j as int),
            ).push(digit_char(frac@[j as int] as nat)));
            j = j + 1;
        }
        proof {
            assert(frac@.subrange(0, places as int) =~= frac@);
            lemma_padded_digit_chars(frac@);
        }
        assert(out@ =~= fixed_point_text(n, places as nat));
    } else {
        assert(out@ =~= fixed_point_text(n, places as nat));
    }
    out
}

} // verus!
