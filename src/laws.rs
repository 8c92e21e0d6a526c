use vstd::prelude::*;
use vstd::arithmetic::div_mod::lemma_fundamental_div_mod_converse;

use crate::decimal::{digit_char, digits_of, fixed_point_text, padded_digits, round_half_even, scaled_text};
use crate::options::{resolve_options, PrettyBytesOptionWithDefault, PrettyBytesOptions};
use crate::pretty_text;
use crate::unit_index::{
    lemma_power_monotonic, lemma_unit_index_bounds, lemma_unit_index_unique, power, unit_index,
};
use crate::units::{unit_base, unit_symbol, MAX_UNIT_INDEX};

verus! {

/// A whole number `n` as the formatter writes it: its digits, then a point
/// and `places` zeros, unless `places` is 0 or all-zero decimals are dropped.
pub open spec fn whole_number_text(n: nat, places: nat, remove_zero: bool) -> Seq<char> {
    if remove_zero || places == 0 {
        digits_of(n)
    } else {
        digits_of(n) + seq!['.'] + Seq::new(places, |_i: int| '0')
    }
}

/// The index of the unit that `bytes` is shown in under `opts`.
pub open spec fn selected_unit(bytes: nat, opts: PrettyBytesOptionWithDefault) -> nat {
    unit_index(bytes, unit_base(opts.use_1024_instead_of_1000), MAX_UNIT_INDEX as nat)
}

proof fn lemma_padded_zero(width: nat)
    ensures
        padded_digits(0, width) == Seq::new(width, |_i: int| '0'),
    decreases width,
{
    if width > 0 {
        lemma_padded_zero((width - 1) as nat);
        assert(Seq::new(width, |_i: int| '0') =~= Seq::new((width - 1) as nat, |_i: int| '0').push(
            '0',
        ));
    }
}

proof fn lemma_power_of_ten_positive(places: nat)
    ensures
        power(10, places) >= 1,
{
    lemma_power_monotonic(10, 0, places);
}

/// When `div` goes into `bytes` exactly `m` times, the scaled text is the
/// whole number `m`.
proof fn lemma_exact_quotient_text(bytes: nat, div: nat, m: nat, places: nat, remove_zero: bool)
    requires
        div >= 1,
        bytes == m * div,
    ensures
        scaled_text(bytes, div, places, remove_zero) == whole_number_text(m, places, remove_zero),
{
    lemma_fundamental_div_mod_converse(bytes as int, div as int, m as int, 0);
    lemma_power_of_ten_positive(places);
    let p = power(10, places);
    assert(bytes * p == (m * p) * div) by (nonlinear_arith)
        requires
            bytes == m * div,
    ;
    lemma_fundamental_div_mod_converse((bytes * p) as int, div as int, (m * p) as int, 0);
    assert(round_half_even(bytes * p, div) == m * p);
    if !(remove_zero && bytes % div == 0) {
        if places == 0 {
            assert(p == 1);
            assert(m * p == m) by (nonlinear_arith)
                requires
                    p == 1,
            ;
            assert(fixed_point_text(m * p, places) == digits_of(m));
        } else {
            lemma_fundamental_div_mod_converse((m * p) as int, p as int, m as int, 0);
            lemma_padded_zero(places);
            assert(fixed_point_text(m * p, places) =~= whole_number_text(m, places, remove_zero));
        }
    }
}

/// A count below one unit step is shown in bytes (`B`) with the count itself
/// as the number.
pub proof fn lemma_small_counts_in_bytes(bytes: nat, opts: PrettyBytesOptionWithDefault)
    requires
        bytes < unit_base(opts.use_1024_instead_of_1000),
    ensures
        selected_unit(bytes, opts) == 0,
        pretty_text(bytes, opts) == whole_number_text(
            bytes,
            opts.number_of_decimal as nat,
            opts.remove_zero_decimal,
        ) + seq![' '] + unit_symbol(0),
{
    let base = unit_base(opts.use_1024_instead_of_1000);
    assert(power(base, 1) == base * power(base, 0));
    lemma_unit_index_unique(bytes, base, MAX_UNIT_INDEX as nat, 0);
    lemma_exact_quotient_text(
        bytes,
        power(base, 0),
        bytes,
        opts.number_of_decimal as nat,
        opts.remove_zero_decimal,
    );
}

/// With the binary base, exactly `1024^k` bytes (for `k` up to the last unit)
/// is shown as the number 1 in unit `k`.
pub proof fn lemma_exact_power_of_1024(k: nat, opts: PrettyBytesOptionWithDefault)
    requires
        opts.use_1024_instead_of_1000,
        k <= MAX_UNIT_INDEX,
    ensures
        selected_unit(power(1024, k), opts) == k,
        pretty_text(power(1024, k), opts) == whole_number_text(
            1,
            opts.number_of_decimal as nat,
            opts.remove_zero_decimal,
        ) + seq![' '] + unit_symbol(k),
{
    let b = power(1024, k);
    lemma_power_monotonic(1024, 0, k);
    assert(power(1024, k + 1) == 1024 * b);
    lemma_unit_index_unique(b, 1024, MAX_UNIT_INDEX as nat, k);
    lemma_exact_quotient_text(b, b, 1, opts.number_of_decimal as nat, opts.remove_zero_decimal);
}

/// Giving no options at all is the same as giving every default explicitly.
pub proof fn lemma_default_options_idempotent(bytes: nat)
    ensures
        pretty_text(bytes, resolve_options(None)) == pretty_text(
            bytes,
            resolve_options(
                Some(
                    PrettyBytesOptions {
                        use_1024_instead_of_1000: Some(true),
                        number_of_decimal: Some(2),
                        remove_zero_decimal: Some(false),
                    },
                ),
            ),
        ),
{
}

/// Under fixed options, more bytes never select a smaller unit.
pub proof fn lemma_unit_index_monotonic(
    smaller: nat,
    larger: nat,
    opts: PrettyBytesOptionWithDefault,
)
    requires
        smaller <= larger,
    ensures
        selected_unit(smaller, opts) <= selected_unit(larger, opts),
{
    let base = unit_base(opts.use_1024_instead_of_1000);
    let max = MAX_UNIT_INDEX as nat;
    lemma_unit_index_bounds(smaller, base, max);
    lemma_unit_index_bounds(larger, base, max);
    let i = unit_index(smaller, base, max);
    let j = unit_index(larger, base, max);
    if i > j {
        lemma_power_monotonic(base, j + 1, i);
    }
}

proof fn lemma_digits_have_no_point(n: nat)
    ensures
        forall|i: int| 0 <= i < digits_of(n).len() ==> digits_of(n)[i] != '.',
    decreases n,
{
    if n >= 10 {
        lemma_digits_have_no_point(n / 10);
        let s = digits_of(n);
        let pre = digits_of(n / 10);
        assert(s == pre.push(digit_char(n % 10)));
        assert forall|i: int| 0 <= i < s.len() implies s[i] != '.' by {
            if i < pre.len() {
                assert(s[i] == pre[i]);
            }
        }
    }
}

/// With all-zero decimals dropped, the text has no decimal point when the
/// byte count is a whole number of the selected unit; when decimals are asked
/// for (`number_of_decimal > 0`) it has one otherwise.
pub proof fn lemma_remove_zero_decimal(bytes: nat, opts: PrettyBytesOptionWithDefault)
    requires
        opts.remove_zero_decimal,
    ensures
        bytes % power(unit_base(opts.use_1024_instead_of_1000), selected_unit(bytes, opts)) == 0
            ==> !pretty_text(bytes, opts).contains('.'),
        opts.number_of_decimal > 0 ==> (!pretty_text(bytes, opts).contains('.') <==> bytes % power(
            unit_base(opts.use_1024_instead_of_1000),
            selected_unit(bytes, opts),
        ) == 0),
{
    let base = unit_base(opts.use_1024_instead_of_1000);
    let index = selected_unit(bytes, opts);
    let div = power(base, index);
    let places = opts.number_of_decimal as nat;
    let number = scaled_text(bytes, div, places, true);
    let tail = seq![' '] + unit_symbol(index);
    let text = pretty_text(bytes, opts);
    assert(text == number + tail);
    assert(forall|i: int| 0 <= i < tail.len() ==> tail[i] != '.');
    lemma_power_monotonic(base, 0, index);
    if bytes % div == 0 {
        lemma_digits_have_no_point(bytes / div);
        assert forall|i: int| 0 <= i < text.len() implies text[i] != '.' by {
            if i >= number.len() {
                assert(text[i] == tail[i - number.len()]);
            }
        }
    } else if places > 0 {
        let n = round_half_even(bytes * power(10, places), div);
        let head = digits_of(n / power(10, places));
        assert(number == head + seq!['.'] + padded_digits(n % power(10, places), places));
        assert(text[head.len() as int] == '.');
    }
}

} // verus!
