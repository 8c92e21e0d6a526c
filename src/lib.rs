//! Turns a count of bytes into a short text such as `5.05 MB`.
//!
//! The unit base (1000 or 1024), the number of decimals and the dropping of
//! an all-zero fraction can each be chosen.
use vstd::prelude::*;

mod decimal;
mod laws;
mod options;
mod unit_index;
mod units;

pub use crate::decimal::{
    digit_char, digits_of, fixed_point_text, get_string, padded_digits, round_half_even,
    scaled_text,
};
pub use crate::laws::{
    lemma_default_options_idempotent, lemma_exact_power_of_1024, lemma_remove_zero_decimal,
    lemma_small_counts_in_bytes, lemma_unit_index_monotonic, selected_unit, whole_number_text,
};
pub use crate::options::{
    resolve_options, set_default_options, PrettyBytesOptionWithDefault, PrettyBytesOptions,
    DEFAULT_NUMBER_OF_DECIMAL, DEFAULT_REMOVE_ZERO_DECIMAL, DEFAULT_USE_1024,
};
pub use crate::unit_index::{get_unit_index, power, unit_index};
pub use crate::units::{unit_base, unit_symbol, unit_symbol_text, MAX_UNIT_INDEX};

verus! {

/// The full text for `bytes` under settled choices: the scaled number, one
/// space, then the symbol of the selected unit.
///
/// The unit is chosen with the selected base, while the symbol always comes
/// from the decimal table (`kB`, `MB`, ...), whichever base was used.
pub open spec fn pretty_text(bytes: nat, opts: PrettyBytesOptionWithDefault) -> Seq<char> {
    let base = unit_base(opts.use_1024_instead_of_1000);
    let index = unit_index(bytes, base, MAX_UNIT_INDEX as nat);
    scaled_text(
        bytes,
        power(base, index),
        opts.number_of_decimal as nat,
        opts.remove_zero_decimal,
    ) + seq![' '] + unit_symbol(index)
}

/// Formats `bytes` for a human reader, for example `5.05 MB`.
///
/// `None` takes every default: base 1024, two decimals, zeros kept.
pub fn pretty_bytes(bytes: u64, options: Option<PrettyBytesOptions>) -> (text: String)
    ensures
        text@ == pretty_text(bytes as nat, resolve_options(options)),
{
    let settled = set_default_options(options);
    let delimiter: u64 = if settled.use_1024_instead_of_1000 {
        1024
    } else {
        1000
    };
    let index: usize = get_unit_index(bytes, delimiter, MAX_UNIT_INDEX);
    proof {
        crate::unit_index::lemma_unit_index_bounds(
            bytes as nat,
            delimiter as nat,
            MAX_UNIT_INDEX as nat,
        );
        if index == 0 {
            assert(power(delimiter as nat, 0) == 1);
        }
    }
    let mut text = get_string(
        bytes,
        delimiter,
        index,
        settled.number_of_decimal,
        settled.remove_zero_decimal,
    );
    proof {
        reveal_strlit(" ");
    }
    text.append(" ");
    text.append(unit_symbol_text(index));
    text
}

} // verus!
