use vstd::prelude::*;

verus! {

/// Base used when the caller does not choose one: 1024 bytes per unit.
pub const DEFAULT_USE_1024: bool = true;

/// Number of decimals used when the caller does not choose one.
pub const DEFAULT_NUMBER_OF_DECIMAL: usize = 2;

/// Whether an all-zero fraction is dropped when the caller does not say.
pub const DEFAULT_REMOVE_ZERO_DECIMAL: bool = false;

/// Formatting choices as a caller gives them; a field left `None` takes its
/// default.
#[derive(Clone)]
pub struct PrettyBytesOptions {
    pub use_1024_instead_of_1000: Option<bool>,
    pub number_of_decimal: Option<usize>,
    pub remove_zero_decimal: Option<bool>,
}

/// Formatting choices with every field settled.
#[derive(Clone, Copy, Debug, PartialEq, Eq, Structural)]
pub struct PrettyBytesOptionWithDefault {
    pub use_1024_instead_of_1000: bool,
    pub number_of_decimal: usize,
    pub remove_zero_decimal: bool,
}

/// The value of an optional field, or `default` where it is unset.
pub open spec fn or_default<T>(field: Option<T>, default: T) -> T {
    match field {
        Some(v) => v,
        None => default,
    }
}

/// The settled choices: each field the caller set, the default elsewhere.
pub open spec fn resolve_options(user: Option<PrettyBytesOptions>) -> PrettyBytesOptionWithDefault {
    match user {
        None => PrettyBytesOptionWithDefault {
            use_1024_instead_of_1000: DEFAULT_USE_1024,
            number_of_decimal: DEFAULT_NUMBER_OF_DECIMAL,
            remove_zero_decimal: DEFAULT_REMOVE_ZERO_DECIMAL,
        },
        Some(o) => PrettyBytesOptionWithDefault {
            use_1024_instead_of_1000: or_default(o.use_1024_instead_of_1000, DEFAULT_USE_1024),
            number_of_decimal: or_default(o.number_of_decimal, DEFAULT_NUMBER_OF_DECIMAL),
            remove_zero_decimal: or_default(o.remove_zero_decimal, DEFAULT_REMOVE_ZERO_DECIMAL),
        },
    }
}

/// Merges the caller's choices over the defaults, field by field.
pub fn set_default_options(user_options: Option<PrettyBytesOptions>) -> (r: PrettyBytesOptionWithDefault)
    ensures
        r == resolve_options(user_options),
{
    let given = match user_options {
        Some(o) => o,
        None => PrettyBytesOptions {
            use_1024_instead_of_1000: None,
            number_of_decimal: None,
            remove_zero_decimal: None,
        },
    };
    PrettyBytesOptionWithDefault {
        use_1024_instead_of_1000: match given.use_1024_instead_of_1000 {
            Some(v) => v,
            None => DEFAULT_USE_1024,
        },
        number_of_decimal: match given.number_of_decimal {
            Some(v) => v,
            None => DEFAULT_NUMBER_OF_DECIMAL,
        },
        remove_zero_decimal: match given.remove_zero_decimal {
            Some(v) => v,
            None => DEFAULT_REMOVE_ZERO_DECIMAL,
        },
    }
}

} // verus!
