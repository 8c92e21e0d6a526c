use pretty_bytes_rust::{pretty_bytes, PrettyBytesOptions};

fn opts(base_1024: Option<bool>, places: Option<usize>, drop_zero: Option<bool>) -> Option<PrettyBytesOptions> {
    Some(PrettyBytesOptions {
        use_1024_instead_of_1000: base_1024,
        number_of_decimal: places,
        remove_zero_decimal: drop_zero,
    })
}

#[test]
fn zero_bytes() {
    assert_eq!(pretty_bytes(0, None), "0.00 B");
    assert_eq!(pretty_bytes(0, opts(None, None, Some(true))), "0 B");
}

#[test]
fn counts_below_one_step_stay_in_bytes() {
    assert_eq!(pretty_bytes(1, None), "1.00 B");
    assert_eq!(pretty_bytes(999, opts(Some(false), Some(1), None)), "999.0 B");
    assert_eq!(pretty_bytes(500, opts(Some(false), Some(2), Some(true))), "500 B");
}

#[test]
fn exact_powers_of_1024_show_one() {
    assert_eq!(pretty_bytes(1 << 10, None), "1.00 kB");
    assert_eq!(pretty_bytes(1 << 20, None), "1.00 MB");
    assert_eq!(pretty_bytes(1 << 30, None), "1.00 GB");
    assert_eq!(pretty_bytes(1 << 40, None), "1.00 TB");
    assert_eq!(pretty_bytes(1 << 50, None), "1.00 PB");
    assert_eq!(pretty_bytes(1 << 60, None), "1.00 EB");
}

#[test]
fn no_options_equals_all_defaults() {
    for b in [0u64, 7, 1023, 1024, 5_292_880, u64::MAX] {
        assert_eq!(pretty_bytes(b, None), pretty_bytes(b, opts(Some(true), Some(2), Some(false))));
    }
}

#[test]
fn unit_grows_with_the_count() {
    assert_eq!(pretty_bytes(999_999, opts(Some(false), None, None)), "1000.00 kB");
    assert_eq!(pretty_bytes(1_000_000, opts(Some(false), None, None)), "1.00 MB");
}

#[test]
fn dropped_zero_decimals() {
    assert_eq!(pretty_bytes(3 * 1024 * 1024, opts(None, Some(3), Some(true))), "3 MB");
    assert_eq!(pretty_bytes(1100, opts(None, Some(2), Some(true))), "1.07 kB");
    assert!(!pretty_bytes(5 << 30, opts(None, Some(4), Some(true))).contains('.'));
    assert!(pretty_bytes((5 << 30) + 1, opts(None, Some(4), Some(true))).contains('.'));
}

#[test]
fn documented_examples() {
    assert_eq!(pretty_bytes(1024 * 1024 * 5 + 50000, None), "5.05 MB");
    assert_eq!(pretty_bytes(1024 * 1024 * 9 + 123, opts(Some(false), Some(3), Some(false))), "9.437 MB");
}

#[test]
fn largest_count() {
    assert_eq!(pretty_bytes(u64::MAX, None), "16.00 EB");
    assert_eq!(pretty_bytes(u64::MAX, opts(Some(false), None, None)), "18.45 EB");
}

#[test]
fn symbols_come_from_the_decimal_table_in_both_bases() {
    assert_eq!(pretty_bytes(2048, None), "2.00 kB");
    assert_eq!(pretty_bytes(2000, opts(Some(false), None, None)), "2.00 kB");
}
