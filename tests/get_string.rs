use pretty_bytes_rust::get_string;

#[test]
fn test_get_string_bytes() {
    let result = get_string(1023, 1024, 0, 2, false);
    assert_eq!(result, "1023.00")
}

#[test]
fn test_get_string_bytes_remove_decimal() {
    let result = get_string(1023, 1024, 0, 2, true);
    assert_eq!(result, "1023")
}

#[test]
fn test_get_string_kilobytes() {
    let result = get_string(1024, 1024, 1, 2, false);
    assert_eq!(result, "1.00")
}

#[test]
fn test_get_string_kilobytes_remove_decimal() {
    let result = get_string(1024, 1024, 1, 2, true);
    assert_eq!(result, "1")
}

#[test]
fn test_get_string_kilobytes_no_even() {
    let result = get_string(1100, 1024, 1, 2, false);
    assert_eq!(result, "1.07")
}

#[test]
fn test_get_string_kilobytes_no_even_remove_decimal() {
    let result = get_string(1100, 1024, 1, 2, true);
    assert_eq!(result, "1.07")
}

#[test]
fn test_get_string_kilobytes_no_even_more_decimal() {
    let result = get_string(1100, 1024, 1, 3, false);
    assert_eq!(result, "1.074")
}

#[test]
fn test_get_string_kilobytes_no_even_more_decimal_remove_decimal() {
    let result = get_string(1100, 1024, 1, 3, true);
    assert_eq!(result, "1.074")
}

#[test]
fn get_string_ties_go_to_even() {
    assert_eq!(get_string(1536, 1024, 1, 0, false), "2");
    assert_eq!(get_string(2560, 1024, 1, 0, false), "2");
    assert_eq!(get_string(1125, 1000, 1, 2, false), "1.12");
    assert_eq!(get_string(1135, 1000, 1, 2, false), "1.14");
}

#[test]
fn get_string_rounds_up_past_a_tie() {
    assert_eq!(get_string(1126, 1000, 1, 2, false), "1.13");
}

#[test]
fn get_string_carries_into_the_whole_part() {
    assert_eq!(get_string(1024 * 1024 - 1, 1024, 1, 2, false), "1024.00");
    assert_eq!(get_string(999_999, 1000, 1, 2, false), "1000.00");
    assert_eq!(get_string(1999, 1000, 1, 2, false), "2.00");
}

#[test]
fn get_string_many_decimals() {
    assert_eq!(get_string(1100, 1024, 1, 10, false), "1.0742187500");
}

#[test]
fn get_string_zero_decimals_kept_only_when_asked() {
    assert_eq!(get_string(1100, 1024, 1, 0, false), "1");
    assert_eq!(get_string(3000, 1000, 1, 2, false), "3.00");
    assert_eq!(get_string(3000, 1000, 1, 2, true), "3");
}
