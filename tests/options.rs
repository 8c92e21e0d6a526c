use pretty_bytes_rust::{set_default_options, PrettyBytesOptions};

#[test]
fn test_set_default_options_no_option() {
    let result = set_default_options(None);
    assert_eq!(result.number_of_decimal, 2, "Number of decimal");
    assert_eq!(result.use_1024_instead_of_1000, true, "Default 1024");
    assert_eq!(result.remove_zero_decimal, false, "Remove zero decimal");
}

#[test]
fn test_set_default_options_use_user_option() {
    let result = set_default_options(Some(PrettyBytesOptions {
        number_of_decimal: Some(5),
        use_1024_instead_of_1000: Some(false),
        remove_zero_decimal: Some(false),
    }));
    assert_eq!(result.number_of_decimal, 5, "Number of decimal");
    assert_eq!(result.use_1024_instead_of_1000, false, "Default 1024");
    assert_eq!(result.remove_zero_decimal, false, "Remove zero decimal");
}

#[test]
fn set_default_options_keeps_each_field_apart() {
    let result = set_default_options(Some(PrettyBytesOptions {
        number_of_decimal: None,
        use_1024_instead_of_1000: None,
        remove_zero_decimal: Some(true),
    }));
    assert_eq!(result.number_of_decimal, 2);
    assert_eq!(result.use_1024_instead_of_1000, true);
    assert_eq!(result.remove_zero_decimal, true);
}
