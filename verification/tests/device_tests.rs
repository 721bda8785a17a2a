use updater_core::device::{device_allowed, is_end_of_device, parse_flash_method,
    slot_suffix_from_props, verity_already_disabled, FlashMethod};

#[test]
fn allow_list_matches_exact_and_substring() {
    assert!(device_allowed(b"hotdog", b"hotdog,hotdogb"));
    assert!(device_allowed(b"hotdogb", b"hotdog, other"));
    assert!(device_allowed(b"surya", b" karna , surya "));
    assert!(!device_allowed(b"lavender", b"hotdog,surya"));
}

#[test]
fn empty_allow_entry_admits_anything() {
    // A trailing comma leaves an empty entry, which every name
    // contains.
    assert!(device_allowed(b"anything", b"hotdog,"));
}

#[test]
fn slot_suffix_prefers_first_property() {
    assert_eq!(slot_suffix_from_props(b"_a\n", b"b"), b"_a".to_vec());
    assert_eq!(slot_suffix_from_props(b"", b"b\n"), b"_b".to_vec());
    assert_eq!(slot_suffix_from_props(b" \n", b""), Vec::<u8>::new());
}

#[test]
fn flash_method_dispatch() {
    assert_eq!(parse_flash_method(b"0"), FlashMethod::ZstdStream);
    assert_eq!(parse_flash_method(b"1"), FlashMethod::GzStream);
    assert_eq!(parse_flash_method(b"2"), FlashMethod::Sparse);
    assert_eq!(parse_flash_method(b"3"), FlashMethod::Unknown);
    assert_eq!(parse_flash_method(b"22"), FlashMethod::Unknown);
    assert_eq!(parse_flash_method(b""), FlashMethod::Unknown);
}

#[test]
fn verity_status_test_is_case_insensitive() {
    assert!(verity_already_disabled(b"verity is DISABLED on /system"));
    assert!(verity_already_disabled(b"disabled"));
    assert!(!verity_already_disabled(b"verity is enabled"));
}

#[test]
fn end_of_device_classification() {
    assert!(is_end_of_device(true, None));
    assert!(is_end_of_device(false, Some(28)));
    assert!(!is_end_of_device(false, Some(5)));
    assert!(!is_end_of_device(false, None));
}
