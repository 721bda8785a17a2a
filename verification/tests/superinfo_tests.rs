use updater_core::errors::UpdateError;
use updater_core::superinfo::parse_lpdump_output;

#[test]
fn parses_all_labelled_fields() {
    let dump = b"\
Slot 0:\n\
  Metadata version: 10.2\n\
  Metadata size: 1416 bytes\n\
  Metadata max size: 65536 bytes\n\
  Metadata slot count: 2\n\
  Header flags: virtual_ab_device\n\
  Partition table:\n\
  Block device table:\n\
    Partition name: super\n\
    First sector: 2048\n\
    Size: 9126805504 bytes\n";
    let info = parse_lpdump_output(dump).unwrap();
    assert_eq!(info.metadata_size, 65536);
    assert_eq!(info.metadata_slot_count, 2);
    assert_eq!(info.first_sector_bytes, 2048 * 512);
    assert_eq!(info.device_size, 9126805504);
    assert!(info.is_virtual_ab);
}

#[test]
fn missing_fields_keep_zero_defaults() {
    let info = parse_lpdump_output(b"nothing to see here").unwrap();
    assert_eq!(info.metadata_size, 0);
    assert_eq!(info.metadata_slot_count, 0);
    assert_eq!(info.device_size, 0);
    assert_eq!(info.first_sector_bytes, 0);
    assert!(!info.is_virtual_ab);
}

#[test]
fn other_header_flags_do_not_set_virtual_ab() {
    let info = parse_lpdump_output(b"Header flags: none\n").unwrap();
    assert!(!info.is_virtual_ab);
}

#[test]
fn number_too_large_is_overflow_error() {
    let dump = b"Metadata max size: 99999999999999999999999999\n";
    assert_eq!(parse_lpdump_output(dump), Err(UpdateError::NumberOverflow));
}

#[test]
fn sector_conversion_that_cannot_fit_is_overflow_error() {
    // 2^60 sectors: the count fits 64 bits, the byte offset does not.
    let dump = b"First sector: 1152921504606846976\n";
    assert_eq!(parse_lpdump_output(dump), Err(UpdateError::NumberOverflow));
}

#[test]
fn label_without_number_is_searched_past() {
    // The first occurrence of the label has no number after it; the
    // second occurrence carries the value.
    let dump = b"Size: pending\nSize: 4096\n";
    let info = parse_lpdump_output(dump).unwrap();
    assert_eq!(info.device_size, 4096);
}
