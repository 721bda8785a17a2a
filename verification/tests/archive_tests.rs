use updater_core::archive::{detect_chunk_range, plan_flash, FlashPlan};
use updater_core::errors::UpdateError;

fn bv(s: &str) -> Vec<u8> {
    s.as_bytes().to_vec()
}

#[test]
fn detects_range_with_gaps() {
    // system.2 is missing: detection still yields [0, 3]; decoding
    // would attempt system.2 and fail there, distinctly.
    let names = vec![
        bv("boot.img"),
        bv("system.0"),
        bv("system.1"),
        bv("system.3"),
        bv("system.map"),
        bv("vendor.7"),
    ];
    assert_eq!(detect_chunk_range(b"system", &names), Ok((0, 3)));
}

#[test]
fn no_matching_entries_is_no_chunks_found() {
    let names = vec![bv("boot.img"), bv("system.map")];
    assert_eq!(
        detect_chunk_range(b"system", &names),
        Err(UpdateError::NoChunksFound)
    );
}

#[test]
fn single_entry_range_is_degenerate() {
    let names = vec![bv("vendor.5")];
    assert_eq!(detect_chunk_range(b"vendor", &names), Ok((5, 5)));
}

#[test]
fn auto_detect_mode_strips_the_marker() {
    let args = vec![bv("flash"), bv("system.*"), bv("/dev/block/by-name/system")];
    assert_eq!(
        plan_flash(&args),
        Ok(FlashPlan::AutoDetect {
            base: bv("system"),
            partition: bv("/dev/block/by-name/system"),
        })
    );
}

#[test]
fn explicit_range_mode_parses_bounds() {
    let args = vec![bv("flash"), bv("super"), bv("0"), bv("12"), bv("/dev/block/sda")];
    assert_eq!(
        plan_flash(&args),
        Ok(FlashPlan::Range {
            base: bv("super"),
            start: 0,
            end: 12,
            partition: bv("/dev/block/sda"),
        })
    );
}

#[test]
fn single_mode_takes_name_and_partition() {
    let args = vec![bv("flash"), bv("boot.img"), bv("/dev/block/boot")];
    assert_eq!(
        plan_flash(&args),
        Ok(FlashPlan::Single { entry: bv("boot.img"), partition: bv("/dev/block/boot") })
    );
}

#[test]
fn missing_arguments_are_reported() {
    assert_eq!(
        plan_flash(&vec![bv("flash")]),
        Err(UpdateError::MissingArgument)
    );
    assert_eq!(
        plan_flash(&vec![bv("flash"), bv("system.*")]),
        Err(UpdateError::MissingArgument)
    );
    assert_eq!(
        plan_flash(&vec![bv("flash"), bv("super"), bv("0"), bv("2")]),
        Err(UpdateError::MissingArgument)
    );
}

#[test]
fn non_numeric_range_bound_is_bad_number() {
    let args = vec![bv("flash"), bv("super"), bv("0"), bv("x2"), bv("/dev/p")];
    assert_eq!(plan_flash(&args), Err(UpdateError::BadNumber));
}
