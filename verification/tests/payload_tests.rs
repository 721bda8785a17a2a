use std::io::Write;

use updater_core::errors::UpdateError;
use updater_core::payload::{decompress_gzip, decompress_zstd};

#[test]
fn zstd_payload_round_trips() {
    let plain = b"raw partition bytes, repeated: 0123456789 0123456789";
    let compressed = zstd::stream::encode_all(&plain[..], 3).unwrap();
    assert_ne!(compressed, plain.to_vec());
    assert_eq!(decompress_zstd(&compressed), Ok(plain.to_vec()));
}

#[test]
fn gzip_payload_round_trips() {
    let plain = b"another stream of raw partition bytes";
    let mut encoder =
        flate2::write::GzEncoder::new(Vec::new(), flate2::Compression::default());
    encoder.write_all(plain).unwrap();
    let compressed = encoder.finish().unwrap();
    assert_ne!(compressed, plain.to_vec());
    assert_eq!(decompress_gzip(&compressed), Ok(plain.to_vec()));
}

#[test]
fn garbage_zstd_payload_is_decode_error() {
    assert_eq!(
        decompress_zstd(b"not a zstd stream at all"),
        Err(UpdateError::PayloadDecode)
    );
}

#[test]
fn garbage_gzip_payload_is_decode_error() {
    assert_eq!(
        decompress_gzip(b"not a gzip stream at all"),
        Err(UpdateError::PayloadDecode)
    );
}
