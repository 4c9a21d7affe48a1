use flate2::write::GzEncoder;
use flate2::Compression;
use gzcsv_filter::decoder::{decode, FilterError};
use std::io::Write;

fn gzip(data: &[u8]) -> Vec<u8> {
    let mut encoder = GzEncoder::new(Vec::new(), Compression::default());
    encoder.write_all(data).unwrap();
    encoder.finish().unwrap()
}

#[test]
fn decoding_gives_the_content_back() {
    let content = b"id,val\nx,9\n";
    let compressed = gzip(content);
    assert_ne!(compressed, content.to_vec());
    assert_eq!(decode(&compressed), Ok(content.to_vec()));
}

#[test]
fn empty_content_decodes_to_nothing() {
    assert_eq!(decode(&gzip(b"")), Ok(Vec::new()));
}

#[test]
fn large_content_decodes_whole() {
    let mut content = Vec::new();
    for i in 0..50000u32 {
        content.extend_from_slice(format!("{},{}\n", i, i * 7).as_bytes());
    }
    assert_eq!(decode(&gzip(&content)), Ok(content));
}

#[test]
fn bytes_that_are_not_gzip_are_refused() {
    assert_eq!(decode(b"id,val\nx,9\n"), Err(FilterError::Decompression));
}

#[test]
fn no_bytes_at_all_are_refused() {
    assert_eq!(decode(b""), Err(FilterError::Decompression));
}

#[test]
fn stream_cut_short_is_refused() {
    let compressed = gzip(b"id,val\nx,9\n");
    assert_eq!(decode(&compressed[..compressed.len() - 4]), Err(FilterError::Decompression));
    assert_eq!(decode(&compressed[..5]), Err(FilterError::Decompression));
}

#[test]
fn stream_with_a_wrong_checksum_is_refused() {
    let mut compressed = gzip(b"id,val\nx,9\n");
    let at = compressed.len() - 8;
    compressed[at] ^= 0xff;
    assert_eq!(decode(&compressed), Err(FilterError::Decompression));
}

#[test]
fn only_the_first_member_is_decoded() {
    let mut compressed = gzip(b"a\n");
    compressed.extend_from_slice(&gzip(b"b\n"));
    assert_eq!(decode(&compressed), Ok(b"a\n".to_vec()));
}
