//! The byte-order codec and the entry-header packing.

use dxvk_cache::codec::{ByteReader, ReadEx};
use dxvk_cache::entry::DxvkStateCacheEntryHeader;
use dxvk_cache::ErrorKind;

#[test]
fn read_u32_little_endian() {
    let data = vec![0x78u8, 0x56, 0x34, 0x12, 0xff];
    let mut reader = ByteReader::new(&data);
    assert_eq!(reader.read_u32().unwrap(), 0x12345678);
}

#[test]
fn read_u32_consumes_four_bytes() {
    let data = vec![1u8, 0, 0, 0, 2, 0, 0, 0];
    let mut reader = ByteReader::new(&data);
    assert_eq!(reader.read_u32().unwrap(), 1);
    assert_eq!(reader.read_u32().unwrap(), 2);
}

#[test]
fn read_u32_truncated_is_io_error() {
    let data = vec![1u8, 2, 3];
    let mut reader = ByteReader::new(&data);
    let err = reader.read_u32().unwrap_err();
    assert_eq!(err.kind(), ErrorKind::IoError);
    assert_eq!(err.message(), "Unexpected end of stream");
}

#[test]
fn read_bytes_returns_prefix() {
    let data = vec![9u8, 8, 7, 6, 5];
    let mut reader = ByteReader::new(&data);
    let v = reader.read_bytes(3).unwrap();
    assert_eq!(v, vec![9u8, 8, 7]);
    assert_eq!(reader.remaining_len(), 2);
}

#[test]
fn read_bytes_truncated_consumes_nothing() {
    let data = vec![9u8, 8];
    let mut reader = ByteReader::new(&data);
    assert!(reader.read_bytes(3).is_err());
    assert_eq!(reader.remaining_len(), 2);
}

#[test]
fn entry_header_packs_stage_mask_and_size() {
    // Low byte is the stage mask, upper three bytes the 24-bit size.
    let h = DxvkStateCacheEntryHeader::new(0x0102_0304);
    assert_eq!(h.stage_mask, 0x04);
    assert_eq!(h.entry_size(), 0x0001_0203);
}

#[test]
fn entry_header_size_is_24_bit() {
    let h = DxvkStateCacheEntryHeader::new(0xffff_ffff);
    assert_eq!(h.stage_mask, 0xff);
    assert_eq!(h.entry_size(), 0x00ff_ffff);
}

#[test]
fn entry_header_round_trips_through_size_bytes() {
    let h = DxvkStateCacheEntryHeader::new((42 << 8) | 7);
    assert_eq!(h.stage_mask, 7);
    assert_eq!(h.entry_size(), 42);
    assert_eq!(h.size_bytes(), [42u8, 0, 0]);
}
