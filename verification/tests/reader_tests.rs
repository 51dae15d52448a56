use cappy::reader::build_packet_index;
use cappy::reader::read_header;
use cappy::reader::read_u16;
use cappy::reader::read_u32;
use cappy::reader::read_u32_be;
use cappy::reader::FormatError;
use cappy::reader::GLOBAL_HEADER_BYTES;
use cappy::reader::RECORD_HEADER_BYTES;

fn header_bytes(fcs_nibble: u8) -> Vec<u8> {
    let mut h = Vec::new();
    h.extend_from_slice(&[0xD4, 0xC3, 0xB2, 0xA1]); // magic, little-endian
    h.extend_from_slice(&[2, 0]); // major version
    h.extend_from_slice(&[4, 0]); // minor version
    h.extend_from_slice(&[0; 8]); // reserved
    h.extend_from_slice(&[0xFF, 0xFF, 0, 0]); // snapshot length
    h.push(fcs_nibble << 4);
    h.push(0);
    h.extend_from_slice(&[1, 0]); // link type
    h
}

fn record(ts_sec: u32, ts_subsec: u32, orig_len: u32, frame: &[u8]) -> Vec<u8> {
    let mut r = Vec::new();
    r.extend_from_slice(&ts_sec.to_le_bytes());
    r.extend_from_slice(&ts_subsec.to_le_bytes());
    r.extend_from_slice(&(frame.len() as u32).to_le_bytes());
    r.extend_from_slice(&orig_len.to_le_bytes());
    r.extend_from_slice(frame);
    r
}

#[test]
fn read_u32_le_value() {
    let buf = [0x78, 0x56, 0x34, 0x12, 0xAA];
    assert_eq!(read_u32(&buf, 0), 0x12345678);
    assert_eq!(read_u32(&buf, 1), 0xAA123456);
}

#[test]
fn read_u16_le_value() {
    let buf = [0x04, 0x00, 0x34, 0x12];
    assert_eq!(read_u16(&buf, 0), 4);
    assert_eq!(read_u16(&buf, 2), 0x1234);
}

#[test]
fn read_u32_be_value() {
    let buf = [10, 0, 0, 1];
    assert_eq!(read_u32_be(&buf, 0), 0x0A000001);
}

#[test]
fn read_header_accepts_valid_capture() {
    let h = header_bytes(0);
    let g = read_header(&h).expect("valid header");
    assert_eq!(g.magic, 0xA1B2C3D4);
    assert_eq!(g.version_major, 2);
    assert_eq!(g.version_minor, 4);
    assert_eq!(g.snap_len, 0xFFFF);
    assert_eq!(g.link_type, 1);
    assert_eq!(g.fcs_nibble, 0);
}

#[test]
fn read_header_rejects_bad_magic() {
    let mut h = header_bytes(0);
    h[0] = 0xD5;
    assert_eq!(read_header(&h), Err(FormatError::BadMagic));
}

#[test]
fn read_header_rejects_fcs_trailers() {
    let h = header_bytes(3);
    assert_eq!(read_header(&h), Err(FormatError::UnsupportedFcs));
}

#[test]
fn build_index_two_records() {
    let mut buf = header_bytes(0);
    buf.extend_from_slice(&record(100, 7, 60, &[0xEE; 40]));
    buf.extend_from_slice(&record(101, 8, 20, &[0xDD; 20]));
    let index = build_packet_index(&buf).expect("well-formed capture");
    assert_eq!(index.len(), 2);
    assert_eq!(index[0].offset, GLOBAL_HEADER_BYTES);
    assert_eq!(index[0].ts_sec, 100);
    assert_eq!(index[0].ts_subsec, 7);
    assert_eq!(index[0].cap_len, 40);
    assert_eq!(index[0].orig_len, 60);
    assert_eq!(index[1].offset, GLOBAL_HEADER_BYTES + RECORD_HEADER_BYTES + 40);
    assert_eq!(index[1].ts_sec, 101);
    assert_eq!(index[1].cap_len, 20);
}

#[test]
fn build_index_tiles_buffer_exactly() {
    let mut buf = header_bytes(0);
    for caplen in [13usize, 0, 31, 2] {
        buf.extend_from_slice(&record(1, 2, caplen as u32, &vec![0xCC; caplen]));
    }
    let index = build_packet_index(&buf).expect("well-formed capture");
    let mut cursor = GLOBAL_HEADER_BYTES;
    for d in &index {
        assert_eq!(d.offset, cursor); // no gap, no overlap
        cursor = d.offset + RECORD_HEADER_BYTES + d.cap_len as usize;
        assert!(cursor <= buf.len());
    }
    assert_eq!(cursor, buf.len()); // spans reach the end exactly
}

#[test]
fn build_index_empty_body() {
    let buf = header_bytes(0);
    let index = build_packet_index(&buf).expect("a capture may hold no packets");
    assert!(index.is_empty());
}

#[test]
fn build_index_rejects_truncated_record_header() {
    let mut buf = header_bytes(0);
    buf.extend_from_slice(&[0; 8]); // half a record header
    let err = build_packet_index(&buf).expect_err("truncated capture");
    assert_eq!(err.offset, GLOBAL_HEADER_BYTES);
}

#[test]
fn build_index_rejects_overrunning_cap_len() {
    let mut buf = header_bytes(0);
    buf.extend_from_slice(&record(5, 6, 10, &[0xBB; 10]));
    // Second record declares 100 captured bytes but stores only 4.
    buf.extend_from_slice(&record(7, 8, 100, &[0xBB; 100])[..RECORD_HEADER_BYTES + 4].as_ref());
    let err = build_packet_index(&buf).expect_err("overrunning record");
    assert_eq!(err.offset, GLOBAL_HEADER_BYTES + RECORD_HEADER_BYTES + 10);
}
