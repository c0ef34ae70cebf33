use oxideav_dds::sniff::{has_dds_magic, stream_header};
use oxideav_dds::DdsError;

fn header(width: u32, height: u32, pf_flags: u32, fourcc: u32) -> Vec<u8> {
    let mut b = vec![0u8; 128];
    b[0..4].copy_from_slice(b"DDS ");
    b[12..16].copy_from_slice(&height.to_le_bytes());
    b[16..20].copy_from_slice(&width.to_le_bytes());
    b[80..84].copy_from_slice(&pf_flags.to_le_bytes());
    b[84..88].copy_from_slice(&fourcc.to_le_bytes());
    b
}

#[test]
fn magic_is_recognised() {
    assert!(has_dds_magic(b"DDS |rest"));
    assert!(!has_dds_magic(b"DDS"));
    assert!(!has_dds_magic(b"DDX "));
}

#[test]
fn header_gives_size_and_dx10_marker() {
    let h = stream_header(&header(640, 480, 0x4, 0x3031_5844)).unwrap();
    assert_eq!((h.width, h.height, h.has_dx10), (640, 480, true));
    let h = stream_header(&header(7, 9, 0x40, 0x3031_5844)).unwrap();
    assert_eq!((h.width, h.height, h.has_dx10), (7, 9, false));
}

#[test]
fn short_or_foreign_input_is_invalid() {
    assert!(matches!(stream_header(&[0u8; 127]), Err(DdsError::InvalidData(_))));
    let mut b = header(1, 1, 0, 0);
    b[0] = b'X';
    assert!(matches!(stream_header(&b), Err(DdsError::InvalidData(_))));
}
