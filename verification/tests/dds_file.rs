use oxideav_dds::decoder::parse_dds;
use oxideav_dds::encoder::{encode_dds_block_compressed, encode_dds_uncompressed};
use oxideav_dds::{DdsError, DdsImage, DdsPixelFormat, DdsPlane, DdsSurface};

fn surface(width: u32, height: u32, mip: u32, stride: usize, data: Vec<u8>) -> DdsSurface {
    DdsSurface {
        width,
        height,
        mip_level: mip,
        array_slice: 0,
        face: None,
        depth_slice: 0,
        plane: DdsPlane { stride, data },
    }
}

fn image(width: u32, height: u32, pixel_format: DdsPixelFormat, mips: u32, surfaces: Vec<DdsSurface>) -> DdsImage {
    let plane0 = DdsPlane { stride: surfaces[0].plane.stride, data: surfaces[0].plane.data.clone() };
    DdsImage {
        width,
        height,
        pixel_format,
        planes: vec![plane0],
        surfaces,
        pts: None,
        mip_map_count: mips,
        has_dxt10_header: false,
        dxgi_format: None,
        is_cubemap: false,
        array_size: 1,
        depth: 1,
    }
}

#[test]
fn uncompressed_file_reads_back() {
    let data: Vec<u8> = (0..16u8).collect();
    let img = image(2, 2, DdsPixelFormat::A8R8G8B8, 1, vec![surface(2, 2, 0, 8, data.clone())]);
    let bytes = encode_dds_uncompressed(&img).unwrap();
    assert_eq!(bytes.len(), 128 + 16);
    assert_eq!(&bytes[0..4], b"DDS ");
    let back = parse_dds(&bytes).unwrap();
    assert_eq!((back.width, back.height), (2, 2));
    assert_eq!(back.pixel_format, DdsPixelFormat::A8R8G8B8);
    assert_eq!(back.surfaces.len(), 1);
    assert_eq!(back.surfaces[0].plane.data, data);
}

#[test]
fn uncompressed_mip_chain_is_box_filtered() {
    // A 2x2 L8 image with two levels: level 1 is the mean of the four texels.
    let img = image(2, 2, DdsPixelFormat::L8, 2, vec![surface(2, 2, 0, 2, vec![10, 20, 30, 40])]);
    let bytes = encode_dds_uncompressed(&img).unwrap();
    let back = parse_dds(&bytes).unwrap();
    assert_eq!(back.mip_map_count, 2);
    assert_eq!(back.surfaces.len(), 2);
    assert_eq!(back.surfaces[1].width, 1);
    assert_eq!(back.surfaces[1].plane.data, vec![25]);
}

#[test]
fn block_compressed_file_reads_back_each_level() {
    let lvl0: Vec<u8> = (0..16u8).collect(); // 8x4 BC1: two blocks
    let lvl1: Vec<u8> = (100..108u8).collect(); // 4x2: one block
    let lvl2: Vec<u8> = (200..208u8).collect(); // 2x1: one block
    let lvl3: Vec<u8> = (50..58u8).collect(); // 1x1: one block
    let img = image(
        8,
        4,
        DdsPixelFormat::Bc1,
        4,
        vec![
            surface(8, 4, 0, 16, lvl0.clone()),
            surface(4, 2, 1, 8, lvl1.clone()),
            surface(2, 1, 2, 8, lvl2.clone()),
            surface(1, 1, 3, 8, lvl3.clone()),
        ],
    );
    let bytes = encode_dds_block_compressed(&img).unwrap();
    assert_eq!(bytes.len(), 128 + 16 + 8 + 8 + 8);
    let back = parse_dds(&bytes).unwrap();
    assert_eq!(back.pixel_format, DdsPixelFormat::Bc1);
    assert!(!back.has_dxt10_header);
    assert_eq!(back.mip_map_count, 4);
    let datas: Vec<Vec<u8>> = back.surfaces.iter().map(|s| s.plane.data.clone()).collect();
    assert_eq!(datas, vec![lvl0, lvl1, lvl2, lvl3]);
}

#[test]
fn bc7_file_uses_the_dx10_record() {
    let lvl0: Vec<u8> = (0..16u8).collect();
    let img = image(4, 4, DdsPixelFormat::Bc7Unorm, 1, vec![surface(4, 4, 0, 16, lvl0.clone())]);
    let bytes = encode_dds_block_compressed(&img).unwrap();
    assert_eq!(bytes.len(), 148 + 16);
    let back = parse_dds(&bytes).unwrap();
    assert!(back.has_dxt10_header);
    assert_eq!(back.pixel_format, DdsPixelFormat::Bc7Unorm);
    assert_eq!(back.surfaces[0].plane.data, lvl0);
}

#[test]
fn writers_refuse_the_other_kind_of_layout() {
    let img = image(4, 4, DdsPixelFormat::Bc1, 1, vec![surface(4, 4, 0, 8, vec![0; 8])]);
    assert!(matches!(encode_dds_uncompressed(&img), Err(DdsError::Unsupported(_))));
    let img = image(1, 1, DdsPixelFormat::L8, 1, vec![surface(1, 1, 0, 1, vec![0])]);
    assert!(matches!(encode_dds_block_compressed(&img), Err(DdsError::Unsupported(_))));
}

#[test]
fn short_level_data_is_invalid() {
    let img = image(8, 4, DdsPixelFormat::Bc1, 1, vec![surface(8, 4, 0, 16, vec![0; 15])]);
    assert!(matches!(encode_dds_block_compressed(&img), Err(DdsError::InvalidData(_))));
}

#[test]
fn reader_rejects_bad_magic_and_truncation() {
    let img = image(2, 2, DdsPixelFormat::A8R8G8B8, 1, vec![surface(2, 2, 0, 8, vec![7; 16])]);
    let mut bytes = encode_dds_uncompressed(&img).unwrap();
    let truncated = bytes[..bytes.len() - 1].to_vec();
    assert!(matches!(parse_dds(&truncated), Err(DdsError::InvalidData(_))));
    bytes[0] = b'X';
    assert!(matches!(parse_dds(&bytes), Err(DdsError::InvalidData(_))));
    assert!(matches!(parse_dds(&[0u8; 10]), Err(DdsError::InvalidData(_))));
}
