//! What a container layer reads off the front of a `.dds` file before
//! handing the whole file on: the magic, and the advertised size.
use vstd::prelude::*;
use crate::error::{DdsError, Result, is_invalid};
use crate::le::{le_u32, read_u32_le};
use crate::types::{DDPF_FOURCC, DDS_HEADER_SIZE, DDS_MAGIC, FOURCC_DX10};

verus! {

/// The four bytes `"DDS "` open the buffer.
pub open spec fn starts_with_magic(buf: Seq<u8>) -> bool {
    buf.len() >= 4 && buf[0] == 0x44 && buf[1] == 0x44 && buf[2] == 0x53 && buf[3] == 0x20
}

/// Whether `buf` opens with the `"DDS "` magic.
pub fn has_dds_magic(buf: &[u8]) -> (r: bool)
    ensures
        r == starts_with_magic(buf@),
{
    buf.len() >= 4 && buf[0] == 0x44 && buf[1] == 0x44 && buf[2] == 0x53 && buf[3] == 0x20
}

/// The size a demuxer advertises for a file, and whether its pixel format
/// points at the DX10 extension header.
#[derive(Debug, Clone, Copy, PartialEq, Eq)]
pub struct StreamHeader {
    pub width: u32,
    pub height: u32,
    pub has_dx10: bool,
}

/// Read the advertised width and height (header bytes at file offsets 16
/// and 12) and the DX10 marker (FourCC flag at offset 80 with FourCC
/// `"DX10"` at offset 84). A buffer shorter than the magic plus the
/// header, or one without the magic, is invalid.
pub fn stream_header(buf: &[u8]) -> (r: Result<StreamHeader>)
    ensures
        buf@.len() < 4 + DDS_HEADER_SIZE ==> is_invalid(r),
        buf@.len() >= 4 + DDS_HEADER_SIZE && le_u32(buf@, 0) != DDS_MAGIC ==> is_invalid(r),
        buf@.len() >= 4 + DDS_HEADER_SIZE && le_u32(buf@, 0) == DDS_MAGIC ==> r == Ok::<StreamHeader, DdsError>(
            StreamHeader {
                width: le_u32(buf@, 16),
                height: le_u32(buf@, 12),
                has_dx10: le_u32(buf@, 80) & DDPF_FOURCC != 0 && le_u32(buf@, 84) == FOURCC_DX10,
            },
        ),
{
    if buf.len() < 4 + DDS_HEADER_SIZE {
        return Err(DdsError::invalid("DDS demuxer: input shorter than the magic and the header"));
    }
    if read_u32_le(buf, 0) != DDS_MAGIC {
        return Err(DdsError::invalid("DDS demuxer: bad magic, expected \"DDS \""));
    }
    let height = read_u32_le(buf, 12);
    let width = read_u32_le(buf, 16);
    let pf_flags = read_u32_le(buf, 80);
    let pf_fourcc = read_u32_le(buf, 84);
    Ok(StreamHeader { width, height, has_dx10: pf_flags & DDPF_FOURCC != 0 && pf_fourcc == FOURCC_DX10 })
}

} // verus!
