use vstd::prelude::*;

pub mod bitfacts;
pub mod block_laws;
pub mod bc_roundtrip;
pub mod bcn;
pub mod bcn_enc;
pub mod bc6h;
pub mod bc6h_tables;
pub mod bc6h_enc;
pub mod bc6h_pack;
pub mod bc6h_surface;
pub mod astc;
pub mod astc_ise;
pub mod astc_enc;
pub mod astc_surface;
pub mod bc7;
pub mod bc7_enc;
pub mod bc7_tables;
pub mod decoder;
pub mod encoder;
pub mod error;
pub mod hdr;
pub mod image;
pub mod le;
pub mod roundtrip;
pub mod small_float;
pub mod sniff;
pub mod surface;
pub mod types;

pub use error::{DdsError, Result};
pub use image::{CubemapFace, DdsImage, DdsPixelFormat, DdsPlane, DdsSurface};
pub use types::DxgiFormat;

verus! {

} // verus!
