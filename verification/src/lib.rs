//! Verified core of a tool that bakes an equirectangular HDRI into a mipmapped
//! RGBA16F cubemap stored as a KTX2 file: the byte layout of the container, the
//! box-filtered mip chain and the de-padding of rows read back from the GPU.

pub mod le_bytes;
pub mod dfd;
pub mod ktx2;
pub mod ktx2_laws;
pub mod mip;
pub mod mip_laws;
pub mod texel_bytes;
pub mod readback;
pub mod dispatch;
pub mod bake;
