//! Preparation of monochrome bitmap animation frames for storage in
//! read-only firmware memory: bit-packing of pixel matrices, a reversible
//! byte-wise difference against a shared base frame, a two-mode run-length
//! codec, and the selection of the base frame that keeps the stored byte
//! count small.

pub mod codec;
pub mod base_frame;
pub mod delta;
pub mod frame;

pub use base_frame::compute_size_from_base;
pub use base_frame::find_suboptimal_base_frame;
pub use base_frame::generate_base_frame;
pub use base_frame::SelectError;
pub use codec::compress;
pub use codec::uncompress;
pub use codec::uncompress2;
pub use codec::CodecError;
pub use delta::diff;
pub use delta::generate_from_base;
pub use delta::undiff;
pub use frame::Frame;
pub use frame::FrameError;
