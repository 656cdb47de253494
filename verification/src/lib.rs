//! A growable bit set whose storage is organised into fixed-width blocks of
//! lanes, so that set algebra and counting work on many bits at a time.
//!
//! The model of a bit vector is the sequence of its bits (`Seq<bool>`); every
//! operation states what it does to that sequence. The storage keeps two
//! things true throughout: it has exactly as many blocks as the length
//! takes, and every stored bit beyond the length is clear.
pub mod algebra;
pub mod bits;
pub mod bitvec;
pub mod block;
pub mod construct;
pub mod convert;
pub mod lane;
pub mod lane_u16;
pub mod lane_u32;
pub mod lane_u64;
pub mod lane_u8;
pub mod layout;
pub mod mask;
pub mod mutate;
pub mod query;
pub mod wide_u16x8;
pub mod wide_u32x4;
pub mod wide_u32x8;
pub mod wide_u64x2;
pub mod wide_u64x4;
pub mod wide_u8x16;

pub use crate::bitvec::BitVec;
pub use crate::bitvec::BitVecSimd;
pub use crate::block::BitBlock;
pub use crate::lane::BitBlockElement;
