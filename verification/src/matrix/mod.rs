pub mod bit;
mod bits;

pub use bit::BitMatrix;
