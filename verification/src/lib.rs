//! Primitives for ring-LWE based cryptography (modular arithmetic, the ring
//! Z_q[X]/(X^n + 1), the number theoretic transform, bit packing and sampling)
//! together with small educational schemes built on them.

pub mod modular;
pub mod ring;
pub mod bitwriting;
pub mod polys;
pub mod encoding;
pub mod ntt;
pub mod fermat;
pub mod ntt_blocks;
pub mod ntt_mul;
pub mod known_roots;
pub mod sampling;
pub mod bfv;
pub mod saber;
pub mod newhope;
