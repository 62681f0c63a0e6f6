//! Fixed-capacity ring buffer for moving samples between a producer and a
//! consumer context, with a small DAC control record and a 32-bit xorshift
//! pseudo-random generator.

pub mod cpu_dac;
pub mod random;
pub mod storage;
