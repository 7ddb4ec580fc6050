//! A time-domain vibrato effect library.
//!
//! The verified core is a fixed-capacity circular sample buffer
//! ([`ring_buffer::RingBuffer`]) with wrap-safe cursor arithmetic, the
//! delay line behind the modulation engine.

pub mod ring_buffer;
