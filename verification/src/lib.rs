//! Receive path of a GPS tracker.
//!
//! The serial receiver delivers the byte stream of the GPS module in frames of
//! [`packet::FRAME_LEN`] bytes, which its DMA writes into a ring of frames
//! ([`dma_ring`]). Each completed frame is relayed ([`relay`]) to a ring of
//! message slots, in which the stream is cut into sentences at every start
//! marker ([`nmea_parser`]). What the interrupt handler of the receiver has to
//! do on each interrupt is decided in [`interrupt`]; the handler itself, which
//! reads and writes the registers, is not part of this library.

pub mod dma_ring;
pub mod interrupt;
pub mod nmea_parser;
pub mod packet;
pub mod relay;
