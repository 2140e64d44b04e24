//! A verified point-to-point link-layer protocol stack: an HDLC-style
//! byte-stuffing framer and deframer with a 16-bit frame check sequence,
//! a fixed-header message codec layered on top, bounded queues with a
//! drop-newest policy, and the frame-assembly pipeline that turns chunks
//! of raw bytes arriving from a serial transport into validated messages.
//!
//! - [`hdlc`]: framing, escaping, FCS, and the deframe scan, with the
//!   round-trip, resynchronization, partial-delivery and corruption-
//!   detection laws.
//! - [`comm`]: the message format, its serialization, and the codec
//!   round-trip law.
//! - [`queue`]: the bounded FIFO queue shared by ingress and egress.
//! - [`assembler`]: the pipeline state machine and the laws of its FCS
//!   error counter. The surrounding application performs the reads and
//!   writes and owns the recovery policy.
//! - [`adc`], [`board`], [`flash`]: pure descriptions of the hardware the
//!   stack runs beside: reading conversions, board constants, the flash
//!   sector map.

pub mod adc;
pub mod assembler;
pub mod board;
pub mod comm;
pub mod flash;
pub mod hdlc;
pub mod queue;
