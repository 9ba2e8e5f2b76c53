//! A verified byte pipeline for a USB-attached GPIO bridge.
//!
//! A microcontroller exposes its GPIO pins over a CDC serial port; a host
//! drives them as if they were local. Verified here is the framed transport
//! that carries commands and responses over the raw byte stream, and the
//! protocol on top of it:
//!
//! * `cobs` - the COBS codec that turns arbitrary byte strings into
//!   self-delimiting frames and back, with its round-trip, overhead and
//!   framing lemmas;
//! * `bip` - the single-producer/single-consumer byte queue with
//!   reservation semantics that carries every hop;
//! * `assembler` - the packet assembler that decodes streamed frames into
//!   length-prefixed packets;
//! * `command` - frame transmission, the GPIO target, and the dispatcher
//!   that turns packets into response frames;
//! * `protocol`, `hal`, `gpio` - the wire protocol types, their byte
//!   encodings, the error taxonomy, and the pin interface;
//! * `board` - the board's pin set, with register work abstracted away;
//! * `serial` - the transmit scheduling policy for the USB endpoint;
//! * `channels`, `client` - the host-side command channel and GPIO client.

pub mod assembler;
pub mod bip;
pub mod board;
pub mod channels;
pub mod client;
pub mod cobs;
pub mod command;
pub mod gpio;
pub mod hal;
pub mod protocol;
pub mod serial;

use vstd::prelude::*;

verus! {

} // verus!
