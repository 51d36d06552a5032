//! Decoder for the exchange's "format six" real-time quote feed.
//!
//! The feed arrives as datagrams of concatenated, variable-length records whose
//! numeric fields are packed decimal. This library turns those bytes into
//! structured quote records and watches the per-feed sequence numbers:
//!
//! * [`bcd`]: the packed-decimal codec;
//! * [`text`]: the one text field, read as UTF-8;
//! * [`head`]: the two fixed overlays at the start of every record;
//! * [`f6`]: the header, the quote body and the whole record;
//! * [`demux`]: cutting a datagram into records, and the receiving end of a
//!   feed as a state machine;
//! * [`sequence`]: sequence tracking and gap detection;
//! * [`clock`]: stamping a record with its time of receipt;
//! * [`error`]: the ways in which decoding fails.
//!
//! Prices are kept as integers in ten-thousandths of a currency unit, exactly
//! as the wire carries them. Nothing here reads a socket or talks to a sink:
//! the caller hands in bytes and gets records back.
pub mod bcd;
pub mod clock;
pub mod demux;
pub mod error;
pub mod f6;
pub mod head;
pub mod sequence;
pub mod text;
