//! Streaming ingestion of barcodes from HID scanners.
//!
//! A scanner sends the text of each barcode as bytes that end in a newline,
//! cut into reads of a few bytes at arbitrary places. This crate holds every
//! decision on the way from those reads to decoded barcodes, and none of the
//! I/O: whoever owns the devices tells the crate what happened to them and
//! is told what to forward and what to do next.
//!
//! * [`catalog`]: the devices that are attached, and the filter that picks
//!   the scanners among them.
//! * [`text`]: decoding a raw line and stripping its padding.
//! * [`accumulator`]: cutting one device's byte stream into lines, within a
//!   bound on memory and independent of how the reads were cut.
//! * [`session`]: the state machine of one device, from opening it to its
//!   failure or its cancellation.
//! * [`supervisor`]: one session for each scanner, each isolated from the
//!   others, and a way to end them all.
//!
//! Every function is specified over a mathematical view of the data it
//! works on, and the general statements that tie the functions together
//! are proved as `lemma_*` functions beside them.

pub mod accumulator;
pub mod catalog;
pub mod session;
pub mod supervisor;
pub mod text;
