//! Streams that arrive over a Bluetooth serial port. One data link
//! connection is one Stream: what was said between its SABM and its DISC.
//!
//! RFCOMM is the serial cable Bluetooth replaced — a barcode scanner, a
//! printer, a meter on the bench — and it rides on L2CAP, the channel layer
//! every ACL link has. A client opens the L2CAP channel to PSM 3, starts the
//! multiplexer on DLCI 0, opens the server channel's data link, writes the
//! Stream in UIH frames of N1 bytes and closes the link; a server answers
//! those and takes the Stream.
//!
//! The controller is a trait: [`LoopbackRadio`] is the server on an
//! in-process link, which every box without a Bluetooth controller can drive.
//! The origin URI names the radio and the server channel: `bt://loopback/3`.
//!
//! Every contract speaks of sequences: [`l2cap`] and [`rfcomm`] say which bytes
//! a frame is and which frame bytes are, [`session`] what a packet does to the
//! server's state, [`client`] and [`server`] which traces of a radio a
//! connection leaves, and [`conversation`] that the two ends understand each
//! other.

pub mod bytes;
pub mod client;
pub mod conversation;
pub mod error;
pub mod l2cap;
pub mod packet;
pub mod radio;
pub mod rfcomm;
pub mod server;
pub mod session;
pub mod text;
pub mod transport;

pub use error::Error;
pub use radio::{LoopbackRadio, Radio};
pub use transport::{Arrived, BluetoothTransport, Reception};
