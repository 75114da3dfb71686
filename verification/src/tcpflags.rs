//! The control bits of a TCP header, as they stand in its fourteenth byte.

use vstd::prelude::*;

verus! {

pub const CWR: u8 = 0x80;

pub const ECE: u8 = 0x40;

pub const URG: u8 = 0x20;

pub const ACK: u8 = 0x10;

pub const PSH: u8 = 0x08;

pub const RST: u8 = 0x04;

pub const SYN: u8 = 0x02;

pub const FIN: u8 = 0x01;

} // verus!
