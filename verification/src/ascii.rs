//! The bytes that structure JSON documents and event streams.
use vstd::prelude::*;

verus! {

pub const LINE_FEED: u8 = 0x0a;

pub const CARRIAGE_RETURN: u8 = 0x0d;

pub const QUOTE: u8 = 0x22;

pub const COMMA: u8 = 0x2c;

pub const COLON: u8 = 0x3a;

pub const OPEN_ARRAY: u8 = 0x5b;

pub const BACKSLASH: u8 = 0x5c;

pub const CLOSE_ARRAY: u8 = 0x5d;

pub const OPEN_OBJECT: u8 = 0x7b;

pub const CLOSE_OBJECT: u8 = 0x7d;

} // verus!
