//! A compact binary encoding: primitive values, text and sequences written
//! into a growable byte buffer with base-128 variable-length integers, and
//! read back from it.
#![allow(non_snake_case)]

pub mod buffer;
pub mod codec;
pub mod varint;
pub mod zigzag;
