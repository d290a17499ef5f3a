//! ezark: a self-contained file archiver.
//!
//! An archive is a decimal length prefix, a textual index describing the
//! directory tree, and the concatenated raw bytes of every packed file
//! (the blob). The library holds the verified core: the index model, the
//! packer that assigns blob offsets, the index codec, the extraction
//! planner, and the tree printer. All file and console I/O stays with the
//! caller, which hands the library plain values.

#![allow(non_snake_case)]

use vstd::prelude::*;

pub mod args;
pub mod codec;
pub mod index;
pub mod pack;
pub mod printer;
pub mod reader;
pub mod unpack;

verus! {

/// A zero-filled byte buffer of the given size, ready to be read into.
pub fn makeSizedBuffer(size: usize) -> (r: Vec<u8>)
    ensures
        r@.len() == size,
        forall|i: int| 0 <= i < size ==> r@[i] == 0,
{
    let mut buffer: Vec<u8> = Vec::new();
    let mut k: usize = 0;
    while k < size
        invariant
            k <= size,
            buffer@.len() == k,
            forall|i: int| 0 <= i < k ==> buffer@[i] == 0,
        decreases size - k,
    {
        buffer.push(0);
        k = k + 1;
    }
    buffer
}

} // verus!
