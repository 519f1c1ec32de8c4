//! The block-storage filesystem layer: a sector-level disk interface
//! and a read-only FAT32 driver over it.

pub mod fat32;

use vstd::prelude::*;

verus! {

/// A handle onto an open file: its id, read position and byte size.
#[derive(Clone, Copy, Debug, PartialEq, Eq, Structural)]
pub struct FileHandle {
    pub id: usize,
    pub position: usize,
    pub size: usize,
}

/// What a mounted filesystem offers its callers.
pub trait FileSystem {
    fn init(&mut self) -> Result<(), &'static str>;

    fn open(&mut self, path: &str) -> Result<FileHandle, &'static str>;

    fn read(&self, handle: &mut FileHandle, max_len: usize) -> Result<Vec<u8>, &'static str>;

    fn write(&mut self, handle: &mut FileHandle, buffer: &Vec<u8>) -> Result<usize,
        &'static str>;

    fn close(&mut self, handle: FileHandle) -> Result<(), &'static str>;
}

} // verus!
