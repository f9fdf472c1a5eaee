//! The file abstraction: uniform random-access block I/O.
//!
//! `MemoryFile` keeps its contents in an owned byte vector and is verified
//! here; an embedding program may implement [`File`] over a real
//! operating-system file and plug it in wherever a file is consumed.

use vstd::prelude::*;

use crate::byte_ops::{overwrite, resize_bytes, write_block_bytes, zeros};
use crate::common::BuzzDBError;

verus! {

/// Whether a file admits writes.
#[derive(Debug, Clone, Copy, PartialEq, Eq, Structural, Hash)]
pub enum FileMode {
    READ,
    WRITE,
}

/// Uniform random-access block I/O over a growable flat byte store.
pub trait File {
    /// The mode the file was opened with.
    spec fn mode_spec(&self) -> FileMode;

    /// The bytes the file currently holds.
    spec fn contents(&self) -> Seq<u8>;

    fn get_mode(&self) -> (m: FileMode)
        ensures
            m == self.mode_spec(),
    ;

    /// The current size of the file in bytes.
    fn size(&self) -> (r: Result<usize, BuzzDBError>)
        ensures
            (r matches Ok(n) && n == self.contents().len()),
    ;

    /// Truncates or zero-extends the file to `new_size`. Fails on a `READ`
    /// file, which is left unchanged.
    fn resize(&mut self, new_size: usize) -> (r: Result<(), BuzzDBError>)
        ensures
            final(self).mode_spec() == old(self).mode_spec(),
            old(self).mode_spec() == FileMode::READ ==> {
                &&& (r matches Err(e) && e matches BuzzDBError::Other(_))
                &&& final(self).contents() == old(self).contents()
            },
            old(self).mode_spec() == FileMode::WRITE ==> {
                &&& r matches Ok(u)
                &&& final(self).contents() == resize_bytes(old(self).contents(), new_size as nat)
            },
    ;

    /// Reads `size` bytes starting at `offset`. Fails when the range reaches
    /// past the end of the file.
    fn read_block(&mut self, offset: usize, size: usize) -> (r: Result<Vec<u8>, BuzzDBError>)
        ensures
            final(self).mode_spec() == old(self).mode_spec(),
            final(self).contents() == old(self).contents(),
            offset + size > old(self).contents().len() ==> (r matches Err(e)
                && e matches BuzzDBError::Other(_)),
            offset + size <= old(self).contents().len() ==> (r matches Ok(v)
                && v@ == old(self).contents().subrange(offset as int, offset + size)),
    ;

    /// Writes `block` at `offset`, extending the file first when the write
    /// reaches past its end. Fails on a `READ` file, which is left unchanged.
    fn write_block(&mut self, block: &[u8], offset: usize) -> (r: Result<(), BuzzDBError>)
        requires
            offset + block@.len() <= usize::MAX,
        ensures
            final(self).mode_spec() == old(self).mode_spec(),
            old(self).mode_spec() == FileMode::READ ==> {
                &&& (r matches Err(e) && e matches BuzzDBError::Other(_))
                &&& final(self).contents() == old(self).contents()
            },
            old(self).mode_spec() == FileMode::WRITE ==> {
                &&& r matches Ok(u)
                &&& final(self).contents() == write_block_bytes(
                    old(self).contents(),
                    block@,
                    offset as int,
                )
            },
    ;
}

/// An in-memory file: the whole contents live in an owned byte vector.
pub struct MemoryFile {
    pub mode: FileMode,
    pub data: Vec<u8>,
}

impl MemoryFile {
    /// An empty in-memory file.
    pub fn new(mode: FileMode) -> (f: Self)
        ensures
            f.mode == mode,
            f.data@ == Seq::<u8>::empty(),
    {
        Self { mode, data: Vec::new() }
    }

    /// An in-memory file preloaded with `data`.
    pub fn with_data(data: Vec<u8>, mode: FileMode) -> (f: Self)
        ensures
            f.mode == mode,
            f.data == data,
    {
        Self { mode, data }
    }

    /// The raw contents.
    pub fn get_data(&self) -> (d: &[u8])
        ensures
            d@ == self.data@,
    {
        self.data.as_slice()
    }
}

impl File for MemoryFile {
    open spec fn mode_spec(&self) -> FileMode {
        self.mode
    }

    open spec fn contents(&self) -> Seq<u8> {
        self.data@
    }

    fn get_mode(&self) -> (m: FileMode) {
        self.mode
    }

    fn size(&self) -> (r: Result<usize, BuzzDBError>) {
        Ok(self.data.len())
    }

    fn resize(&mut self, new_size: usize) -> (r: Result<(), BuzzDBError>) {
        if self.mode == FileMode::READ {
            return Err(
                BuzzDBError::Other(String::from_str("Cannot resize a read-only file")),
            );
        }

        if new_size <= self.data.len() {
            self.data.truncate(new_size);
            assert(self.data@ =~= resize_bytes(old(self).data@, new_size as nat));
        } else {
            while self.data.len() < new_size
                invariant
                    old(self).data@.len() <= self.data@.len() <= new_size,
                    self.data@.subrange(0, old(self).data@.len() as int) == old(self).data@,
                    forall|i: int|
                        old(self).data@.len() <= i < self.data@.len() ==> self.data@[i] == 0u8,
                    self.mode == old(self).mode,
                decreases new_size - self.data@.len(),
            {
                self.data.push(0u8);
                assert(self.data@.subrange(0, old(self).data@.len() as int) == old(
                    self,
                ).data@);
            }
            assert(self.data@ =~= resize_bytes(old(self).data@, new_size as nat));
        }
        Ok(())
    }

    fn read_block(&mut self, offset: usize, size: usize) -> (r: Result<Vec<u8>, BuzzDBError>) {
        if offset > self.data.len() || size > self.data.len() - offset {
            return Err(
                BuzzDBError::Other(String::from_str("Attempt to read past end of file")),
            );
        }

        let data_len = self.data.len();
        let mut buffer: Vec<u8> = Vec::new();
        let mut i: usize = 0;
        while i < size
            invariant
                i <= size,
                offset + size <= data_len,
                self.data@.len() == data_len,
                self == old(self),
                buffer@ == self.data@.subrange(offset as int, offset + i),
            decreases size - i,
        {
            buffer.push(self.data[offset + i]);
            i = i + 1;
            assert(buffer@ =~= self.data@.subrange(offset as int, offset + i));
        }
        Ok(buffer)
    }

    fn write_block(&mut self, block: &[u8], offset: usize) -> (r: Result<(), BuzzDBError>) {
        if self.mode == FileMode::READ {
            return Err(
                BuzzDBError::Other(String::from_str("Cannot write to a read-only file")),
            );
        }

        if offset > self.data.len() || block.len() > self.data.len() - offset {
            let grown = offset + block.len();
            let r = self.resize(grown);
        }

        crate::byte_ops::copy_bytes_at(&mut self.data, offset, block);
        assert(self.data@ =~= write_block_bytes(old(self).data@, block@, offset as int));
        Ok(())
    }
}

} // verus!
