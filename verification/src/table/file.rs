//! The file of a table, as the bytes that it holds.

use crate::error::StorageError;
use crate::wire::copy_range;
use vstd::prelude::*;

verus! {

/// The bytes of a file, held in memory. Reading a file from disk and writing
/// one is left to the caller.
pub struct FileObject {
    data: Option<Vec<u8>>,
    size: u64,
}

impl FileObject {
    /// The size is the length of the contents, where they are at hand.
    #[verifier::type_invariant]
    spec fn inv(self) -> bool {
        self.data is Some ==> self.size == self.data->0@.len()
    }

    /// What the file holds, if its contents are at hand.
    pub closed spec fn contents(&self) -> Option<Seq<u8>> {
        match self.data {
            Some(d) => Some(d@),
            None => None,
        }
    }

    /// The size of the file in bytes.
    pub closed spec fn len(&self) -> int {
        self.size as int
    }

    /// The file is as long as its contents, if they are at hand. This holds
    /// of every file object that the library hands out.
    pub open spec fn wf(&self) -> bool {
        self.contents() is Some ==> self.len() == self.contents()->0.len()
    }

    /// Reads `len` bytes from `offset` on. A read beyond the end, or from a
    /// file whose contents are not at hand, is an I/O error.
    pub fn read(&self, offset: u64, len: u64) -> (r: Result<Vec<u8>, StorageError>)
        ensures
            self.wf(),
            match r {
                Ok(bytes) => {
                    &&& self.contents() is Some
                    &&& offset + len <= self.len()
                    &&& bytes@ == self.contents()->0.subrange(offset as int, offset + len)
                },
                Err(e) => e == StorageError::Io && (self.contents() is None || offset + len > self.len()),
            },
    {
        proof {
            use_type_invariant(self);
        }
        match &self.data {
            Some(d) => {
                let n: usize = d.len();
                if offset > n as u64 || len > n as u64 - offset {
                    return Err(StorageError::Io);
                }
                let from: usize = offset as usize;
                let to: usize = from + len as usize;
                Ok(copy_range(d.as_slice(), from, to))
            },
            None => Err(StorageError::Io),
        }
    }

    /// The size of the file in bytes.
    pub fn size(&self) -> (n: u64)
        ensures
            self.wf(),
            n == self.len(),
    {
        proof {
            use_type_invariant(self);
        }
        self.size
    }

    /// A file object that holds `data`.
    pub fn create(data: Vec<u8>) -> (f: FileObject)
        ensures
            f.wf(),
            f.contents() == Some(data@),
            f.len() == data@.len(),
    {
        let size: u64 = data.len() as u64;
        FileObject { data: Some(data), size }
    }

    /// A file object that knows the size of a file and not its contents.
    pub fn without_contents(size: u64) -> (f: FileObject)
        ensures
            f.wf(),
            f.contents() is None,
            f.len() == size,
    {
        FileObject { data: None, size }
    }

    /// The bytes of the file, if they are at hand.
    pub fn bytes(&self) -> (r: Option<&[u8]>)
        ensures
            self.wf(),
            match r {
                Some(b) => self.contents() == Some(b@),
                None => self.contents() is None,
            },
    {
        proof {
            use_type_invariant(self);
        }
        match &self.data {
            Some(d) => Some(d.as_slice()),
            None => None,
        }
    }
}

} // verus!
