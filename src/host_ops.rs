use vstd::prelude::*;

use crate::bytes::splice;
use crate::error::FsError;

verus! {

/// How an image is opened.
pub enum FileOpsMode {
    ReadOnly,
    ReadWrite,
}

/// A seekable image of bytes that the engine reads and writes.
///
/// `image()` is the whole content and `position()` the cursor. Every engine
/// call seeks before it transfers, and a transfer is either complete or an error.
pub trait FileHandler {
    spec fn image(&self) -> Seq<u8>;

    spec fn position(&self) -> int;

    fn is_file_type(&self) -> bool;

    /// Sizes the image to `size` bytes.
    fn create(&mut self, size: u64) -> (r: Result<(), FsError>)
        ensures
            r is Ok ==> final(self).image().len() == size,
    ;

    /// Moves the cursor to an absolute byte offset.
    fn seek(&mut self, position: u64)
        ensures
            final(self).image() == old(self).image(),
            final(self).position() == position,
    ;

    /// Fills `buf` with the bytes at the cursor.
    fn read(&mut self, buf: &mut Vec<u8>) -> (r: Result<usize, FsError>)
        ensures
            final(self).image() == old(self).image(),
            final(buf)@.len() == old(buf)@.len(),
            r matches Ok(n) ==> {
                &&& n == old(buf)@.len()
                &&& old(self).position() + n <= old(self).image().len()
                &&& final(buf)@ == old(self).image().subrange(
                    old(self).position(),
                    old(self).position() + n,
                )
            },
    ;

    /// Writes `buf` at the cursor, over bytes that the image already has.
    fn write(&mut self, buf: &Vec<u8>) -> (r: Result<usize, FsError>)
        ensures
            r matches Ok(n) ==> {
                &&& n == buf@.len()
                &&& 0 <= old(self).position()
                &&& old(self).position() + n <= old(self).image().len()
                &&& final(self).image() == splice(old(self).image(), old(self).position(), buf@)
            },
    ;
}

/// An image held in memory.
pub struct MemDisk {
    data: Vec<u8>,
    pos: u64,
}

impl MemDisk {
    /// An image of `size` zero bytes.
    pub fn new(size: usize) -> (r: MemDisk)
        ensures
            r.image() == Seq::new(size as nat, |i: int| 0u8),
    {
        let mut data: Vec<u8> = Vec::new();
        let mut i: usize = 0;
        while i < size
            invariant
                i <= size,
                data@ == Seq::new(i as nat, |k: int| 0u8),
            decreases size - i,
        {
            data.push(0u8);
            i = i + 1;
            assert(data@ =~= Seq::new(i as nat, |k: int| 0u8));
        }
        MemDisk { data, pos: 0 }
    }

    /// An image with the given content.
    pub fn from_bytes(data: Vec<u8>) -> (r: MemDisk)
        ensures
            r.image() == data@,
    {
        MemDisk { data, pos: 0 }
    }

    /// The whole content of the image.
    pub fn contents(&self) -> (r: &Vec<u8>)
        ensures
            r@ == self.image(),
    {
        &self.data
    }
}

impl FileHandler for MemDisk {
    closed spec fn image(&self) -> Seq<u8> {
        self.data@
    }

    closed spec fn position(&self) -> int {
        self.pos as int
    }

    fn is_file_type(&self) -> bool {
        true
    }

    fn create(&mut self, size: u64) -> (r: Result<(), FsError>) {
        if size > usize::MAX as u64 {
            return Err(FsError::Io);
        }
        let want = size as usize;
        if want < self.data.len() {
            self.data.truncate(want);
        } else {
            while self.data.len() < want
                invariant
                    self.data@.len() <= want,
                decreases want - self.data@.len(),
            {
                self.data.push(0u8);
            }
        }
        Ok(())
    }

    fn seek(&mut self, position: u64) {
        self.pos = position;
    }

    fn read(&mut self, buf: &mut Vec<u8>) -> (r: Result<usize, FsError>) {
        let n = buf.len();
        if self.pos > self.data.len() as u64 || (self.data.len() as u64 - self.pos) < n as u64 {
            return Err(FsError::Io);
        }
        let start = self.pos as usize;
        let mut k: usize = 0;
        while k < n
            invariant
                n == buf@.len(),
                start + n <= self.data.len(),
                start == old(self).pos,
                self.data@ == old(self).data@,
                k <= n,
                forall|j: int| 0 <= j < k ==> buf@[j] == self.data@[start + j],
            decreases n - k,
        {
            buf.set(k, self.data[start + k]);
            k = k + 1;
        }
        assert(buf@ =~= self.data@.subrange(start as int, start + n));
        Ok(n)
    }

    fn write(&mut self, buf: &Vec<u8>) -> (r: Result<usize, FsError>) {
        let n = buf.len();
        if self.pos > self.data.len() as u64 || (self.data.len() as u64 - self.pos) < n as u64 {
            return Err(FsError::Io);
        }
        let start = self.pos as usize;
        let ghost before = self.data@;
        let mut k: usize = 0;
        while k < n
            invariant
                n == buf@.len(),
                start + n <= before.len(),
                start + n <= self.data.len(),
                start == old(self).pos,
                before == old(self).data@,
                self.data@.len() == before.len(),
                k <= n,
                forall|j: int| 0 <= j < k ==> self.data@[start + j] == buf@[j],
                forall|j: int|
                    0 <= j < before.len() && !(start <= j < start + k) ==> self.data@[j]
                        == before[j],
            decreases n - k,
        {
            self.data.set(start + k, buf[k]);
            k = k + 1;
        }
        assert(self.data@ =~= splice(before, start as int, buf@));
        Ok(n)
    }
}

} // verus!
