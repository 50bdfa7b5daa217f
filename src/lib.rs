//! An in-memory virtual filesystem: a tree of directories and growable byte
//! files addressed by slash-separated paths.
use vstd::prelude::*;

use crate::stream::{bytes_at, read_count};

pub mod laws;
pub mod memory;
pub mod path;
pub mod stream;

verus! {

/// The ways an operation on a store or a stream can fail.
#[derive(PartialEq, Eq, Structural, Debug, Clone, Copy)]
pub enum FoldyError {
    /// The path leads to a directory where a file was expected.
    FileNotFound,
    /// A segment of the path does not exist.
    DirectoryNotFound,
    /// The path is malformed, or a segment that must be a directory is not one.
    InvalidPath,
    /// Reserved for stream exhaustion in call shapes that signal it.
    EOF,
}

/// A directory entry produced by listing a directory: the child's absolute
/// path.
pub struct DirEntry {
    pub path: Vec<u8>,
}

impl DirEntry {
    /// The entry's absolute path.
    pub fn path(&self) -> (r: &[u8])
        ensures
            r@ == self.path@,
    {
        self.path.as_slice()
    }
}

/// A byte stream with a cursor, as a store hands out its files.
pub trait File {
    /// The bytes the stream holds.
    spec fn content(&self) -> Seq<u8>;

    /// The cursor.
    spec fn cursor(&self) -> nat;

    /// Whether the stream can be made to hold `need` bytes.
    spec fn can_hold(&self, need: nat) -> bool;

    /// Copies the bytes at the cursor into the front of `buf`, as many as
    /// both have, and moves the cursor past them; `Ok(0)` at the end.
    fn read(&mut self, buf: &mut [u8]) -> (r: Result<usize, FoldyError>)
        ensures
            ({
                let n = read_count(old(self).content().len(), old(self).cursor(), old(buf)@.len());
                &&& r == Ok::<usize, FoldyError>(n as usize)
                &&& final(buf)@ == bytes_at(old(self).content(), old(self).cursor() as int, n)
                    + old(buf)@.subrange(n as int, old(buf)@.len() as int)
                &&& final(self).content() == old(self).content()
                &&& final(self).cursor() == old(self).cursor() + n
            }),
    ;

    /// Writes all of `buf` at the cursor and moves the cursor past it. Bytes
    /// before the cursor and after the written ones stay as they were.
    fn write(&mut self, buf: &[u8]) -> (r: Result<usize, FoldyError>)
        requires
            old(self).can_hold(old(self).cursor() + buf@.len()),
        ensures
            r == Ok::<usize, FoldyError>(buf@.len() as usize),
            final(self).cursor() == old(self).cursor() + buf@.len(),
            final(self).content().len() >= final(self).cursor(),
            final(self).content().subrange(old(self).cursor() as int, final(self).cursor() as int)
                == buf@,
            forall|i: int|
                0 <= i < old(self).content().len() && !(old(self).cursor() <= i
                    < final(self).cursor()) ==> #[trigger] final(self).content()[i] == old(
                    self,
                ).content()[i],
    ;

    /// Moves the cursor to `pos`, extending the stream when `pos` is past its
    /// end; the bytes it held stay as they were.
    fn seek(&mut self, pos: u64) -> (r: Result<u64, FoldyError>)
        requires
            old(self).can_hold(pos as nat),
        ensures
            r == Ok::<u64, FoldyError>(pos),
            final(self).cursor() == pos,
            final(self).content().len() >= pos,
            final(self).content().len() >= old(self).content().len(),
            final(self).content().subrange(0, old(self).content().len() as int)
                == old(self).content(),
    ;

    /// The cursor.
    fn position(&self) -> (r: u64)
        requires
            self.cursor() <= u64::MAX,
        ensures
            r == self.cursor(),
    ;
}

/// A store of directories and files addressed by slash-separated paths.
pub trait Source {
    /// What the store hands out for a file.
    type Stream: File;

    /// What listing a directory yields.
    type DirIter;

    /// The store's own consistency condition, which every operation keeps.
    spec fn inv(&self) -> bool;

    /// Lists the direct children of the directory at `path`.
    fn read_dir(&self, path: &str) -> (r: Result<Self::DirIter, FoldyError>)
        requires
            self.inv(),
    ;

    /// Creates the directory at `path`; succeeds when one is already there.
    fn create_dir(&mut self, path: &str) -> (r: Result<(), FoldyError>)
        requires
            old(self).inv(),
        ensures
            final(self).inv(),
    ;

    /// Removes the directory at `path`.
    fn remove_dir(&mut self, path: &str) -> (r: Result<(), FoldyError>)
        requires
            old(self).inv(),
        ensures
            final(self).inv(),
    ;

    /// Opens the file at `path` for reading.
    fn open(&self, path: &str) -> (r: Result<&Self::Stream, FoldyError>)
        requires
            self.inv(),
    ;

    /// Opens the file at `path` for writing, creating it when it is missing.
    fn open_mut(&mut self, path: &str) -> (r: Result<&mut Self::Stream, FoldyError>)
        requires
            old(self).inv(),
        ensures
            final(self).inv(),
    ;
}

} // verus!
