//! Growable byte files with a read/write cursor.
use vstd::prelude::*;

use crate::{File, FoldyError};

verus! {

/// `n` zero bytes.
pub open spec fn zeros(n: nat) -> Seq<u8> {
    Seq::new(n, |i: int| 0u8)
}

/// The length a buffer of `len` bytes grows to when `desired` bytes are asked
/// for: the larger of the request and twice the current length.
pub open spec fn grown_len(len: nat, desired: nat) -> nat {
    if desired >= 2 * len {
        desired
    } else {
        2 * len
    }
}

/// The buffer `data` after it has been made to hold at least `need` bytes:
/// unchanged when it already does, else grown by the policy above and
/// zero-filled.
pub open spec fn ensure_len(data: Seq<u8>, need: nat) -> Seq<u8> {
    if need > data.len() {
        data + zeros((grown_len(data.len(), need) - data.len()) as nat)
    } else {
        data
    }
}

/// `data` after `b` is written at `off`: grown to hold it, then overwritten
/// there.
pub open spec fn written(data: Seq<u8>, off: nat, b: Seq<u8>) -> Seq<u8> {
    let grown = ensure_len(data, off + b.len());
    grown.subrange(0, off as int) + b + grown.subrange((off + b.len()) as int, grown.len() as int)
}

/// Whether making `data` hold `need` bytes keeps its length within `usize`.
pub open spec fn fits_after_growth(len: nat, need: nat) -> bool {
    need <= usize::MAX && (need > len ==> grown_len(len, need) <= usize::MAX)
}

/// How many bytes a read of `want` bytes at `cursor` copies out of `len`.
pub open spec fn read_count(len: nat, cursor: nat, want: nat) -> nat {
    if cursor >= len {
        0
    } else if want <= len - cursor {
        want
    } else {
        (len - cursor) as nat
    }
}

/// The `n` bytes of `data` that start at `off`; none when `n` is zero.
pub open spec fn bytes_at(data: Seq<u8>, off: int, n: nat) -> Seq<u8> {
    if n == 0 {
        Seq::empty()
    } else {
        data.subrange(off, off + n)
    }
}

/// Where a relative seek starts from, and by how much it moves.
#[derive(PartialEq, Eq, Structural, Debug, Clone, Copy)]
pub enum SeekFrom {
    Start(u64),
    End(i64),
    Current(i64),
}

/// The position a seek lands on in a buffer of `len` bytes with the cursor at
/// `cursor`; a position before the start is zero.
pub open spec fn seek_target(len: nat, cursor: nat, pos: SeekFrom) -> nat {
    let t: int = match pos {
        SeekFrom::Start(o) => o as int,
        SeekFrom::End(d) => len + d,
        SeekFrom::Current(d) => cursor + d,
    };
    if t < 0 {
        0
    } else {
        t as nat
    }
}

/// A growable byte buffer with a read/write cursor.
#[derive(Clone, Debug)]
pub struct MemoryFile {
    pub data: Vec<u8>,
    pub stream_offset: usize,
}

/// What a file holds: its bytes and its cursor.
pub struct FileState {
    pub data: Seq<u8>,
    pub cursor: nat,
}

impl View for MemoryFile {
    type V = FileState;

    open spec fn view(&self) -> FileState {
        FileState { data: self.data@, cursor: self.stream_offset as nat }
    }
}

impl Default for MemoryFile {
    fn default() -> (r: Self)
        ensures
            r.data@ == Seq::<u8>::empty(),
            r.stream_offset == 0,
    {
        MemoryFile { data: Vec::new(), stream_offset: 0 }
    }
}

impl MemoryFile {
    /// The cursor lies within the buffer.
    pub open spec fn wf(&self) -> bool {
        self.stream_offset <= self.data@.len()
    }

    /// Grows the buffer to the larger of `desired_capacity` and twice its
    /// length, zero-filling the new bytes, and returns the new length.
    pub fn grow(&mut self, desired_capacity: u64) -> (r: Result<u64, FoldyError>)
        requires
            grown_len(old(self).data@.len(), desired_capacity as nat) <= usize::MAX,
        ensures
            r == Ok::<u64, FoldyError>(
                grown_len(old(self).data@.len(), desired_capacity as nat) as u64,
            ),
            final(self).data@ == old(self).data@ + zeros(
                (grown_len(old(self).data@.len(), desired_capacity as nat) - old(
                    self,
                ).data@.len()) as nat,
            ),
            final(self).stream_offset == old(self).stream_offset,
            old(self).wf() ==> final(self).wf(),
    {
        let len = self.data.len();
        let new_size: usize = if desired_capacity as usize >= 2 * len {
            desired_capacity as usize
        } else {
            2 * len
        };
        let ghost old_data = self.data@;
        while self.data.len() < new_size
            invariant
                old_data.len() == len,
                len <= self.data@.len() <= new_size,
                self.data@ == old_data + zeros((self.data@.len() - len) as nat),
                self.stream_offset == old(self).stream_offset,
            decreases new_size - self.data@.len(),
        {
            self.data.push(0);
            assert(self.data@ =~= old_data + zeros((self.data@.len() - len) as nat));
        }
        Ok(new_size as u64)
    }

    /// A file holding a copy of `buf`, with the cursor at the start.
    pub fn from_slice(buf: &[u8]) -> (r: Self)
        ensures
            r.data@ == buf@,
            r.stream_offset == 0,
    {
        MemoryFile { stream_offset: 0, data: vstd::slice::slice_to_vec(buf) }
    }

    /// Copies the bytes at the cursor into the front of `buf`, as many as both
    /// have, and moves the cursor past them. At or past the end of the data
    /// nothing is copied and `Ok(0)` is returned.
    pub fn read(&mut self, buf: &mut [u8]) -> (r: Result<usize, FoldyError>)
        ensures
            ({
                let n = read_count(
                    old(self).data@.len(),
                    old(self).stream_offset as nat,
                    old(buf)@.len(),
                );
                let off = old(self).stream_offset as int;
                &&& r == Ok::<usize, FoldyError>(n as usize)
                &&& final(buf)@ == bytes_at(old(self).data@, off, n) + old(buf)@.subrange(
                    n as int,
                    old(buf)@.len() as int,
                )
                &&& final(self).data@ == old(self).data@
                &&& final(self).stream_offset == off + n
            }),
            old(self).wf() ==> final(self).wf(),
    {
        let len = self.data.len();
        let off = self.stream_offset;
        let n: usize = if off >= len {
            0
        } else if buf.len() <= len - off {
            buf.len()
        } else {
            len - off
        };
        let mut j: usize = 0;
        while j < n
            invariant
                0 <= j <= n,
                n == read_count(len as nat, off as nat, old(buf)@.len()),
                len == self.data@.len(),
                off == self.stream_offset,
                n > 0 ==> off + n <= len,
                buf@.len() == old(buf)@.len(),
                n <= buf@.len(),
                forall|k: int| 0 <= k < j ==> buf@[k] == self.data@[off + k],
                forall|k: int| j <= k < buf@.len() ==> buf@[k] == old(buf)@[k],
            decreases n - j,
        {
            buf[j] = self.data[off + j];
            j = j + 1;
        }
        assert(buf@ =~= bytes_at(self.data@, off as int, n as nat) + old(buf)@.subrange(
            n as int,
            old(buf)@.len() as int,
        ));
        self.stream_offset = off + n;
        Ok(n)
    }

    /// Copies all of `buf` at the cursor, growing the buffer first when it
    /// would not hold it, and moves the cursor past the copied bytes.
    pub fn write(&mut self, buf: &[u8]) -> (r: Result<usize, FoldyError>)
        requires
            fits_after_growth(
                old(self).data@.len(),
                old(self).stream_offset as nat + buf@.len(),
            ),
        ensures
            r == Ok::<usize, FoldyError>(buf@.len() as usize),
            final(self).data@ == written(old(self).data@, old(self).stream_offset as nat, buf@),
            final(self).stream_offset == old(self).stream_offset + buf@.len(),
            final(self).wf(),
    {
        let off = self.stream_offset;
        let end = off + buf.len();
        if end > self.data.len() {
            let _ = self.grow(end as u64);
        }
        let ghost grown = self.data@;
        assert(grown == ensure_len(old(self).data@, end as nat));
        let mut j: usize = 0;
        while j < buf.len()
            invariant
                0 <= j <= buf@.len(),
                end == off + buf@.len(),
                end <= grown.len(),
                self.data@.len() == grown.len(),
                forall|k: int| 0 <= k < off ==> self.data@[k] == grown[k],
                forall|k: int| off <= k < off + j ==> self.data@[k] == buf@[k - off],
                forall|k: int| off + j <= k < grown.len() ==> self.data@[k] == grown[k],
            decreases buf@.len() - j,
        {
            self.data.set(off + j, buf[j]);
            j = j + 1;
        }
        assert(self.data@ =~= grown.subrange(0, off as int) + buf@ + grown.subrange(
            end as int,
            grown.len() as int,
        ));
        self.stream_offset = end;
        Ok(buf.len())
    }

    /// The cursor.
    pub fn position(&self) -> (r: u64)
        ensures
            r == self.stream_offset,
    {
        self.stream_offset as u64
    }

    /// Moves the cursor to `pos`. A position past the end grows the buffer
    /// first, zero-filled, so that it holds `pos` bytes.
    pub fn seek(&mut self, pos: u64) -> (r: Result<u64, FoldyError>)
        requires
            fits_after_growth(old(self).data@.len(), pos as nat),
        ensures
            r == Ok::<u64, FoldyError>(pos),
            final(self).data@ == ensure_len(old(self).data@, pos as nat),
            final(self).stream_offset == pos,
            final(self).wf(),
    {
        if pos as usize > self.data.len() {
            let _ = self.grow(pos);
        }
        self.stream_offset = pos as usize;
        Ok(pos)
    }

    /// Moves the cursor relative to the start, the end or the cursor itself.
    /// A position before the start clamps to zero; one past the end grows the
    /// buffer as `seek` does.
    pub fn seek_from(&mut self, pos: SeekFrom) -> (r: Result<u64, FoldyError>)
        requires
            fits_after_growth(
                old(self).data@.len(),
                seek_target(old(self).data@.len(), old(self).stream_offset as nat, pos),
            ),
        ensures
            ({
                let t = seek_target(old(self).data@.len(), old(self).stream_offset as nat, pos);
                &&& r == Ok::<u64, FoldyError>(t as u64)
                &&& final(self).data@ == ensure_len(old(self).data@, t)
                &&& final(self).stream_offset == t
            }),
            final(self).wf(),
    {
        let base: i128 = match pos {
            SeekFrom::Start(o) => o as i128,
            SeekFrom::End(d) => self.data.len() as i128 + d as i128,
            SeekFrom::Current(d) => self.stream_offset as i128 + d as i128,
        };
        let target: u64 = if base < 0 {
            0
        } else {
            base as u64
        };
        self.seek(target)
    }

    /// Whether the buffer can be made to hold `need` bytes, by the growth
    /// policy, without its length overflowing `usize`.
    pub fn can_hold(&self, need: u64) -> (r: bool)
        ensures
            r == fits_after_growth(self.data@.len(), need as nat),
    {
        if need > usize::MAX as u64 {
            return false;
        }
        let len = self.data.len();
        if need as usize <= len {
            return true;
        }
        len <= usize::MAX / 2
    }

    /// Where a relative seek from the current state lands, or `None` when
    /// that position does not fit in a `u64`.
    pub fn seek_position(&self, pos: SeekFrom) -> (r: Option<u64>)
        ensures
            match r {
                Some(t) => t == seek_target(self.data@.len(), self.stream_offset as nat, pos),
                None => seek_target(self.data@.len(), self.stream_offset as nat, pos) > u64::MAX,
            },
    {
        let base: i128 = match pos {
            SeekFrom::Start(o) => o as i128,
            SeekFrom::End(d) => self.data.len() as i128 + d as i128,
            SeekFrom::Current(d) => self.stream_offset as i128 + d as i128,
        };
        if base < 0 {
            Some(0)
        } else if base > u64::MAX as i128 {
            None
        } else {
            Some(base as u64)
        }
    }

    /// Appends every byte from the cursor to the end of the data to `out`,
    /// moves the cursor to the end, and returns how many bytes were appended.
    pub fn read_to_end(&mut self, out: &mut Vec<u8>) -> (r: Result<usize, FoldyError>)
        ensures
            ({
                let off = old(self).stream_offset as int;
                let len = old(self).data@.len() as int;
                let n = if off < len {
                    len - off
                } else {
                    0
                };
                &&& r == Ok::<usize, FoldyError>(n as usize)
                &&& final(out)@ == old(out)@ + bytes_at(old(self).data@, off, n as nat)
                &&& final(self).data@ == old(self).data@
                &&& final(self).stream_offset == off + n
            }),
            old(self).wf() ==> final(self).wf(),
    {
        let len = self.data.len();
        let off = self.stream_offset;
        if off >= len {
            assert(out@ =~= old(out)@ + bytes_at(self.data@, off as int, 0));
            return Ok(0);
        }
        let mut j: usize = off;
        while j < len
            invariant
                off <= j <= len,
                len == self.data@.len(),
                off == self.stream_offset,
                out@ == old(out)@ + self.data@.subrange(off as int, j as int),
            decreases len - j,
        {
            out.push(self.data[j]);
            assert(self.data@.subrange(off as int, j + 1) =~= self.data@.subrange(
                off as int,
                j as int,
            ).push(self.data@[j as int]));
            j = j + 1;
        }
        self.stream_offset = len;
        Ok(len - off)
    }
}


impl File for MemoryFile {
    open spec fn content(&self) -> Seq<u8> {
        self.data@
    }

    open spec fn cursor(&self) -> nat {
        self.stream_offset as nat
    }

    open spec fn can_hold(&self, need: nat) -> bool {
        fits_after_growth(self.data@.len(), need)
    }

    fn read(&mut self, buf: &mut [u8]) -> (r: Result<usize, FoldyError>) {
        MemoryFile::read(self, buf)
    }

    fn write(&mut self, buf: &[u8]) -> (r: Result<usize, FoldyError>) {
        let ghost d = self.data@;
        let ghost off = self.stream_offset as int;
        let r = MemoryFile::write(self, buf);
        let ghost g = ensure_len(d, (off + buf@.len()) as nat);
        assert(self.data@.subrange(off, off + buf@.len()) =~= buf@);
        assert forall|i: int|
            0 <= i < d.len() && !(off <= i < off + buf@.len()) implies #[trigger] self.data@[i]
            == d[i] by {
            assert(g[i] == d[i]);
        }
        r
    }

    fn seek(&mut self, pos: u64) -> (r: Result<u64, FoldyError>) {
        let ghost d = self.data@;
        let r = MemoryFile::seek(self, pos);
        assert(self.data@.subrange(0, d.len() as int) =~= d);
        r
    }

    fn position(&self) -> (r: u64) {
        MemoryFile::position(self)
    }
}

} // verus!
