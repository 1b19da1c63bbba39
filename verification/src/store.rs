use crate::endian::{be_u64_bytes, be_u64_value, u64_from_be, u64_to_be};
use crate::error::ErrorKind;
use vstd::prelude::*;

verus! {

/// Width of the length prefix that frames each record.
pub const LEN_WIDTH: u64 = 8;

/// A frame sits at `pos` in `data` when an 8-byte length prefix and
/// that many payload bytes fit there.
pub open spec fn frame_ok(data: Seq<u8>, pos: int) -> bool {
    &&& 0 <= pos
    &&& pos + 8 <= data.len()
    &&& pos + 8 + frame_len(data, pos) <= data.len()
}

/// The payload length a frame at `pos` declares.
pub open spec fn frame_len(data: Seq<u8>, pos: int) -> u64 {
    be_u64_value(data.subrange(pos, pos + 8))
}

/// The payload bytes of the frame at `pos`.
pub open spec fn frame_payload(data: Seq<u8>, pos: int) -> Seq<u8> {
    data.subrange(pos + 8, pos + 8 + frame_len(data, pos))
}

/// An append-only file of length-prefixed frames, held as the byte
/// image of that file: each frame is an 8-byte big-endian payload
/// length followed by the payload. Also carries the cursor of the
/// sequential streaming read.
#[derive(Debug)]
pub struct Store {
    data: Vec<u8>,
    size: u64,
    offset: usize,
}

impl Store {
    /// The byte image of the store file.
    pub closed spec fn bytes(self) -> Seq<u8> {
        self.data@
    }

    /// The streaming-read cursor.
    pub closed spec fn cursor(self) -> int {
        self.offset as int
    }

    /// The logical size mirrors the byte image.
    pub closed spec fn wf(self) -> bool {
        self.size == self.data@.len()
    }

    /// Takes over a file image; its current length becomes the size,
    /// and the streaming cursor starts at 0.
    pub fn new(data: Vec<u8>) -> (s: Store)
        ensures
            s.wf(),
            s.bytes() == data@,
            s.cursor() == 0,
    {
        let size = data.len() as u64;
        Store { data, size, offset: 0 }
    }

    /// A fresh store over a copy of the same file image, with the
    /// cursor back at 0.
    pub fn try_clone(&self) -> (r: Result<Store, ErrorKind>)
        requires
            self.wf(),
        ensures
            match r {
                Ok(s) => s.wf() && s.bytes() == self.bytes() && s.cursor() == 0,
                Err(_) => false,
            },
    {
        let mut data: Vec<u8> = Vec::new();
        let mut i: usize = 0;
        while i < self.data.len()
            invariant
                i <= self.data@.len(),
                data@ == self.data@.subrange(0, i as int),
            decreases self.data@.len() - i,
        {
            data.push(self.data[i]);
            i = i + 1;
            proof {
                assert(self.data@.subrange(0, i as int) =~= self.data@.subrange(0, i - 1).push(
                    self.data@[i - 1],
                ));
            }
        }
        proof {
            assert(data@ =~= self.data@);
        }
        Ok(Store::new(data))
    }

    /// Appends one frame holding `p` and returns the frame's total
    /// width and the byte position it starts at. Fails with `io-error`
    /// only when the grown image would not be addressable.
    pub fn append(&mut self, p: &[u8]) -> (r: Result<(u64, u64), ErrorKind>)
        requires
            old(self).wf(),
        ensures
            final(self).wf(),
            final(self).cursor() == old(self).cursor(),
            match r {
                Ok((w, pos)) => {
                    &&& old(self).bytes().len() + 8 + p@.len() <= usize::MAX
                    &&& w == 8 + p@.len()
                    &&& pos == old(self).bytes().len()
                    &&& final(self).bytes() == old(self).bytes() + be_u64_bytes(p@.len() as u64)
                        + p@
                },
                Err(e) => {
                    &&& e == ErrorKind::IoError
                    &&& old(self).bytes().len() + 8 + p@.len() > usize::MAX
                    &&& *final(self) == *old(self)
                },
            },
    {
        if p.len() > usize::MAX - 8 || self.data.len() > usize::MAX - 8 - p.len() {
            return Err(ErrorKind::IoError);
        }
        let pos = self.size;
        let len = p.len() as u64;
        let mut prefix = u64_to_be(len);
        self.data.append(&mut prefix);
        let mut i: usize = 0;
        while i < p.len()
            invariant
                i <= p@.len(),
                self.data@ == old(self).data@ + be_u64_bytes(p@.len() as u64) + p@.subrange(
                    0,
                    i as int,
                ),
                self.size == old(self).size,
                self.offset == old(self).offset,
            decreases p@.len() - i,
        {
            self.data.push(p[i]);
            i = i + 1;
            proof {
                assert(old(self).data@ + be_u64_bytes(p@.len() as u64) + p@.subrange(0, i as int)
                    =~= (old(self).data@ + be_u64_bytes(p@.len() as u64) + p@.subrange(
                    0,
                    i - 1,
                )).push(p@[i - 1]));
            }
        }
        proof {
            assert(old(self).data@ + be_u64_bytes(p@.len() as u64) + p@.subrange(
                0,
                p@.len() as int,
            ) =~= old(self).data@ + be_u64_bytes(p@.len() as u64) + p@);
        }
        self.size = self.data.len() as u64;
        Ok((len + LEN_WIDTH, pos))
    }

    /// Reads the frame whose length prefix starts at byte `pos` and
    /// returns its payload. Fails with `end-of-data` when no whole
    /// frame sits there.
    pub fn read_at_offset(&self, pos: u64) -> (r: Result<Vec<u8>, ErrorKind>)
        requires
            self.wf(),
        ensures
            match r {
                Ok(v) => frame_ok(self.bytes(), pos as int) && v@ == frame_payload(
                    self.bytes(),
                    pos as int,
                ),
                Err(e) => e == ErrorKind::EndOfData && !frame_ok(self.bytes(), pos as int),
            },
    {
        let _bound: usize = self.data.len();
        if pos > self.size || self.size - pos < LEN_WIDTH {
            return Err(ErrorKind::EndOfData);
        }
        let len = u64_from_be(&self.data, pos as usize);
        if len > self.size - pos - LEN_WIDTH {
            return Err(ErrorKind::EndOfData);
        }
        let start = pos as usize + 8;
        let end = start + len as usize;
        let mut v: Vec<u8> = Vec::new();
        let mut i: usize = start;
        while i < end
            invariant
                start <= i <= end,
                end <= self.data@.len(),
                v@ == self.data@.subrange(start as int, i as int),
            decreases end - i,
        {
            v.push(self.data[i]);
            i = i + 1;
            proof {
                assert(self.data@.subrange(start as int, i as int) =~= self.data@.subrange(
                    start as int,
                    i - 1,
                ).push(self.data@[i - 1]));
            }
        }
        proof {
            assert(v@ =~= frame_payload(self.bytes(), pos as int));
        }
        Ok(v)
    }

    /// Positional read: the bytes of the image from `pos`, at most
    /// `len` of them, and none past the end.
    pub fn read_at(&self, len: usize, pos: u64) -> (r: Vec<u8>)
        requires
            self.wf(),
        ensures
            r@ == self.bytes().subrange(
                if pos <= self.bytes().len() {
                    pos as int
                } else {
                    self.bytes().len() as int
                },
                if pos + len <= self.bytes().len() {
                    pos + len
                } else {
                    self.bytes().len() as int
                },
            ),
    {
        let start: usize = if pos >= self.size {
            self.data.len()
        } else {
            pos as usize
        };
        let end: usize = if len >= self.data.len() - start {
            self.data.len()
        } else {
            start + len
        };
        let mut v: Vec<u8> = Vec::new();
        let mut i: usize = start;
        while i < end
            invariant
                start <= i <= end,
                end <= self.data@.len(),
                v@ == self.data@.subrange(start as int, i as int),
            decreases end - i,
        {
            v.push(self.data[i]);
            i = i + 1;
            proof {
                assert(self.data@.subrange(start as int, i as int) =~= self.data@.subrange(
                    start as int,
                    i - 1,
                ).push(self.data@[i - 1]));
            }
        }
        v
    }

    /// Streaming read: returns nothing once the cursor has reached the
    /// size; otherwise returns up to `n` bytes from the cursor and
    /// advances it by the bytes read.
    pub fn read(&mut self, n: usize) -> (r: Vec<u8>)
        requires
            old(self).wf(),
        ensures
            final(self).wf(),
            final(self).bytes() == old(self).bytes(),
            if old(self).cursor() >= old(self).bytes().len() {
                r@.len() == 0 && final(self).cursor() == old(self).cursor()
            } else {
                r@ == old(self).bytes().subrange(
                    old(self).cursor(),
                    if old(self).cursor() + n <= old(self).bytes().len() {
                        old(self).cursor() + n
                    } else {
                        old(self).bytes().len() as int
                    },
                ) && final(self).cursor() == old(self).cursor() + r@.len()
            },
    {
        let _bound: usize = self.data.len();
        if self.offset as u64 >= self.size {
            return Vec::new();
        }
        let r = self.read_at(n, self.offset as u64);
        self.offset = self.offset + r.len();
        r
    }

    /// Releases the store, handing back the byte image to persist; it
    /// keeps its natural length.
    pub fn close(self) -> (r: Vec<u8>)
        ensures
            r@ == self.bytes(),
    {
        self.data
    }

    /// The streaming-read cursor's byte position.
    pub fn position(&self) -> (r: usize)
        ensures
            r == self.cursor(),
    {
        self.offset
    }

    /// The logical size in bytes.
    pub fn size(&self) -> (r: u64)
        requires
            self.wf(),
        ensures
            r == self.bytes().len(),
    {
        self.size
    }
}

} // verus!
