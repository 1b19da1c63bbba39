use crate::config::Config;
use crate::endian::{
    be_u32_bytes, be_u32_value, be_u64_bytes, be_u64_value, u32_from_be, u32_to_be, u64_from_be,
    u64_to_be,
};
use crate::error::ErrorKind;
use vstd::prelude::*;

verus! {

/// Width of an entry's relative-offset field.
pub const OFFWIDTH: u64 = 4;

/// Width of an entry's byte-position field.
pub const POSWIDTH: u64 = 8;

/// Width of one whole index entry.
pub const ENTWIDTH: u64 = 12;

/// The relative offset the `i`-th entry of the byte image `m` holds.
pub open spec fn entry_off(m: Seq<u8>, i: int) -> u32 {
    be_u32_value(m.subrange(12 * i, 12 * i + 4))
}

/// The byte position the `i`-th entry of the byte image `m` holds.
pub open spec fn entry_pos(m: Seq<u8>, i: int) -> u64 {
    be_u64_value(m.subrange(12 * i + 4, 12 * i + 12))
}

/// `s` brought to length `n`: truncated, or padded with zero bytes.
pub open spec fn resized(s: Seq<u8>, n: int) -> Seq<u8>
    recommends
        n >= 0,
{
    if n <= s.len() {
        s.take(n)
    } else {
        s + Seq::new((n - s.len()) as nat, |i: int| 0u8)
    }
}

/// A memory-mapped file of fixed-width `(relative_offset, position)`
/// entries, held as the byte image of the mapping. The file is grown
/// to `max_index_bytes` on open; `size` counts the bytes in use, and
/// entries are written strictly from `size` upward.
#[derive(Debug)]
pub struct Index {
    mmap: Vec<u8>,
    size: u64,
    path: String,
}

impl Index {
    /// The byte image of the mapping.
    pub closed spec fn mem(self) -> Seq<u8> {
        self.mmap@
    }

    /// The bytes in use.
    pub closed spec fn used(self) -> u64 {
        self.size
    }

    /// The path the index was opened under.
    pub closed spec fn path_spec(self) -> Seq<char> {
        self.path@
    }

    /// The used count stays addressable.
    pub closed spec fn wf(self) -> bool {
        self.size <= usize::MAX
    }

    /// What `read` returns on this index for a given query: the last
    /// entry for -1, otherwise the entry the query truncates to;
    /// `end-of-data` when the index is empty or the entry lies past
    /// the used range or the mapping.
    pub open spec fn read_spec(self, inp: i64) -> Result<(u32, u64), ErrorKind> {
        if self.used() == 0 {
            Err(ErrorKind::EndOfData)
        } else if inp == -1 && self.used() < 12 {
            Err(ErrorKind::EndOfData)
        } else {
            let ent: u32 = if inp == -1 {
                (self.used() / 12 - 1) as u32
            } else {
                inp as u32
            };
            if self.used() < 12 * (ent as int) + 12 || self.mem().len() < 12 * (ent as int) + 12 {
                Err(ErrorKind::EndOfData)
            } else {
                Ok((entry_off(self.mem(), ent as int), entry_pos(self.mem(), ent as int)))
            }
        }
    }

    /// Takes over an index file image under its path: the image's
    /// current length becomes the used count, and the image is grown
    /// (or cut) to `max_index_bytes`, as mapping it would. Fails with
    /// `io-error` when that many bytes cannot be addressed.
    pub fn new(data: Vec<u8>, c: Config, path: String) -> (r: Result<Index, ErrorKind>)
        ensures
            match r {
                Ok(ix) => {
                    &&& ix.wf()
                    &&& c.max_index_bytes <= usize::MAX
                    &&& ix.used() == data@.len()
                    &&& ix.mem() == resized(data@, c.max_index_bytes as int)
                    &&& ix.path_spec() == path@
                },
                Err(e) => e == ErrorKind::IoError && c.max_index_bytes > usize::MAX,
            },
    {
        if c.max_index_bytes > usize::MAX as u64 {
            return Err(ErrorKind::IoError);
        }
        let size = data.len() as u64;
        let target = c.max_index_bytes as usize;
        let mut mmap = data;
        if target <= mmap.len() {
            mmap.truncate(target);
            proof {
                assert(mmap@ =~= resized(data@, c.max_index_bytes as int));
            }
        } else {
            while mmap.len() < target
                invariant
                    data@.len() < target ==> {
                        &&& data@.len() <= mmap@.len() <= target
                        &&& mmap@ == resized(data@, mmap@.len() as int)
                    },
                    data@.len() >= target ==> mmap@ == data@,
                decreases target - mmap@.len(),
            {
                mmap.push(0u8);
                proof {
                    assert(mmap@ =~= resized(data@, mmap@.len() as int));
                }
            }
        }
        Ok(Index { mmap, size, path })
    }

    /// Writes the next entry at the used boundary. Fails with
    /// `end-of-data` when the mapping has no room for another entry.
    pub fn write(&mut self, offset: u32, pos: u64) -> (r: Result<(), ErrorKind>)
        requires
            old(self).wf(),
        ensures
            final(self).wf(),
            final(self).path_spec() == old(self).path_spec(),
            match r {
                Ok(()) => {
                    &&& old(self).mem().len() >= old(self).used() + 12
                    &&& final(self).used() == old(self).used() + 12
                    &&& final(self).mem().len() == old(self).mem().len()
                    &&& final(self).mem().subrange(
                        old(self).used() as int,
                        old(self).used() + 4,
                    ) == be_u32_bytes(offset)
                    &&& final(self).mem().subrange(
                        old(self).used() + 4,
                        old(self).used() + 12,
                    ) == be_u64_bytes(pos)
                    &&& forall|i: int|
                        0 <= i < old(self).mem().len() && !(old(self).used() <= i < old(
                            self,
                        ).used() + 12) ==> final(self).mem()[i] == old(self).mem()[i]
                },
                Err(e) => {
                    &&& e == ErrorKind::EndOfData
                    &&& old(self).mem().len() < old(self).used() + 12
                    &&& *final(self) == *old(self)
                },
            },
    {
        let m_len = self.mmap.len() as u64;
        if m_len < ENTWIDTH || m_len - ENTWIDTH < self.size {
            return Err(ErrorKind::EndOfData);
        }
        let at = self.size as usize;
        let off_bytes = u32_to_be(offset);
        let pos_bytes = u64_to_be(pos);
        put_bytes(&mut self.mmap, at, &off_bytes);
        put_bytes(&mut self.mmap, at + 4, &pos_bytes);
        self.size = self.size + ENTWIDTH;
        proof {
            assert(self.mmap@.subrange(at as int, at + 4) =~= be_u32_bytes(offset));
            assert(self.mmap@.subrange(at + 4, at + 12) =~= be_u64_bytes(pos));
        }
        Ok(())
    }

    /// Reads an entry: the last one for -1, otherwise the queried one.
    pub fn read(&self, inp: i64) -> (r: Result<(u32, u64), ErrorKind>)
        requires
            self.wf(),
        ensures
            r == self.read_spec(inp),
    {
        if self.size == 0 {
            return Err(ErrorKind::EndOfData);
        }
        let ent: u32 = if inp == -1 {
            if self.size < ENTWIDTH {
                return Err(ErrorKind::EndOfData);
            }
            #[verifier::truncate]
            ((self.size / ENTWIDTH - 1) as u32)
        } else {
            #[verifier::truncate]
            (inp as u32)
        };
        let pos = (ent as u64) * ENTWIDTH;
        if self.size < pos + ENTWIDTH || (self.mmap.len() as u64) < pos + ENTWIDTH {
            return Err(ErrorKind::EndOfData);
        }
        let p = pos as usize;
        let off = u32_from_be(&self.mmap, p);
        let position = u64_from_be(&self.mmap, p + 4);
        Ok((off, position))
    }

    /// Releases the index, handing back the byte image to persist:
    /// the mapping cut to the bytes in use, so the file holds only
    /// real entries.
    pub fn close(self) -> (r: Vec<u8>)
        requires
            self.wf(),
        ensures
            r@ == resized(self.mem(), self.used() as int),
            r@.len() == self.used(),
    {
        let target = self.size as usize;
        let mut m = self.mmap;
        if target <= m.len() {
            m.truncate(target);
            proof {
                assert(m@ =~= resized(self.mem(), self.used() as int));
            }
        } else {
            while m.len() < target
                invariant
                    self.mmap@.len() < target,
                    self.mmap@.len() <= m@.len() <= target,
                    m@ == resized(self.mmap@, m@.len() as int),
                decreases target - m@.len(),
            {
                m.push(0u8);
                proof {
                    assert(m@ =~= resized(self.mmap@, m@.len() as int));
                }
            }
        }
        m
    }

    /// The path the index was opened under.
    pub fn get_path(&self) -> (r: String)
        ensures
            r@ == self.path_spec(),
    {
        self.path.clone()
    }

    /// The bytes in use.
    pub fn size(&self) -> (r: u64)
        ensures
            r == self.used(),
    {
        self.size
    }
}

/// Overwrites `v` at `at` with the bytes of `src`, leaving the rest.
fn put_bytes(v: &mut Vec<u8>, at: usize, src: &Vec<u8>) -> (r: ())
    requires
        at + src@.len() <= old(v)@.len(),
    ensures
        final(v)@.len() == old(v)@.len(),
        final(v)@.subrange(at as int, at + src@.len()) == src@,
        forall|i: int|
            0 <= i < old(v)@.len() && !(at <= i < at + src@.len()) ==> final(v)@[i] == old(v)@[i],
{
    let _bound: usize = v.len();
    let mut j: usize = 0;
    while j < src.len()
        invariant
            j <= src@.len(),
            at + src@.len() <= v@.len(),
            old(v)@.len() <= usize::MAX,
            v@.len() == old(v)@.len(),
            forall|i: int| at <= i < at + j ==> v@[i] == src@[i - at],
            forall|i: int|
                0 <= i < old(v)@.len() && !(at <= i < at + j) ==> v@[i] == old(v)@[i],
        decreases src@.len() - j,
    {
        v[at + j] = src[j];
        j = j + 1;
    }
    proof {
        assert(v@.subrange(at as int, at + src@.len()) =~= src@);
    }
}

/// Any whole entry below the used range reads back as itself: with
/// entries written in order, a read of slot `i` returns the pair the
/// `i`-th write stored there, however many writes followed it.
pub proof fn lemma_index_read_entry(ix: Index, i: int)
    requires
        0 <= i < 0x1_0000_0000,
        12 * i + 12 <= ix.used(),
        12 * i + 12 <= ix.mem().len(),
    ensures
        ix.read_spec(i as i64) == Ok::<(u32, u64), ErrorKind>(
            (entry_off(ix.mem(), i), entry_pos(ix.mem(), i)),
        ),
{
    assert((i as i64) as u32 == i as u32);
}

/// Writing an entry and reading it back returns the same pair: the
/// index round-trips, both by the entry's slot and by -1 for the last
/// written entry.
pub proof fn lemma_index_round_trip(pre: Index, post: Index, offset: u32, pos: u64)
    requires
        pre.used() % 12 == 0,
        pre.used() + 12 <= 12 * 0xffff_ffffu64,
        pre.used() + 12 <= pre.mem().len(),
        post.used() == pre.used() + 12,
        post.mem().len() == pre.mem().len(),
        post.mem().subrange(pre.used() as int, pre.used() + 4) == be_u32_bytes(offset),
        post.mem().subrange(pre.used() + 4, pre.used() + 12) == be_u64_bytes(pos),
    ensures
        post.read_spec((pre.used() / 12) as i64) == Ok::<(u32, u64), ErrorKind>((offset, pos)),
        post.read_spec(-1i64) == Ok::<(u32, u64), ErrorKind>((offset, pos)),
{
    let slot = pre.used() / 12;
    crate::endian::lemma_be_u32_round_trip(offset);
    crate::endian::lemma_be_u64_round_trip(pos);
    assert(12 * (slot as int) == pre.used());
    assert(entry_off(post.mem(), slot as int) == offset);
    assert(entry_pos(post.mem(), slot as int) == pos);
    assert((slot as i64) as u32 == slot);
    assert(post.used() / 12 - 1 == slot);
}

} // verus!
