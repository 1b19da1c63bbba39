use crate::config::{valid_config, Config};
use crate::endian::{be_u32_bytes, be_u64_bytes, lemma_be_u32_round_trip,
    lemma_be_u64_round_trip};
use crate::error::ErrorKind;
use crate::index::{entry_off, entry_pos, resized, Index};
use crate::record::{decode_record, encode_record, record_bytes, Record};
use crate::store::{frame_ok, frame_payload, Store};
use vstd::prelude::*;

verus! {

/// Entry `i` of an index image `m` is sound against a store image
/// `st` for a segment based at `base`: it names `i` itself as the
/// relative offset, it points at a whole frame, and that frame's
/// payload opens with the record's absolute offset `base + i`.
pub open spec fn entry_wf(st: Seq<u8>, m: Seq<u8>, base: u64, i: int) -> bool {
    &&& entry_off(m, i) == i as u32
    &&& frame_ok(st, entry_pos(m, i) as int)
    &&& frame_payload(st, entry_pos(m, i) as int).len() >= 8
    &&& frame_payload(st, entry_pos(m, i) as int).take(8) == be_u64_bytes((base + i) as u64)
}

/// A store image and an index file image form a well-recovered pair
/// for a segment based at `base` under configuration `c`: the index
/// holds whole entries, each sound against the store, and the counts
/// stay in the engine's ranges. A segment closed by this engine
/// persists exactly such a pair.
pub open spec fn valid_files(st: Seq<u8>, ixd: Seq<u8>, base: u64, c: Config) -> bool {
    let n = ixd.len() as int / 12;
    &&& valid_config(c)
    &&& ixd.len() % 12 == 0
    &&& ixd.len() <= c.max_index_bytes
    &&& n < 0x1_0000_0000
    &&& base + n <= u64::MAX
    &&& forall|i: int| 0 <= i < n ==> #[trigger] entry_wf(st, ixd, base, i)
}

/// The relative offset of the last whole entry the index holds, if
/// any: what recovery reads to derive the next offset.
pub open spec fn last_entry_off(used: u64, m: Seq<u8>) -> Option<u32> {
    if used < 12 {
        None
    } else {
        let ent = (used / 12 - 1) as u32;
        if used < 12 * (ent as int) + 12 || m.len() < 12 * (ent as int) + 12 {
            None
        } else {
            Some(entry_off(m, ent as int))
        }
    }
}

/// One store and one index, bound to the range of absolute offsets
/// `[base_offset, next_offset)`. The pair is `None` after close.
#[derive(Debug)]
pub struct Segment {
    pub store: Option<Store>,
    pub index: Option<Index>,
    pub base_offset: u64,
    pub next_offset: u64,
    pub config: Config,
}

impl Segment {
    /// Whether the segment still holds its store and index.
    pub open spec fn is_open(self) -> bool {
        self.store is Some && self.index is Some
    }

    /// The byte image of the store file.
    pub open spec fn store_bytes(self) -> Seq<u8> {
        self.store.unwrap().bytes()
    }

    /// The streaming cursor of the store.
    pub open spec fn cursor(self) -> int {
        self.store.unwrap().cursor()
    }

    /// The byte image of the index mapping.
    pub open spec fn index_mem(self) -> Seq<u8> {
        self.index.unwrap().mem()
    }

    /// The index bytes in use.
    pub open spec fn index_used(self) -> u64 {
        self.index.unwrap().used()
    }

    /// The configuration the segment enforces.
    pub open spec fn cfg(self) -> Config {
        self.config
    }

    /// How many records the segment holds.
    pub open spec fn n_records(self) -> int {
        self.next_offset - self.base_offset
    }

    /// The value of the segment's `i`-th record, read back through
    /// its index entry and store frame.
    pub closed spec fn record_value(self, i: int) -> Seq<u8> {
        frame_payload(
            self.store.unwrap().bytes(),
            entry_pos(self.index.unwrap().mem(), i) as int,
        ).skip(8)
    }

    /// Well-formedness: the offset range fits a u32 of records, and,
    /// while open, the index is in step with the range and every
    /// entry is sound against the store.
    pub open spec fn wf(self) -> bool {
        &&& valid_config(self.config)
        &&& self.base_offset <= self.next_offset
        &&& self.next_offset - self.base_offset < 0x1_0000_0000
        &&& (self.store is Some <==> self.index is Some)
        &&& (self.is_open() ==> {
            let st = self.store.unwrap();
            let ix = self.index.unwrap();
            let n = self.next_offset - self.base_offset;
            &&& st.wf()
            &&& ix.wf()
            &&& ix.used() == 12 * n
            &&& ix.used() <= ix.mem().len()
            &&& ix.mem().len() == self.config.max_index_bytes
            &&& forall|i: int|
                0 <= i < n ==> #[trigger] entry_wf(st.bytes(), ix.mem(), self.base_offset, i)
        })
    }

    /// Whether either size limit has been reached.
    pub open spec fn maxed_spec(self) -> bool {
        self.is_open() && (self.store.unwrap().bytes().len() >= self.config.max_store_bytes
            || self.index.unwrap().used() >= self.config.max_index_bytes)
    }

    /// Opens a segment over the two file images named by its base
    /// offset. The next offset is recovered from the index's last
    /// entry: one past the last relative offset, or the base of an
    /// empty index. Fails with `io-error` when the index cannot be
    /// pre-sized, and with `corrupt-log` when the recovered offset
    /// would not fit.
    pub fn new(store_data: Vec<u8>, index_data: Vec<u8>, base_offset: u64, c: Config) -> (r:
        Result<Segment, ErrorKind>)
        ensures
            match r {
                Ok(seg) => {
                    &&& c.max_index_bytes <= usize::MAX
                    &&& seg.base_offset == base_offset
                    &&& seg.cfg() == c
                    &&& seg.is_open()
                    &&& seg.cursor() == 0
                    &&& seg.store_bytes() == store_data@
                    &&& seg.index_mem() == resized(index_data@, c.max_index_bytes as int)
                    &&& seg.index_used() == index_data@.len()
                    &&& match last_entry_off(seg.index_used(), seg.index_mem()) {
                        Some(off) => seg.next_offset == base_offset + off + 1,
                        None => seg.next_offset == base_offset,
                    }
                    &&& valid_files(store_data@, index_data@, base_offset, c) ==> {
                        &&& seg.wf()
                        &&& seg.n_records() == index_data@.len() as int / 12
                        &&& forall|i: int|
                            0 <= i < index_data@.len() as int / 12
                                ==> #[trigger] seg.record_value(i) == frame_payload(
                                store_data@,
                                entry_pos(index_data@, i) as int,
                            ).skip(8)
                    }
                },
                Err(e) => (e == ErrorKind::IoError && c.max_index_bytes > usize::MAX) || (e
                    == ErrorKind::CorruptLog && c.max_index_bytes <= usize::MAX && match
                    last_entry_off(
                    index_data@.len() as u64,
                    resized(index_data@, c.max_index_bytes as int),
                ) {
                    Some(off) => base_offset + off + 1 > u64::MAX,
                    None => false,
                }),
            },
            valid_files(store_data@, index_data@, base_offset, c) ==> r is Ok,
    {
        let ghost sd = store_data@;
        let ghost ixd = index_data@;
        let store = Store::new(store_data);
        let index = match Index::new(index_data, c, String::new()) {
            Ok(ix) => ix,
            Err(e) => {
                proof {
                    if valid_files(sd, ixd, base_offset, c) {
                        assert(c.max_index_bytes <= usize::MAX);
                    }
                }
                return Err(e);
            },
        };
        let next_offset: u64 = match index.read(-1) {
            Ok((off, _pos)) => {
                if base_offset > u64::MAX - 1 || (off as u64) > u64::MAX - 1 - base_offset {
                    proof {
                        if valid_files(sd, ixd, base_offset, c) {
                            let n = ixd.len() as int / 12;
                            lemma_entries_in_resized(sd, ixd, base_offset, c);
                            assert(entry_wf(sd, index.mem(), base_offset, n - 1));
                            assert(off == (n - 1) as u32);
                        }
                    }
                    return Err(ErrorKind::CorruptLog);
                }
                base_offset + off as u64 + 1
            },
            Err(_) => base_offset,
        };
        let seg = Segment {
            store: Some(store),
            index: Some(index),
            base_offset,
            next_offset,
            config: c,
        };
        proof {
            if valid_files(sd, ixd, base_offset, c) {
                let n = ixd.len() as int / 12;
                lemma_entries_in_resized(sd, ixd, base_offset, c);
                if n > 0 {
                    assert(entry_wf(sd, seg.index_mem(), base_offset, n - 1));
                    assert(last_entry_off(ixd.len() as u64, seg.index_mem()) == Some(
                        (n - 1) as u32,
                    ));
                    assert(seg.next_offset == base_offset + n);
                } else {
                    assert(seg.next_offset == base_offset);
                }
                assert forall|i: int| 0 <= i < n implies #[trigger] entry_wf(
                    seg.store_bytes(),
                    seg.index_mem(),
                    base_offset,
                    i,
                ) by {
                    assert(entry_wf(sd, seg.index_mem(), base_offset, i));
                }
            }
        }
        Ok(seg)
    }

    /// Appends a record: its offset becomes the segment's next
    /// offset, its encoding is framed into the store, and the entry
    /// `(relative offset, frame position)` is written to the index.
    /// Returns the assigned offset, or `None` after close. Fails with
    /// `end-of-data` when the index has no room — the store then
    /// keeps an orphan frame that no entry names — and with
    /// `io-error` when the grown store would not be addressable.
    pub fn append(&mut self, record: Record) -> (r: Result<Option<u64>, ErrorKind>)
        requires
            old(self).wf(),
            old(self).next_offset < u64::MAX,
        ensures
            final(self).wf(),
            final(self).base_offset == old(self).base_offset,
            final(self).cfg() == old(self).cfg(),
            final(self).is_open() == old(self).is_open(),
            match r {
                Ok(opt) => match opt {
                    Some(off) => {
                        &&& old(self).is_open()
                        &&& off == old(self).next_offset
                        &&& final(self).next_offset == old(self).next_offset + 1
                        &&& final(self).n_records() == old(self).n_records() + 1
                        &&& forall|i: int|
                            0 <= i < old(self).n_records() ==> #[trigger] final(self).record_value(i) == old(self).record_value(i)
                        &&& final(self).record_value(old(self).n_records()) == record.value@
                        &&& final(self).store_bytes() == old(self).store_bytes() + be_u64_bytes(
                            (record.value@.len() + 8) as u64,
                        ) + record_bytes(off, record.value@)
                        &&& final(self).index_used() == old(self).index_used() + 12
                        &&& final(self).index_mem().len() == old(self).index_mem().len()
                        &&& final(self).cursor() == old(self).cursor()
                    },
                    None => !old(self).is_open() && *final(self) == *old(self),
                },
                Err(e) => {
                    &&& old(self).is_open()
                    &&& final(self).next_offset == old(self).next_offset
                    &&& if e == ErrorKind::EndOfData {
                        &&& old(self).index_mem().len() < old(self).index_used() + 12
                        &&& final(self).index_mem() == old(self).index_mem()
                        &&& final(self).index_used() == old(self).index_used()
                        &&& final(self).store_bytes() == old(self).store_bytes() + be_u64_bytes(
                            (record.value@.len() + 8) as u64,
                        ) + record_bytes(old(self).next_offset, record.value@)
                        &&& forall|i: int|
                            0 <= i < old(self).n_records() ==> #[trigger] final(self).record_value(i) == old(self).record_value(i)
                    } else {
                        &&& e == ErrorKind::IoError
                        &&& (record.value@.len() + 8 > usize::MAX || old(self).store_bytes().len()
                            + 16 + record.value@.len() > usize::MAX)
                        &&& *final(self) == *old(self)
                    }
                },
            },
    {
        let cur = self.next_offset;
        let st_opt = self.store.take();
        let ix_opt = self.index.take();
        let (mut st, mut ix) = match (st_opt, ix_opt) {
            (Some(st), Some(ix)) => (st, ix),
            (st_back, ix_back) => {
                self.store = st_back;
                self.index = ix_back;
                return Ok(None);
            },
        };
        if record.value.len() > usize::MAX - 8 {
            self.store = Some(st);
            self.index = Some(ix);
            return Err(ErrorKind::IoError);
        }
        let rel: u32 = (self.next_offset - self.base_offset) as u32;
        let stamped = Record { value: record.value, offset: cur };
        let buf = encode_record(&stamped);
        let ghost old_store = st.bytes();
        let ghost old_mem = ix.mem();
        let ghost old_used = ix.used();
        let pos: u64 = match st.append(buf.as_slice()) {
            Ok((_w, pos)) => pos,
            Err(e) => {
                self.store = Some(st);
                self.index = Some(ix);
                return Err(e);
            },
        };
        proof {
            lemma_frames_keep(old(self).store_bytes(), st.bytes(), old(self).index_mem(),
                old(self).base_offset, old(self).n_records());
        }
        match ix.write(rel, pos) {
            Ok(()) => {},
            Err(e) => {
                self.store = Some(st);
                self.index = Some(ix);
                return Err(e);
            },
        };
        self.next_offset = cur + 1;
        self.store = Some(st);
        self.index = Some(ix);
        proof {
            let n = old(self).n_records();
            let stb = st.bytes();
            let m = ix.mem();
            lemma_entries_keep(stb, old_mem, m, old_used as int, self.base_offset, n);
            lemma_be_u32_round_trip(rel);
            assert(m.subrange(12 * n, 12 * n + 4) == be_u32_bytes(rel));
            assert(m.subrange(12 * n + 4, 12 * n + 12) == be_u64_bytes(pos));
            assert(entry_off(m, n) == rel);
            lemma_be_u64_round_trip(pos);
            assert(entry_pos(m, n) == pos);
            assert(pos == old_store.len());
            assert(stb.subrange(pos as int, pos + 8) =~= be_u64_bytes(buf@.len() as u64));
            lemma_be_u64_round_trip(buf@.len() as u64);
            assert(crate::store::frame_len(stb, pos as int) == buf@.len());
            assert(frame_ok(stb, pos as int));
            assert(frame_payload(stb, pos as int) =~= buf@);
            assert(buf@.take(8) =~= be_u64_bytes(cur));
            assert(buf@.skip(8) =~= record.value@);
            assert(entry_wf(stb, m, self.base_offset, n));
            assert forall|i: int| 0 <= i < n + 1 implies #[trigger] entry_wf(
                stb,
                m,
                self.base_offset,
                i,
            ) by {
                if i < n {
                    assert(entry_wf(old(self).store_bytes(), old_mem, self.base_offset, i));
                }
            }
            assert(self.wf());
            assert forall|i: int| 0 <= i < n implies #[trigger] self.record_value(i) == old(self).record_value(i) by {
                assert(entry_wf(old(self).store_bytes(), old_mem, self.base_offset, i));
                assert(entry_wf(stb, m, self.base_offset, i));
            }
            assert(self.record_value(n) == record.value@);
        }
        Ok(Some(cur))
    }

    /// Reads the record at an absolute offset within the segment's
    /// range: the index names the frame position, the store returns
    /// the frame, and the payload decodes to the record. Returns
    /// `None` after close; fails with `end-of-data` outside the
    /// range.
    pub fn read_at_offset(&self, offset: u64) -> (r: Result<Option<Record>, ErrorKind>)
        requires
            self.wf(),
        ensures
            match r {
                Ok(opt) => match opt {
                    Some(rec) => {
                        &&& self.is_open()
                        &&& self.base_offset <= offset < self.next_offset
                        &&& rec.offset == offset
                        &&& rec.value@ == self.record_value(offset - self.base_offset)
                    },
                    None => !self.is_open(),
                },
                Err(e) => {
                    &&& self.is_open()
                    &&& e == ErrorKind::EndOfData
                    &&& !(self.base_offset <= offset < self.next_offset)
                },
            },
    {
        let (st, ix) = match (&self.store, &self.index) {
            (Some(st), Some(ix)) => (st, ix),
            _ => {
                return Ok(None);
            },
        };
        if offset < self.base_offset || offset >= self.next_offset {
            return Err(ErrorKind::EndOfData);
        }
        let rel = offset - self.base_offset;
        proof {
            assert(entry_wf(st.bytes(), ix.mem(), self.base_offset, rel as int));
            assert((rel as i64) as u32 == rel as u32);
        }
        let (_off_field, pos) = match ix.read(rel as i64) {
            Ok(v) => v,
            Err(_) => {
                return Err(ErrorKind::EndOfData);
            },
        };
        let buf = match st.read_at_offset(pos) {
            Ok(v) => v,
            Err(_) => {
                return Err(ErrorKind::EndOfData);
            },
        };
        let rec = match decode_record(&buf) {
            Ok(rec) => rec,
            Err(_) => {
                return Err(ErrorKind::EndOfData);
            },
        };
        proof {
            lemma_be_u64_round_trip(offset);
            assert(buf@.subrange(0, 8) =~= buf@.take(8));
        }
        Ok(Some(rec))
    }

    /// Whether the store or the index has reached its configured cap.
    pub fn is_maxed(&self) -> (r: bool)
        requires
            self.wf(),
        ensures
            r == self.maxed_spec(),
    {
        match (&self.store, &self.index) {
            (Some(st), Some(ix)) => st.size() >= self.config.max_store_bytes || ix.size()
                >= self.config.max_index_bytes,
            _ => false,
        }
    }

    /// Streaming read of the raw store bytes, length prefixes
    /// included. Fails with `end-of-data` once the cursor has
    /// exhausted the store — the caller's signal to move on — and
    /// returns nothing after close.
    pub fn read(&mut self, n: usize) -> (r: Result<Vec<u8>, ErrorKind>)
        requires
            old(self).wf(),
        ensures
            final(self).wf(),
            final(self).base_offset == old(self).base_offset,
            final(self).next_offset == old(self).next_offset,
            final(self).cfg() == old(self).cfg(),
            final(self).is_open() == old(self).is_open(),
            old(self).is_open() ==> {
                &&& final(self).store_bytes() == old(self).store_bytes()
                &&& final(self).index_mem() == old(self).index_mem()
                &&& final(self).index_used() == old(self).index_used()
            },
            match r {
                Ok(v) => if !old(self).is_open() {
                    v@.len() == 0 && *final(self) == *old(self)
                } else {
                    &&& old(self).cursor() < old(self).store_bytes().len()
                    &&& v@ == old(self).store_bytes().subrange(
                        old(self).cursor(),
                        if old(self).cursor() + n <= old(self).store_bytes().len() {
                            old(self).cursor() + n
                        } else {
                            old(self).store_bytes().len() as int
                        },
                    )
                    &&& final(self).cursor() == old(self).cursor() + v@.len()
                },
                Err(e) => {
                    &&& e == ErrorKind::EndOfData
                    &&& old(self).is_open()
                    &&& old(self).cursor() >= old(self).store_bytes().len()
                    &&& *final(self) == *old(self)
                },
            },
    {
        let st_opt = self.store.take();
        let mut st = match st_opt {
            Some(st) => st,
            None => {
                self.store = None;
                return Ok(Vec::new());
            },
        };
        if st.size() <= st.position() as u64 {
            self.store = Some(st);
            return Err(ErrorKind::EndOfData);
        }
        let v = st.read(n);
        self.store = Some(st);
        Ok(v)
    }

    /// Closes the segment, consuming its store and index and handing
    /// back the two byte images to persist: the store at its natural
    /// length, the index cut to its entries, `12` bytes for each of
    /// the segment's records. A closed pair always recovers this
    /// segment's range.
    pub fn close(&mut self) -> (r: Option<(Vec<u8>, Vec<u8>)>)
        requires
            old(self).wf(),
        ensures
            final(self).wf(),
            !final(self).is_open(),
            final(self).base_offset == old(self).base_offset,
            final(self).next_offset == old(self).next_offset,
            final(self).cfg() == old(self).cfg(),
            match r {
                Some(files) => {
                    &&& old(self).is_open()
                    &&& files.0@ == old(self).store_bytes()
                    &&& files.1@ == resized(old(self).index_mem(), old(self).index_used() as int)
                    &&& files.1@.len() == 12 * old(self).n_records()
                    &&& valid_files(files.0@, files.1@, old(self).base_offset, old(self).cfg())
                    &&& forall|i: int|
                        0 <= i < old(self).n_records() ==> #[trigger] frame_payload(
                            files.0@,
                            entry_pos(files.1@, i) as int,
                        ).skip(8) == old(self).record_value(i)
                },
                None => !old(self).is_open() && *final(self) == *old(self),
            },
    {
        let st_opt = self.store.take();
        let ix_opt = self.index.take();
        match (st_opt, ix_opt) {
            (Some(st), Some(ix)) => {
                let ghost old_mem = ix.mem();
                let ghost used = ix.used() as int;
                let store_file = st.close();
                let index_file = ix.close();
                proof {
                    let n = old(self).n_records();
                    assert(index_file@ =~= old_mem.take(used));
                    assert forall|i: int| 0 <= i < n implies #[trigger] entry_wf(
                        store_file@,
                        index_file@,
                        old(self).base_offset,
                        i,
                    ) by {
                        assert(entry_wf(store_file@, old_mem, old(self).base_offset, i));
                        assert(index_file@.subrange(12 * i, 12 * i + 4) =~= old_mem.subrange(
                            12 * i,
                            12 * i + 4,
                        ));
                        assert(index_file@.subrange(12 * i + 4, 12 * i + 12) =~= old_mem.subrange(
                            12 * i + 4,
                            12 * i + 12,
                        ));
                    }
                    assert forall|i: int| 0 <= i < n implies #[trigger] frame_payload(
                        store_file@,
                        entry_pos(index_file@, i) as int,
                    ).skip(8) == old(self).record_value(i) by {
                        assert(index_file@.subrange(12 * i + 4, 12 * i + 12) =~= old_mem.subrange(
                            12 * i + 4,
                            12 * i + 12,
                        ));
                    }
                }
                Some((store_file, index_file))
            },
            (st_back, ix_back) => {
                self.store = st_back;
                self.index = ix_back;
                None
            },
        }
    }

    /// Closes the segment and discards the images: the caller removes
    /// the two files.
    pub fn remove(&mut self) -> (r: Result<(), ErrorKind>)
        requires
            old(self).wf(),
        ensures
            final(self).wf(),
            !final(self).is_open(),
            final(self).base_offset == old(self).base_offset,
            final(self).next_offset == old(self).next_offset,
            final(self).cfg() == old(self).cfg(),
            r is Ok,
    {
        let _ = self.close();
        Ok(())
    }

    /// Facts every well-formed segment obeys, for callers that hold
    /// the predicate opaquely.
    pub proof fn lemma_wf_facts(self)
        requires
            self.wf(),
        ensures
            self.base_offset <= self.next_offset,
            self.next_offset - self.base_offset < 0x1_0000_0000,
            valid_config(self.cfg()),
            self.is_open() ==> self.index_used() == 12 * self.n_records(),
    {
    }
}

/// Index entries below `used` survive a write at `used` and a store
/// append: each stays sound against the grown store.
proof fn lemma_entries_keep(st: Seq<u8>, m1: Seq<u8>, m2: Seq<u8>, used: int, base: u64, n: int)
    requires
        0 <= n,
        12 * n <= used,
        used + 12 <= m1.len(),
        m2.len() == m1.len(),
        forall|i: int| 0 <= i < m1.len() && !(used <= i < used + 12) ==> m2[i] == m1[i],
        forall|i: int| 0 <= i < n ==> #[trigger] entry_wf(st, m1, base, i),
    ensures
        forall|i: int| 0 <= i < n ==> #[trigger] entry_wf(st, m2, base, i),
{
    assert forall|i: int| 0 <= i < n implies #[trigger] entry_wf(st, m2, base, i) by {
        assert(entry_wf(st, m1, base, i));
        assert(m2.subrange(12 * i, 12 * i + 4) =~= m1.subrange(12 * i, 12 * i + 4));
        assert(m2.subrange(12 * i + 4, 12 * i + 12) =~= m1.subrange(12 * i + 4, 12 * i + 12));
    }
}

/// Frames named by sound entries survive growing the store: the new
/// image extends the old one, so each old frame keeps its bytes.
proof fn lemma_frames_keep(st1: Seq<u8>, st2: Seq<u8>, m: Seq<u8>, base: u64, n: int)
    requires
        st1.len() <= st2.len(),
        forall|k: int| 0 <= k < st1.len() ==> st2[k] == st1[k],
        forall|i: int| 0 <= i < n ==> #[trigger] entry_wf(st1, m, base, i),
    ensures
        forall|i: int| 0 <= i < n ==> #[trigger] entry_wf(st2, m, base, i),
        forall|i: int|
            0 <= i < n ==> #[trigger] frame_payload(st2, entry_pos(m, i) as int) == frame_payload(
                st1,
                entry_pos(m, i) as int,
            ),
{
    assert forall|i: int| 0 <= i < n implies #[trigger] entry_wf(st2, m, base, i) by {
        lemma_one_frame_keep(st1, st2, m, base, i);
    }
    assert forall|i: int| 0 <= i < n implies #[trigger] frame_payload(st2, entry_pos(m, i) as int)
        == frame_payload(st1, entry_pos(m, i) as int) by {
        lemma_one_frame_keep(st1, st2, m, base, i);
    }
}

/// One entry's frame survives growing the store.
proof fn lemma_one_frame_keep(st1: Seq<u8>, st2: Seq<u8>, m: Seq<u8>, base: u64, i: int)
    requires
        st1.len() <= st2.len(),
        forall|k: int| 0 <= k < st1.len() ==> st2[k] == st1[k],
        entry_wf(st1, m, base, i),
    ensures
        entry_wf(st2, m, base, i),
        frame_payload(st2, entry_pos(m, i) as int) == frame_payload(st1, entry_pos(m, i) as int),
{
    let p = entry_pos(m, i) as int;
    assert(st2.subrange(p, p + 8) =~= st1.subrange(p, p + 8));
    assert(crate::store::frame_len(st2, p) == crate::store::frame_len(st1, p));
    assert(st2.subrange(p + 8, p + 8 + crate::store::frame_len(st1, p)) =~= st1.subrange(
        p + 8,
        p + 8 + crate::store::frame_len(st1, p),
    ));
}

/// Entries read the same from an index file image and from that
/// image grown to the mapping size, as long as they lie below the
/// file's length.
proof fn lemma_entries_in_resized(st: Seq<u8>, ixd: Seq<u8>, base: u64, c: Config)
    requires
        valid_files(st, ixd, base, c),
        c.max_index_bytes <= usize::MAX,
    ensures
        forall|i: int|
            0 <= i < ixd.len() as int / 12 ==> #[trigger] entry_wf(
                st,
                resized(ixd, c.max_index_bytes as int),
                base,
                i,
            ),
        forall|i: int|
            0 <= i < ixd.len() as int / 12 ==> #[trigger] entry_pos(
                resized(ixd, c.max_index_bytes as int),
                i,
            ) == entry_pos(ixd, i),
{
    let m = resized(ixd, c.max_index_bytes as int);
    assert(ixd.len() <= c.max_index_bytes);
    assert forall|i: int| 0 <= i < ixd.len() as int / 12 implies #[trigger] entry_wf(
        st,
        m,
        base,
        i,
    ) by {
        assert(entry_wf(st, ixd, base, i));
        assert(m.subrange(12 * i, 12 * i + 4) =~= ixd.subrange(12 * i, 12 * i + 4));
        assert(m.subrange(12 * i + 4, 12 * i + 12) =~= ixd.subrange(12 * i + 4, 12 * i + 12));
    }
    assert forall|i: int| 0 <= i < ixd.len() as int / 12 implies #[trigger] entry_pos(m, i)
        == entry_pos(ixd, i) by {
        assert(m.subrange(12 * i + 4, 12 * i + 12) =~= ixd.subrange(12 * i + 4, 12 * i + 12));
    }
}

} // verus!
