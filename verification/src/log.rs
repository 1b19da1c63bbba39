use crate::config::{normalized, valid_config, Config};
use crate::error::ErrorKind;
use crate::index::resized;
use crate::endian::be_u64_bytes;
use crate::record::{record_bytes, Record};
use crate::segment::{last_entry_off, valid_files, Segment};
use crate::store::frame_payload;
use vstd::prelude::*;

verus! {

/// The pair of file images a segment is opened from, or persists to,
/// named by its base offset: `{base_offset}.store` and
/// `{base_offset}.index` on disk.
#[derive(Debug)]
pub struct SegmentFiles {
    pub base_offset: u64,
    pub store_data: Vec<u8>,
    pub index_data: Vec<u8>,
}

/// A segment opened from `f` under configuration `c` carries exactly
/// these facts: the images are taken over, and the next offset is
/// recovered from the index's last entry.
pub open spec fn seg_from_file(seg: Segment, f: SegmentFiles, c: Config) -> bool {
    &&& seg.base_offset == f.base_offset
    &&& seg.cfg() == c
    &&& seg.is_open()
    &&& seg.cursor() == 0
    &&& seg.store_bytes() == f.store_data@
    &&& seg.index_mem() == resized(f.index_data@, c.max_index_bytes as int)
    &&& seg.index_used() == f.index_data@.len()
    &&& match last_entry_off(seg.index_used(), seg.index_mem()) {
        Some(off) => seg.next_offset == f.base_offset + off + 1,
        None => seg.next_offset == f.base_offset,
    }
    &&& valid_files(f.store_data@, f.index_data@, f.base_offset, c) ==> {
        &&& seg.wf()
        &&& seg.n_records() == f.index_data@.len() as int / 12
        &&& forall|k: int|
            0 <= k < f.index_data@.len() as int / 12 ==> #[trigger] seg.record_value(k)
                == frame_payload(
                f.store_data@,
                crate::index::entry_pos(f.index_data@, k) as int,
            ).skip(8)
    }
}

/// Recovery of this pair would assign an offset past the largest one:
/// the one input on which opening a segment fails with `corrupt-log`.
pub open spec fn recovery_overflows(f: SegmentFiles, c: Config) -> bool {
    match last_entry_off(
        f.index_data@.len() as u64,
        resized(f.index_data@, c.max_index_bytes as int),
    ) {
        Some(off) => f.base_offset + off + 1 > u64::MAX,
        None => false,
    }
}

/// A set of segment files is well recovered when each pair is, and
/// the ranges they recover to stand in ascending, non-overlapping
/// order. The files a log persists on close form such a set.
pub open spec fn valid_file_set(files: Seq<SegmentFiles>, c: Config) -> bool {
    &&& forall|i: int|
        0 <= i < files.len() ==> #[trigger] valid_files(
            files[i].store_data@,
            files[i].index_data@,
            files[i].base_offset,
            c,
        )
    &&& forall|i: int, j: int|
        0 <= i < j < files.len() ==> #[trigger] files[i].base_offset
            + files[i].index_data@.len() as int / 12 <= #[trigger] files[j].base_offset
}

/// The directory of segments: an ordered list, the last of which is
/// active and receives appends, plus the cursor of the sequential
/// streaming read.
#[derive(Debug)]
pub struct Log {
    pub config: Config,
    pub segments: Vec<Segment>,
    pub active_segment: usize,
    pub reader_idx: usize,
}

impl Log {
    /// Segment `i` covers absolute offset `off`.
    pub open spec fn covers(self, i: int, off: u64) -> bool {
        &&& 0 <= i < self.segments@.len()
        &&& self.segments@[i].base_offset <= off < self.segments@[i].next_offset
    }

    /// Some segment covers absolute offset `off`.
    pub open spec fn has_cover(self, off: u64) -> bool {
        exists|i: int| self.covers(i, off)
    }

    /// The base offset of the first segment.
    pub open spec fn lowest_spec(self) -> u64 {
        self.segments@[0].base_offset
    }

    /// One below the next offset of the last segment, or 0 when
    /// nothing was ever assigned.
    pub open spec fn highest_spec(self) -> u64 {
        let nx = self.segments@[self.segments@.len() - 1].next_offset;
        if nx == 0 {
            0u64
        } else {
            (nx - 1) as u64
        }
    }

    /// Well-formedness: a normalised, honourable configuration shared
    /// by every segment, each segment well formed, ranges ascending
    /// and non-overlapping, and the last segment active.
    pub open spec fn inv(self) -> bool {
        &&& valid_config(self.config)
        &&& (self.segments@.len() > 0 ==> self.active_segment == self.segments@.len() - 1)
        &&& forall|i: int|
            0 <= i < self.segments@.len() ==> (#[trigger] self.segments@[i]).wf()
                && self.segments@[i].cfg() == self.config
        &&& forall|i: int, j: int|
            0 <= i < j < self.segments@.len() ==> (#[trigger] self.segments@[i]).next_offset <= (
            #[trigger] self.segments@[j]).base_offset
    }

    /// Opens a log over the segment file pairs found in its
    /// directory, in ascending base-offset order, or over none for an
    /// empty directory, which opens a single fresh segment at the
    /// configured initial offset. Zero byte caps are normalised to
    /// 1024 first. Fails with `io-error` when the normalised index
    /// cap is not honourable on this machine, and with `corrupt-log`
    /// when recovery of some pair would overflow the offset range.
    pub fn new(files: Vec<SegmentFiles>, c: Config) -> (r: Result<Log, ErrorKind>)
        ensures
            match r {
                Ok(log) => {
                    &&& log.config == normalized(c)
                    &&& valid_config(log.config)
                    &&& log.reader_idx == 0
                    &&& log.segments@.len() > 0
                    &&& log.active_segment == log.segments@.len() - 1
                    &&& if files@.len() == 0 {
                        &&& log.segments@.len() == 1
                        &&& log.segments@[0].base_offset == normalized(c).initial_offset
                        &&& log.segments@[0].next_offset == normalized(c).initial_offset
                        &&& log.segments@[0].is_open()
                        &&& log.segments@[0].store_bytes() == Seq::<u8>::empty()
                        &&& log.segments@[0].index_used() == 0
                        &&& log.segments@[0].cursor() == 0
                        &&& log.inv()
                    } else {
                        &&& log.segments@.len() == files@.len()
                        &&& forall|i: int|
                            0 <= i < files@.len() ==> #[trigger] seg_from_file(
                                log.segments@[i],
                                files@[i],
                                normalized(c),
                            )
                        &&& valid_file_set(files@, normalized(c)) ==> log.inv()
                    }
                },
                Err(e) => (e == ErrorKind::IoError && !valid_config(normalized(c))) || (e
                    == ErrorKind::CorruptLog && exists|i: int|
                    0 <= i < files@.len() && #[trigger] recovery_overflows(
                        files@[i],
                        normalized(c),
                    )),
            },
            (valid_config(normalized(c)) && forall|i: int|
                0 <= i < files@.len() ==> !#[trigger] recovery_overflows(files@[i], normalized(c)))
                ==> r is Ok,
    {
        let mut cn = c;
        if cn.max_store_bytes == 0 {
            cn.max_store_bytes = 1024;
        }
        if cn.max_index_bytes == 0 {
            cn.max_index_bytes = 1024;
        }
        if cn.max_index_bytes > usize::MAX as u64 || cn.max_index_bytes > 12 * 0xffff_ffffu64 {
            return Err(ErrorKind::IoError);
        }
        let ghost files0 = files@;
        let mut pending = files;
        let mut segments: Vec<Segment> = Vec::new();
        if pending.len() == 0 {
            let seg = match Segment::new(Vec::new(), Vec::new(), cn.initial_offset, cn) {
                Ok(seg) => seg,
                Err(_) => {
                    proof {
                        assert(valid_files(Seq::<u8>::empty(), Seq::<u8>::empty(),
                            cn.initial_offset, cn));
                        assert(false);
                    }
                    return Err(ErrorKind::IoError);
                },
            };
            proof {
                assert(valid_files(Seq::<u8>::empty(), Seq::<u8>::empty(), cn.initial_offset, cn));
            }
            segments.push(seg);
            return Ok(Log { config: cn, segments, active_segment: 0, reader_idx: 0 });
        }
        #[verifier::loop_isolation(false)]
        while pending.len() > 0
            invariant
                valid_config(cn),
                cn == normalized(c),
                files0.len() > 0,
                segments@.len() + pending@.len() == files0.len(),
                pending@ == files0.skip(segments@.len() as int),
                forall|i: int|
                    0 <= i < segments@.len() ==> #[trigger] seg_from_file(
                        segments@[i],
                        files0[i],
                        cn,
                    ),
            decreases pending@.len(),
        {
            let ghost done = segments@.len() as int;
            let f = pending.remove(0);
            proof {
                assert(f == files0[done]);
                assert(pending@ =~= files0.skip(done + 1));
            }
            let seg = match Segment::new(f.store_data, f.index_data, f.base_offset, cn) {
                Ok(seg) => seg,
                Err(e) => {
                    proof {
                        assert(e == ErrorKind::CorruptLog);
                        assert(recovery_overflows(files0[done], normalized(c)));
                    }
                    return Err(e);
                },
            };
            segments.push(seg);
        }
        proof {
            assert(segments@.len() == files0.len());
        }
        let n_segs = segments.len();
        let log = Log { config: cn, segments, active_segment: n_segs - 1, reader_idx: 0 };
        proof {
            if valid_file_set(files0, cn) {
                assert forall|i: int| 0 <= i < log.segments@.len() implies (
                #[trigger] log.segments@[i]).wf() && log.segments@[i].cfg() == log.config by {
                    assert(seg_from_file(log.segments@[i], files0[i], cn));
                    assert(valid_files(files0[i].store_data@, files0[i].index_data@,
                        files0[i].base_offset, cn));
                }
                assert forall|i: int, j: int|
                    0 <= i < j < log.segments@.len() implies (
                #[trigger] log.segments@[i]).next_offset <= (
                #[trigger] log.segments@[j]).base_offset by {
                    assert(seg_from_file(log.segments@[i], files0[i], cn));
                    assert(seg_from_file(log.segments@[j], files0[j], cn));
                    assert(valid_files(files0[i].store_data@, files0[i].index_data@,
                        files0[i].base_offset, cn));
                    assert(log.segments@[i].next_offset == files0[i].base_offset
                        + files0[i].index_data@.len() as int / 12);
                }
            }
        }
        Ok(log)
    }

    /// Appends a record to the active segment and returns its
    /// assigned offset, which becomes the highest offset of the log.
    /// When the append fills either of the active segment's caps, a
    /// fresh segment is opened one past the assigned offset and
    /// becomes active. Returns `None` when the active segment was
    /// closed; errors of the segment append surface unchanged.
    pub fn append(&mut self, record: Record) -> (r: Result<Option<u64>, ErrorKind>)
        requires
            old(self).inv(),
            old(self).segments@.len() > 0 ==> old(self).segments@[old(self).segments@.len() - 1].next_offset < u64::MAX,
        ensures
            final(self).inv(),
            final(self).config == old(self).config,
            final(self).reader_idx == old(self).reader_idx,
            match r {
                Ok(opt) => match opt {
                    Some(off) => {
                        let k = old(self).segments@.len() - 1;
                        &&& old(self).segments@.len() > 0
                        &&& old(self).segments@[k].is_open()
                        &&& off == old(self).segments@[k].next_offset
                        &&& final(self).highest_spec() == off
                        &&& final(self).segments@[k].is_open()
                        &&& final(self).segments@[k].base_offset == old(self).segments@[k].base_offset
                        &&& final(self).segments@[k].next_offset == off + 1
                        &&& final(self).segments@[k].store_bytes() == old(self).segments@[k].store_bytes()
                            + be_u64_bytes((record.value@.len() + 8) as u64) + record_bytes(
                            off,
                            record.value@,
                        )
                        &&& final(self).segments@[k].cursor() == old(self).segments@[k].cursor()
                        &&& final(self).segments@[k].record_value(
                            off - old(self).segments@[k].base_offset,
                        ) == record.value@
                        &&& forall|j: int|
                            0 <= j < old(self).segments@[k].n_records() ==> #[trigger] final(self).segments@[k].record_value(j) == old(self).segments@[k].record_value(
                                j,
                            )
                        &&& forall|i: int|
                            0 <= i < k ==> #[trigger] final(self).segments@[i] == old(self).segments@[i]
                        &&& (final(self).segments@[k].maxed_spec() <==> final(self).segments@.len() == old(self).segments@.len() + 1)
                        &&& (final(self).segments@[k].maxed_spec() ==> {
                            let nk = final(self).segments@.len() - 1;
                            &&& final(self).segments@[nk].base_offset == off + 1
                            &&& final(self).segments@[nk].next_offset == off + 1
                            &&& final(self).segments@[nk].is_open()
                            &&& final(self).segments@[nk].store_bytes() == Seq::<u8>::empty()
                            &&& final(self).segments@[nk].cursor() == 0
                            &&& final(self).segments@[nk].index_used() == 0
                        })
                        &&& (!final(self).segments@[k].maxed_spec() ==> final(self).segments@.len()
                            == old(self).segments@.len())
                    },
                    None => {
                        &&& (old(self).segments@.len() == 0 || !old(self).segments@[old(self).segments@.len() - 1].is_open())
                        &&& final(self).segments@ == old(self).segments@
                        &&& final(self).active_segment == old(self).active_segment
                    },
                },
                Err(e) => {
                    let k = old(self).segments@.len() - 1;
                    &&& old(self).segments@.len() > 0
                    &&& old(self).segments@[k].is_open()
                    &&& final(self).segments@.len() == old(self).segments@.len()
                    &&& forall|i: int|
                        0 <= i < k ==> #[trigger] final(self).segments@[i] == old(self).segments@[i]
                    &&& final(self).segments@[k].next_offset == old(self).segments@[k].next_offset
                    &&& final(self).segments@[k].base_offset == old(self).segments@[k].base_offset
                    &&& final(self).segments@[k].is_open()
                    &&& forall|j: int|
                        0 <= j < old(self).segments@[k].n_records() ==> #[trigger] final(self).segments@[k].record_value(j) == old(self).segments@[k].record_value(j)
                    &&& (e == ErrorKind::EndOfData ==> old(self).segments@[k].index_mem().len()
                        < old(self).segments@[k].index_used() + 12)
                    &&& (e == ErrorKind::IoError ==> record.value@.len() + 8 > usize::MAX || old(self).segments@[k].store_bytes().len() + 16 + record.value@.len() > usize::MAX)
                    &&& (e == ErrorKind::EndOfData || e == ErrorKind::IoError)
                },
            },
    {
        if self.segments.len() == 0 {
            return Ok(None);
        }
        let idx = self.active_segment;
        let ghost k = self.segments@.len() - 1;
        let mut seg = self.segments.remove(idx);
        let res = seg.append(record);
        let maxed = seg.is_maxed();
        let next = seg.next_offset;
        self.segments.insert(idx, seg);
        proof {
            assert(self.segments@ =~= old(self).segments@.update(k, seg));
        }
        let offset = match res {
            Ok(Some(offset)) => offset,
            Ok(None) => {
                proof {
                    assert(self.segments@ =~= old(self).segments@);
                }
                return Ok(None);
            },
            Err(e) => {
                return Err(e);
            },
        };
        if maxed {
            let fresh = match Segment::new(Vec::new(), Vec::new(), offset + 1, self.config) {
                Ok(fresh) => fresh,
                Err(_) => {
                    proof {
                        assert(valid_files(Seq::<u8>::empty(), Seq::<u8>::empty(), (offset
                            + 1) as u64, self.config));
                        assert(false);
                    }
                    return Err(ErrorKind::IoError);
                },
            };
            proof {
                assert(valid_files(Seq::<u8>::empty(), Seq::<u8>::empty(), (offset + 1) as u64,
                    self.config));
                assert(fresh.wf());
            }
            self.segments.push(fresh);
            self.active_segment = self.segments.len() - 1;
            proof {
                let l = self.segments@.len();
                assert forall|i: int, j: int| 0 <= i < j < l implies (
                #[trigger] self.segments@[i]).next_offset <= (
                #[trigger] self.segments@[j]).base_offset by {
                    if j == l - 1 {
                        if i < k {
                            assert(old(self).segments@[i].next_offset <= old(self).segments@[k].base_offset);
                            old(self).segments@[i].lemma_wf_facts();
                        }
                    }
                }
            }
        }
        Ok(Some(offset))
    }

    /// Reads the record at an absolute offset by routing to the
    /// segment whose range covers it; fails with
    /// `offset-out-of-range` when none does, and returns `None` when
    /// the covering segment was closed.
    pub fn read_at_offset(&self, offset: u64) -> (r: Result<Option<Record>, ErrorKind>)
        requires
            self.inv(),
        ensures
            match r {
                Ok(opt) => match opt {
                    Some(rec) => exists|i: int|
                        {
                            &&& #[trigger] self.covers(i, offset)
                            &&& self.segments@[i].is_open()
                            &&& rec.offset == offset
                            &&& rec.value@ == self.segments@[i].record_value(
                                offset - self.segments@[i].base_offset,
                            )
                        },
                    None => exists|i: int|
                        #[trigger] self.covers(i, offset) && !self.segments@[i].is_open(),
                },
                Err(e) => e == ErrorKind::OffsetOutOfRange && !self.has_cover(offset),
            },
    {
        let mut i: usize = 0;
        while i < self.segments.len()
            invariant
                self.inv(),
                i <= self.segments@.len(),
                forall|j: int| 0 <= j < i ==> !self.covers(j, offset),
            decreases self.segments@.len() - i,
        {
            let seg = &self.segments[i];
            if seg.base_offset <= offset && offset < seg.next_offset {
                let r = seg.read_at_offset(offset);
                match r {
                    Ok(Some(rec)) => {
                        proof {
                            assert(self.covers(i as int, offset));
                        }
                        return Ok(Some(rec));
                    },
                    Ok(None) => {
                        proof {
                            assert(self.covers(i as int, offset));
                        }
                        return Ok(None);
                    },
                    Err(_) => {
                        return Err(ErrorKind::OffsetOutOfRange);
                    },
                }
            }
            i = i + 1;
        }
        proof {
            assert(forall|j: int| 0 <= j < self.segments@.len() ==> !self.covers(j, offset));
        }
        Err(ErrorKind::OffsetOutOfRange)
    }

    /// The base offset of the first segment; `corrupt-log` on an
    /// empty segment list.
    pub fn lowest_offset(&self) -> (r: Result<u64, ErrorKind>)
        requires
            self.inv(),
        ensures
            match r {
                Ok(v) => self.segments@.len() > 0 && v == self.lowest_spec(),
                Err(e) => e == ErrorKind::CorruptLog && self.segments@.len() == 0,
            },
    {
        if self.segments.len() == 0 {
            return Err(ErrorKind::CorruptLog);
        }
        Ok(self.segments[0].base_offset)
    }

    /// One below the last segment's next offset, or 0 when nothing
    /// was ever assigned; `corrupt-log` on an empty segment list.
    pub fn highest_offset(&self) -> (r: Result<u64, ErrorKind>)
        requires
            self.inv(),
        ensures
            match r {
                Ok(v) => self.segments@.len() > 0 && v == self.highest_spec(),
                Err(e) => e == ErrorKind::CorruptLog && self.segments@.len() == 0,
            },
    {
        if self.segments.len() == 0 {
            return Err(ErrorKind::CorruptLog);
        }
        let nx = self.segments[self.segments.len() - 1].next_offset;
        if nx == 0 {
            Ok(0)
        } else {
            Ok(nx - 1)
        }
    }

    /// Removes every segment whose highest held offset is at most
    /// `lowest`; since ranges ascend, those form a prefix of the
    /// list, and the survivors keep their order and contents. The
    /// streaming cursor is reset. Returns the base offsets of the
    /// removed segments, whose two files the caller deletes.
    pub fn truncate(&mut self, lowest: u64) -> (r: Result<Vec<u64>, ErrorKind>)
        requires
            old(self).inv(),
        ensures
            final(self).inv(),
            final(self).config == old(self).config,
            final(self).reader_idx == 0,
            match r {
                Ok(removed) => {
                    let d = removed@.len() as int;
                    &&& 0 <= d <= old(self).segments@.len()
                    &&& final(self).segments@ == old(self).segments@.skip(d)
                    &&& forall|i: int|
                        0 <= i < d ==> #[trigger] removed@[i] == old(self).segments@[i].base_offset && old(self).segments@[i].next_offset <= lowest
                            + 1
                    &&& (final(self).segments@.len() > 0 ==> final(self).segments@[0].next_offset > lowest + 1)
                },
                Err(_) => false,
            },
    {
        let ghost segs0 = self.segments@;
        let mut removed: Vec<u64> = Vec::new();
        #[verifier::loop_isolation(false)]
        while self.segments.len() > 0 && (lowest == u64::MAX || self.segments[0].next_offset
            <= lowest + 1)
            invariant
                removed@.len() <= segs0.len(),
                self.segments@ == segs0.skip(removed@.len() as int),
                forall|i: int|
                    0 <= i < removed@.len() ==> #[trigger] removed@[i] == segs0[i].base_offset
                        && segs0[i].next_offset <= lowest + 1,
                self.config == old(self).config,
                self.reader_idx == old(self).reader_idx,
            decreases self.segments@.len(),
        {
            let mut seg = self.segments.remove(0);
            let _ = seg.remove();
            removed.push(seg.base_offset);
            proof {
                assert(self.segments@ =~= segs0.skip(removed@.len() as int));
            }
        }
        self.reader_idx = 0;
        if self.segments.len() > 0 {
            self.active_segment = self.segments.len() - 1;
        } else {
            self.active_segment = 0;
        }
        Ok(removed)
    }

    /// Closes every segment, handing back, for each that was still
    /// open, the pair of file images to persist under its base
    /// offset. When every segment was open, the files form a well
    /// recovered set: reopening a log over them restores every range.
    /// The streaming cursor moves past the end.
    pub fn close(&mut self) -> (r: Result<Vec<SegmentFiles>, ErrorKind>)
        requires
            old(self).inv(),
        ensures
            final(self).inv(),
            final(self).config == old(self).config,
            final(self).active_segment == old(self).active_segment,
            final(self).reader_idx == final(self).segments@.len(),
            final(self).segments@.len() == old(self).segments@.len(),
            forall|i: int|
                0 <= i < old(self).segments@.len() ==> {
                    &&& !(#[trigger] final(self).segments@[i]).is_open()
                    &&& final(self).segments@[i].base_offset == old(self).segments@[i].base_offset
                    &&& final(self).segments@[i].next_offset == old(self).segments@[i].next_offset
                },
            match r {
                Ok(files) => (forall|i: int|
                    0 <= i < old(self).segments@.len() ==> (#[trigger] old(self).segments@[i]).is_open()) ==> {
                    &&& files@.len() == old(self).segments@.len()
                    &&& forall|i: int|
                        0 <= i < files@.len() ==> {
                            let seg = old(self).segments@[i];
                            &&& (#[trigger] files@[i]).base_offset == seg.base_offset
                            &&& files@[i].store_data@ == seg.store_bytes()
                            &&& files@[i].index_data@.len() == 12 * seg.n_records()
                            &&& valid_files(
                                files@[i].store_data@,
                                files@[i].index_data@,
                                seg.base_offset,
                                old(self).config,
                            )
                            &&& forall|k: int|
                                0 <= k < seg.n_records() ==> #[trigger] frame_payload(
                                    files@[i].store_data@,
                                    crate::index::entry_pos(files@[i].index_data@, k) as int,
                                ).skip(8) == seg.record_value(k)
                        }
                    &&& valid_file_set(files@, old(self).config)
                },
                Err(_) => false,
            },
    {
        let ghost segs0 = self.segments@;
        let mut files: Vec<SegmentFiles> = Vec::new();
        let mut done: Vec<Segment> = Vec::new();
        #[verifier::loop_isolation(false)]
        while self.segments.len() > 0
            invariant
                done@.len() + self.segments@.len() == segs0.len(),
                self.segments@ == segs0.skip(done@.len() as int),
                forall|i: int|
                    0 <= i < done@.len() ==> {
                        &&& (#[trigger] done@[i]).wf()
                        &&& !done@[i].is_open()
                        &&& done@[i].base_offset == segs0[i].base_offset
                        &&& done@[i].next_offset == segs0[i].next_offset
                        &&& done@[i].cfg() == segs0[i].cfg()
                    },
                files@.len() <= done@.len(),
                (forall|i: int| 0 <= i < segs0.len() ==> (#[trigger] segs0[i]).is_open()) ==> {
                    &&& files@.len() == done@.len()
                    &&& forall|i: int|
                        0 <= i < files@.len() ==> {
                            let seg = segs0[i];
                            &&& (#[trigger] files@[i]).base_offset == seg.base_offset
                            &&& files@[i].store_data@ == seg.store_bytes()
                            &&& files@[i].index_data@.len() == 12 * seg.n_records()
                            &&& valid_files(
                                files@[i].store_data@,
                                files@[i].index_data@,
                                seg.base_offset,
                                old(self).config,
                            )
                            &&& forall|k: int|
                                0 <= k < seg.n_records() ==> #[trigger] frame_payload(
                                    files@[i].store_data@,
                                    crate::index::entry_pos(files@[i].index_data@, k) as int,
                                ).skip(8) == seg.record_value(k)
                        }
                },
                self.config == old(self).config,
                self.active_segment == old(self).active_segment,
                self.reader_idx == old(self).reader_idx,
            decreases self.segments@.len(),
        {
            let ghost d = done@.len() as int;
            let mut seg = self.segments.remove(0);
            proof {
                assert(seg == segs0[d]);
            }
            match seg.close() {
                Some(pair) => {
                    files.push(
                        SegmentFiles {
                            base_offset: seg.base_offset,
                            store_data: pair.0,
                            index_data: pair.1,
                        },
                    );
                },
                None => {},
            }
            done.push(seg);
            proof {
                assert(self.segments@ =~= segs0.skip(done@.len() as int));
            }
        }
        self.segments = done;
        self.reader_idx = self.segments.len();
        proof {
            if forall|i: int| 0 <= i < segs0.len() ==> (#[trigger] segs0[i]).is_open() {
                assert forall|i: int, j: int| 0 <= i < j < files@.len() implies (
                #[trigger] files@[i]).base_offset + files@[i].index_data@.len() as int / 12 <= (
                #[trigger] files@[j]).base_offset by {
                    segs0[i].lemma_wf_facts();
                    assert(old(self).segments@[i].next_offset <= old(self).segments@[j].base_offset);
                }
            }
        }
        Ok(files)
    }

    /// Closes every segment and forgets the list: the caller removes
    /// the directory.
    pub fn remove(&mut self) -> (r: Result<(), ErrorKind>)
        requires
            old(self).inv(),
        ensures
            final(self).inv(),
            final(self).config == old(self).config,
            final(self).segments@.len() == 0,
            r is Ok,
    {
        #[verifier::loop_isolation(false)]
        while self.segments.len() > 0
            invariant
                forall|i: int|
                    0 <= i < self.segments@.len() ==> (#[trigger] self.segments@[i]).wf(),
                self.config == old(self).config,
            decreases self.segments@.len(),
        {
            let popped = self.segments.pop();
            match popped {
                Some(mut seg) => {
                    let _ = seg.remove();
                },
                None => {},
            }
        }
        self.active_segment = 0;
        self.reader_idx = 0;
        Ok(())
    }

    /// Removes everything, then reopens as over an empty directory:
    /// one fresh segment at the configured initial offset.
    pub fn reset(&mut self) -> (r: Result<(), ErrorKind>)
        requires
            old(self).inv(),
        ensures
            final(self).inv(),
            final(self).config == old(self).config,
            r is Ok,
            final(self).segments@.len() == 1,
            final(self).segments@[0].base_offset == old(self).config.initial_offset,
            final(self).segments@[0].next_offset == old(self).config.initial_offset,
            final(self).reader_idx == 0,
    {
        let _ = self.remove();
        let seg = match Segment::new(Vec::new(), Vec::new(), self.config.initial_offset,
            self.config) {
            Ok(seg) => seg,
            Err(_) => {
                proof {
                    assert(valid_files(Seq::<u8>::empty(), Seq::<u8>::empty(),
                        self.config.initial_offset, self.config));
                    assert(false);
                }
                return Err(ErrorKind::IoError);
            },
        };
        proof {
            assert(valid_files(Seq::<u8>::empty(), Seq::<u8>::empty(), self.config.initial_offset,
                self.config));
        }
        self.segments.push(seg);
        self.active_segment = 0;
        self.reader_idx = 0;
        Ok(())
    }

    /// Streaming read: serves raw store bytes from the segment at the
    /// streaming cursor; a segment read past its end advances the
    /// cursor to the next segment; nothing comes back once past the
    /// last segment, or from a closed segment.
    pub fn read(&mut self, n: usize) -> (r: Result<Vec<u8>, ErrorKind>)
        requires
            old(self).inv(),
        ensures
            final(self).inv(),
            final(self).config == old(self).config,
            final(self).segments@.len() == old(self).segments@.len(),
            r is Ok,
            match r {
                Ok(v) => if old(self).reader_idx >= old(self).segments@.len() {
                    v@.len() == 0 && *final(self) == *old(self)
                } else {
                    let j = next_stream_idx(old(self).segments@, old(self).reader_idx as int);
                    &&& final(self).reader_idx == j
                    &&& if j == old(self).segments@.len() || !old(self).segments@[j].is_open() {
                        v@.len() == 0 && final(self).segments@ == old(self).segments@
                    } else {
                        let seg = old(self).segments@[j];
                        &&& v@ == seg.store_bytes().subrange(
                            seg.cursor(),
                            if seg.cursor() + n <= seg.store_bytes().len() {
                                seg.cursor() + n
                            } else {
                                seg.store_bytes().len() as int
                            },
                        )
                        &&& forall|i: int|
                            0 <= i < old(self).segments@.len() && i != j ==> #[trigger] final(self).segments@[i] == old(self).segments@[i]
                        &&& final(self).segments@[j].base_offset == seg.base_offset
                        &&& final(self).segments@[j].next_offset == seg.next_offset
                        &&& final(self).segments@[j].store_bytes() == seg.store_bytes()
                        &&& final(self).segments@[j].cursor() == seg.cursor() + v@.len()
                    }
                },
                Err(_) => false,
            },
    {
        let ghost segs0 = self.segments@;
        let ghost j0 = old(self).reader_idx as int;
        if self.reader_idx >= self.segments.len() {
            return Ok(Vec::new());
        }
        proof {
            lemma_next_stream_idx_bounds(segs0, j0);
        }
        #[verifier::loop_isolation(false)]
        loop
            invariant
                old(self).reader_idx <= self.reader_idx <= self.segments@.len(),
                self.segments@ == segs0,
                self.config == old(self).config,
                self.active_segment == old(self).active_segment,
                next_stream_idx(segs0, j0) == next_stream_idx(segs0, self.reader_idx as int),
            decreases self.segments@.len() - self.reader_idx,
        {
            if self.reader_idx >= self.segments.len() {
                return Ok(Vec::new());
            }
            let idx = self.reader_idx;
            let mut seg = self.segments.remove(idx);
            let res = seg.read(n);
            self.segments.insert(idx, seg);
            proof {
                assert(self.segments@ =~= segs0.update(idx as int, seg));
            }
            match res {
                Ok(v) => {
                    proof {
                        if !segs0[idx as int].is_open() {
                            assert(self.segments@ =~= segs0);
                            assert(next_stream_idx(segs0, idx as int) == idx);
                        } else {
                            assert(next_stream_idx(segs0, idx as int) == idx);
                        }
                    }
                    return Ok(v);
                },
                Err(_) => {
                    proof {
                        assert(self.segments@ =~= segs0);
                        assert(next_stream_idx(segs0, idx as int) == next_stream_idx(
                            segs0,
                            idx + 1,
                        ));
                    }
                    self.reader_idx = idx + 1;
                },
            }
        }
    }
}

/// The first segment from `j` on that still has streaming data: the
/// list's length when none has. A closed segment stops the scan,
/// since it reads as empty.
pub open spec fn next_stream_idx(s: Seq<Segment>, j: int) -> int
    recommends
        0 <= j <= s.len(),
    decreases s.len() - j,
    when 0 <= j <= s.len()
{
    if j >= s.len() {
        s.len() as int
    } else if !s[j].is_open() {
        j
    } else if s[j].cursor() < s[j].store_bytes().len() {
        j
    } else {
        next_stream_idx(s, j + 1)
    }
}

/// An offset is covered by at most one segment: ranges do not
/// overlap, so a read at an offset routes to exactly the segment
/// that appended the record there.
pub proof fn lemma_cover_unique(log: Log, i: int, j: int, off: u64)
    requires
        log.inv(),
        log.covers(i, off),
        log.covers(j, off),
    ensures
        i == j,
{
    if i < j {
        assert(log.segments@[i].next_offset <= log.segments@[j].base_offset);
    }
    if j < i {
        assert(log.segments@[j].next_offset <= log.segments@[i].base_offset);
    }
}

/// Round-trip identity: when segment `k` holds `value` at offset
/// `off`, any segment a read routes to for `off` hands that same
/// value back — reads return the record appended at their offset.
pub proof fn lemma_round_trip_value(log: Log, k: int, off: u64, value: Seq<u8>, i: int, rv: Seq<u8>)
    requires
        log.inv(),
        log.covers(k, off),
        log.segments@[k].record_value(off - log.segments@[k].base_offset) == value,
        log.covers(i, off),
        rv == log.segments@[i].record_value(off - log.segments@[i].base_offset),
    ensures
        rv == value,
{
    lemma_cover_unique(log, i, k, off);
}

/// The lowest offset never exceeds the highest while some appended
/// record remains in the log.
pub proof fn lemma_lowest_le_highest(log: Log)
    requires
        log.inv(),
        log.segments@.len() > 0,
        exists|i: int|
            0 <= i < log.segments@.len() && (#[trigger] log.segments@[i]).n_records() > 0,
    ensures
        log.lowest_spec() <= log.highest_spec(),
{
    let i = choose|i: int|
        0 <= i < log.segments@.len() && (#[trigger] log.segments@[i]).n_records() > 0;
    let last = log.segments@.len() - 1;
    log.segments@[0].lemma_wf_facts();
    log.segments@[i].lemma_wf_facts();
    log.segments@[last].lemma_wf_facts();
    if i > 0 {
        assert(log.segments@[0].next_offset <= log.segments@[i].base_offset);
    }
    if i < last {
        assert(log.segments@[i].next_offset <= log.segments@[last].base_offset);
    }
    assert(log.segments@[last].next_offset > 0);
}

/// Reopening preserves the bounds: a log opened over the files a
/// fully open log persisted on close sees the same lowest and
/// highest offsets. The hypotheses are exactly what `close` ensures
/// of its output and `new` ensures of a log built over it.
pub proof fn lemma_reopen_preserves_bounds(log: Log, files: Seq<SegmentFiles>, log2: Log)
    requires
        log.inv(),
        log.segments@.len() > 0,
        files.len() == log.segments@.len(),
        forall|i: int|
            0 <= i < files.len() ==> (#[trigger] files[i]).base_offset
                == log.segments@[i].base_offset && files[i].index_data@.len() == 12
                * log.segments@[i].n_records(),
        valid_file_set(files, log.config),
        log2.segments@.len() == files.len(),
        forall|i: int|
            0 <= i < files.len() ==> #[trigger] seg_from_file(
                log2.segments@[i],
                files[i],
                log.config,
            ),
    ensures
        log2.lowest_spec() == log.lowest_spec(),
        log2.highest_spec() == log.highest_spec(),
{
    let last = files.len() - 1;
    assert(seg_from_file(log2.segments@[0], files[0], log.config));
    assert(seg_from_file(log2.segments@[last], files[last], log.config));
    assert(valid_files(
        files[last].store_data@,
        files[last].index_data@,
        files[last].base_offset,
        log.config,
    ));
    assert(log2.segments@[last].n_records() == files[last].index_data@.len() as int / 12);
    assert(log2.segments@[last].n_records() == log.segments@[last].n_records());
    assert(log2.segments@[last].next_offset == log.segments@[last].next_offset);
}

/// After a truncation that removed the first `d` segments, no read
/// reaches an offset they covered: every such offset is at most the
/// truncation point, and no surviving segment covers it.
pub proof fn lemma_truncate_removes_prefix(pre: Log, post: Log, lowest: u64, d: int, j: u64)
    requires
        pre.inv(),
        0 <= d <= pre.segments@.len(),
        post.segments@ == pre.segments@.skip(d),
        forall|i: int|
            0 <= i < d ==> (#[trigger] pre.segments@[i]).next_offset <= lowest + 1,
        exists|i: int| 0 <= i < d && #[trigger] pre.covers(i, j),
    ensures
        j <= lowest,
        !post.has_cover(j),
{
    let i = choose|i: int| 0 <= i < d && #[trigger] pre.covers(i, j);
    assert(j < pre.segments@[i].next_offset <= lowest + 1);
    assert forall|s: int| 0 <= s < post.segments@.len() implies !post.covers(s, j) by {
        assert(post.segments@[s] == pre.segments@[d + s]);
        assert(pre.segments@[i].next_offset <= pre.segments@[d + s].base_offset);
    }
}

/// The scan stays within the list.
pub proof fn lemma_next_stream_idx_bounds(s: Seq<Segment>, j: int)
    requires
        0 <= j <= s.len(),
    ensures
        j <= next_stream_idx(s, j) <= s.len(),
    decreases s.len() - j,
{
    if j < s.len() && s[j].is_open() && s[j].cursor() >= s[j].store_bytes().len() {
        lemma_next_stream_idx_bounds(s, j + 1);
    }
}

} // verus!
