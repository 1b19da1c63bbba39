use crate::record::Record;
use vstd::prelude::*;

verus! {

/// Errors the in-memory server log raises.
#[derive(Debug)]
pub enum LogError {
    ErrOffsetNotFound,
    Other,
}

/// Body of a produce call: the record to append.
#[derive(Clone, Debug)]
pub struct ProduceRequest {
    pub record: Record,
}

/// Body of a produce answer: the offset the record was assigned.
#[derive(Clone, Debug)]
pub struct ProduceResponse {
    pub offset: u64,
}

/// Body of a consume call: the offset to read.
#[derive(Clone, Debug)]
pub struct ConsumeRequest {
    pub offset: u64,
}

/// Body of a consume answer: the record read.
#[derive(Clone, Debug)]
pub struct ConsumeResponse {
    pub record: Record,
}

/// A simple in-memory log: records held in append order, each at the
/// offset equal to its position.
#[derive(Clone, Debug, Default)]
pub struct Log {
    records: Vec<Record>,
}

impl Log {
    /// The values held, in append order.
    pub closed spec fn values(self) -> Seq<Seq<u8>> {
        self.records@.map(|i: int, r: Record| r.value@)
    }

    /// Each record's offset field equals its position.
    pub closed spec fn wf(self) -> bool {
        forall|i: int| 0 <= i < self.records@.len() ==> #[trigger] self.records@[i].offset == i
    }

    /// An empty log.
    pub fn new() -> (r: Log)
        ensures
            r.wf(),
            r.values() =~= Seq::<Seq<u8>>::empty(),
    {
        Log { records: Vec::new() }
    }

    /// Appends a record, assigning it the next offset, and returns that
    /// offset.
    pub fn append(&mut self, record: Record) -> (r: Result<u64, LogError>)
        requires
            old(self).wf(),
        ensures
            final(self).wf(),
            match r {
                Ok(offset) => {
                    &&& old(self).values().len() < u64::MAX
                    &&& offset == old(self).values().len()
                    &&& final(self).values() == old(self).values().push(record.value@)
                },
                Err(e) => e is Other && old(self).values().len() >= u64::MAX && *final(self)
                    == *old(self),
            },
    {
        if self.records.len() as u64 == u64::MAX {
            return Err(LogError::Other);
        }
        let offset = self.records.len() as u64;
        let stamped = Record { value: record.value, offset };
        self.records.push(stamped);
        proof {
            assert(self.values() =~= old(self).values().push(record.value@));
        }
        Ok(offset)
    }

    /// Reads the record at `offset`; fails with `ErrOffsetNotFound`
    /// past the end.
    pub fn read(&self, offset: u64) -> (r: Result<Record, LogError>)
        requires
            self.wf(),
        ensures
            match r {
                Ok(rec) => offset < self.values().len() && rec.value@ == self.values()[offset as int]
                    && rec.offset == offset,
                Err(e) => e is ErrOffsetNotFound && offset >= self.values().len(),
            },
    {
        if offset >= self.records.len() as u64 {
            return Err(LogError::ErrOffsetNotFound);
        }
        let rec = &self.records[offset as usize];
        Ok(Record { value: rec.value.clone(), offset: rec.offset })
    }
}

} // verus!
