//! The checkpoint journal: an append-only log keyed by a sequence number
//! that only grows, with lookup by checkpoint identifier.

use vstd::prelude::*;
use crate::checkpoint::{id_timestamp, id_timestamp_ms, Checkpoint};

verus! {

/// One record of the journal.
#[derive(Debug, Clone, PartialEq, Eq)]
pub struct JournalRecord {
    pub seq: u64,
    pub checkpoint: Checkpoint,
}

/// Why the journal refuses records or a checkpoint.
#[derive(Debug, Clone, Copy, PartialEq, Eq, Structural)]
pub enum JournalError {
    /// The sequence numbers of the records do not ascend strictly.
    OutOfOrder,
    /// Two records, or the checkpoint and a record, have the same identifier.
    DuplicateId,
    /// No sequence number is left.
    SequenceExhausted,
}

/// The state of a journal: its records in sequence order, and the sequence
/// number that the next checkpoint gets.
pub struct JournalView {
    pub records: Seq<JournalRecord>,
    pub next_seq: u64,
}

/// The sequence numbers ascend strictly.
pub open spec fn ascending(records: Seq<JournalRecord>) -> bool {
    forall|i: int, j: int| 0 <= i < j < records.len() ==> records[i].seq < records[j].seq
}

/// No two records have the same identifier.
pub open spec fn unique_ids(records: Seq<JournalRecord>) -> bool {
    forall|i: int, j: int|
        0 <= i < j < records.len() ==> records[i].checkpoint.id != records[j].checkpoint.id
}

/// Some record has the identifier.
pub open spec fn has_id(records: Seq<JournalRecord>, id: u128) -> bool {
    exists|i: int| 0 <= i < records.len() && (#[trigger] records[i]).checkpoint.id == id
}

/// The sequence number after the last record's, 1 for no records.
pub open spec fn high_water(records: Seq<JournalRecord>) -> int {
    if records.len() == 0 {
        1
    } else {
        records.last().seq + 1
    }
}

/// The fault for which records are no journal, if there is one.
pub open spec fn records_fault(records: Seq<JournalRecord>) -> Option<JournalError> {
    if !ascending(records) {
        Some(JournalError::OutOfOrder)
    } else if !unique_ids(records) {
        Some(JournalError::DuplicateId)
    } else if high_water(records) > u64::MAX {
        Some(JournalError::SequenceExhausted)
    } else {
        None
    }
}

/// The journal after a checkpoint was appended.
pub open spec fn appended(j: JournalView, c: Checkpoint) -> JournalView {
    JournalView {
        records: j.records.push(JournalRecord { seq: j.next_seq, checkpoint: c }),
        next_seq: (j.next_seq + 1) as u64,
    }
}

/// The checkpoint appended last.
pub open spec fn latest_of(j: JournalView) -> Option<Checkpoint> {
    if j.records.len() == 0 {
        None
    } else {
        Some(j.records.last().checkpoint)
    }
}

/// The invariant of a journal: sequence numbers ascend strictly and lie
/// below the next one, and identifiers are unique.
pub open spec fn journal_wf(j: JournalView) -> bool {
    &&& ascending(j.records)
    &&& unique_ids(j.records)
    &&& j.next_seq >= 1
    &&& forall|i: int| 0 <= i < j.records.len() ==> (#[trigger] j.records[i]).seq < j.next_seq
}

/// The checkpoints of the records whose identifier embeds a time at or
/// after `ts_ms`, in journal order.
pub open spec fn since_of(records: Seq<JournalRecord>, ts_ms: u64) -> Seq<Checkpoint>
    decreases records.len(),
{
    if records.len() == 0 {
        Seq::empty()
    } else if id_timestamp(records.last().checkpoint.id) >= ts_ms {
        since_of(records.drop_last(), ts_ms).push(records.last().checkpoint)
    } else {
        since_of(records.drop_last(), ts_ms)
    }
}

/// The checkpoints that the references point to.
pub open spec fn pointees(refs: Seq<&Checkpoint>) -> Seq<Checkpoint> {
    Seq::new(refs.len(), |i: int| *refs[i])
}

/// Appending keeps the journal's invariant, hands out the sequence numbers
/// one after the other without a gap, and makes the checkpoint the latest.
pub proof fn lemma_append_is_dense(j: JournalView, c1: Checkpoint, c2: Checkpoint)
    requires
        journal_wf(j),
        !has_id(j.records, c1.id),
        !has_id(j.records, c2.id),
        c1.id != c2.id,
        j.next_seq + 2 <= u64::MAX,
    ensures
        journal_wf(appended(j, c1)),
        journal_wf(appended(appended(j, c1), c2)),
        latest_of(appended(j, c1)) == Some(c1),
        latest_of(appended(appended(j, c1), c2)) == Some(c2),
        appended(appended(j, c1), c2).records.last().seq == appended(j, c1).records.last().seq + 1,
        j.records.len() > 0 ==> appended(j, c1).records.last().seq > j.records.last().seq,
{
    lemma_append_keeps_wf(j, c1);
    let j1 = appended(j, c1);
    assert(!has_id(j1.records, c2.id)) by {
        if has_id(j1.records, c2.id) {
            let i = choose|i: int| 0 <= i < j1.records.len() && (#[trigger] j1.records[i]).checkpoint.id == c2.id;
            if i < j.records.len() {
                assert(j.records[i].checkpoint.id == c2.id);
            }
        }
    }
    lemma_append_keeps_wf(j1, c2);
    if j.records.len() > 0 {
        assert(j.records[j.records.len() - 1].seq < j.next_seq);
    }
}

/// Appending a checkpoint with a new identifier keeps the journal's invariant.
pub proof fn lemma_append_keeps_wf(j: JournalView, c: Checkpoint)
    requires
        journal_wf(j),
        !has_id(j.records, c.id),
        j.next_seq < u64::MAX,
    ensures
        journal_wf(appended(j, c)),
{
    let a = appended(j, c);
    assert forall|x: int, y: int| 0 <= x < y < a.records.len() implies a.records[x].seq
        < a.records[y].seq && a.records[x].checkpoint.id != a.records[y].checkpoint.id by {
        assert(a.records[x] == j.records[x]);
        if y < j.records.len() {
            assert(a.records[y] == j.records[y]);
        } else {
            assert(j.records[x].seq < j.next_seq);
            assert(j.records[x].checkpoint.id != c.id);
        }
    }
    assert forall|i: int| 0 <= i < a.records.len() implies (#[trigger] a.records[i]).seq
        < a.next_seq by {
        if i < j.records.len() {
            assert(a.records[i] == j.records[i]);
        }
    }
}

/// Append-only journal of checkpoints.
pub struct Journal {
    records: Vec<JournalRecord>,
    next_seq: u64,
}

impl View for Journal {
    type V = JournalView;

    closed spec fn view(&self) -> JournalView {
        JournalView { records: self.records@, next_seq: self.next_seq }
    }
}

impl Journal {
    /// The journal's invariant.
    pub open spec fn wf(&self) -> bool {
        journal_wf(self@)
    }

    /// A journal without records; the first checkpoint gets sequence number 1.
    pub fn new() -> (j: Self)
        ensures
            j.wf(),
            j@.records.len() == 0,
            j@.next_seq == 1,
    {
        Journal { records: Vec::new(), next_seq: 1 }
    }

    /// The journal that the stored records make up, given in sequence
    /// order. The next sequence number follows the highest one stored.
    /// Records whose sequence numbers do not ascend, or of which two have one
    /// identifier, are refused.
    pub fn open(records: Vec<JournalRecord>) -> (r: Result<Self, JournalError>)
        ensures
            match r {
                Ok(j) => records_fault(records@) is None && j.wf() && j@.records == records@
                    && j@.next_seq == high_water(records@),
                Err(e) => records_fault(records@) == Some(e),
            },
    {
        let n = records.len();
        let mut i: usize = 1;
        while i < n
            invariant
                n == records@.len(),
                1 <= i,
                ascending(records@.subrange(0, if i <= n { i as int } else { n as int })),
            decreases n - i,
        {
            if records[i - 1].seq >= records[i].seq {
                return Err(JournalError::OutOfOrder);
            }
            proof {
                let before = records@.subrange(0, i as int);
                let upto = records@.subrange(0, i + 1);
                assert forall|x: int, y: int| 0 <= x < y < upto.len() implies upto[x].seq
                    < upto[y].seq by {
                    if y < i {
                        assert(before[x].seq < before[y].seq);
                    } else if x < i - 1 {
                        assert(before[x].seq < before[i - 1].seq);
                    }
                }
            }
            i = i + 1;
        }
        assert(records@.subrange(0, n as int) =~= records@);
        let mut k: usize = 0;
        while k < n
            invariant
                n == records@.len(),
                k <= n,
                ascending(records@),
                unique_ids(records@.subrange(0, k as int)),
            decreases n - k,
        {
            let mut m: usize = 0;
            while m < k
                invariant
                    n == records@.len(),
                    k < n,
                    m <= k,
                    ascending(records@),
                    forall|x: int| 0 <= x < m ==> records@[x].checkpoint.id != records@[k as int].checkpoint.id,
                decreases k - m,
            {
                if records[m].checkpoint.id == records[k].checkpoint.id {
                    return Err(JournalError::DuplicateId);
                }
                m = m + 1;
            }
            proof {
                let before = records@.subrange(0, k as int);
                let upto = records@.subrange(0, k + 1);
                assert forall|x: int, y: int| 0 <= x < y < upto.len() implies upto[x].checkpoint.id
                    != upto[y].checkpoint.id by {
                    if y < k {
                        assert(before[x].checkpoint.id != before[y].checkpoint.id);
                    }
                }
            }
            k = k + 1;
        }
        assert(records@.subrange(0, n as int) =~= records@);
        let next_seq: u64 = if n == 0 {
            1
        } else {
            if records[n - 1].seq == u64::MAX {
                return Err(JournalError::SequenceExhausted);
            }
            records[n - 1].seq + 1
        };
        proof {
            assert forall|x: int| 0 <= x < records@.len() implies (#[trigger] records@[x]).seq
                < next_seq by {
                if x < n - 1 {
                    assert(records@[x].seq < records@[n - 1].seq);
                }
            }
        }
        Ok(Journal { records, next_seq })
    }

    /// Where the record with the identifier stands.
    fn position(&self, id: u128) -> (r: Option<usize>)
        ensures
            match r {
                Some(i) => i < self@.records.len() && self@.records[i as int].checkpoint.id == id,
                None => !has_id(self@.records, id),
            },
    {
        let mut i: usize = 0;
        while i < self.records.len()
            invariant
                i <= self.records@.len(),
                forall|x: int| 0 <= x < i ==> self.records@[x].checkpoint.id != id,
            decreases self.records@.len() - i,
        {
            if self.records[i].checkpoint.id == id {
                return Some(i);
            }
            i = i + 1;
        }
        None
    }

    /// Appends a checkpoint and returns its sequence number, the one after
    /// the last that was handed out. A checkpoint whose identifier the
    /// journal holds is refused, and the journal stays as it is.
    pub fn append(&mut self, checkpoint: Checkpoint) -> (r: Result<u64, JournalError>)
        requires
            old(self).wf(),
        ensures
            final(self).wf(),
            match r {
                Ok(seq) => {
                    &&& !has_id(old(self)@.records, checkpoint.id)
                    &&& seq == old(self)@.next_seq
                    &&& final(self)@ == appended(old(self)@, checkpoint)
                    &&& latest_of(final(self)@) == Some(checkpoint)
                },
                Err(e) => {
                    &&& final(self)@ == old(self)@
                    &&& e == (if has_id(old(self)@.records, checkpoint.id) {
                        JournalError::DuplicateId
                    } else {
                        JournalError::SequenceExhausted
                    })
                    &&& (has_id(old(self)@.records, checkpoint.id) || old(self)@.next_seq == u64::MAX)
                },
            },
    {
        if self.position(checkpoint.id).is_some() {
            return Err(JournalError::DuplicateId);
        }
        if self.next_seq == u64::MAX {
            return Err(JournalError::SequenceExhausted);
        }
        let seq = self.next_seq;
        proof {
            lemma_append_keeps_wf(self@, checkpoint);
        }
        self.records.push(JournalRecord { seq, checkpoint });
        self.next_seq = seq + 1;
        Ok(seq)
    }

    /// The checkpoint with the identifier, if the journal holds it.
    pub fn get(&self, id: u128) -> (r: Option<&Checkpoint>)
        requires
            self.wf(),
        ensures
            match r {
                Some(c) => c.id == id && exists|i: int|
                    0 <= i < self@.records.len() && (#[trigger] self@.records[i]).checkpoint == *c,
                None => !has_id(self@.records, id),
            },
    {
        match self.position(id) {
            Some(i) => Some(&self.records[i].checkpoint),
            None => None,
        }
    }

    /// The checkpoint appended last, if there is any.
    pub fn latest(&self) -> (r: Option<&Checkpoint>)
        ensures
            match r {
                Some(c) => latest_of(self@) == Some(*c),
                None => latest_of(self@) is None,
            },
    {
        let n = self.records.len();
        if n == 0 {
            None
        } else {
            Some(&self.records[n - 1].checkpoint)
        }
    }

    /// The last `count` checkpoints, oldest first; all of them where the
    /// journal holds fewer.
    pub fn last_n(&self, count: usize) -> (r: Vec<&Checkpoint>)
        ensures
            r@.len() == (if count <= self@.records.len() {
                count as int
            } else {
                self@.records.len() as int
            }),
            forall|i: int|
                0 <= i < r@.len() ==> *(#[trigger] r@[i]) == self@.records[self@.records.len() - r@.len()
                    + i].checkpoint,
    {
        let n = self.records.len();
        let start = if count <= n {
            n - count
        } else {
            0
        };
        let mut out: Vec<&Checkpoint> = Vec::new();
        let mut i: usize = start;
        while i < n
            invariant
                n == self.records@.len(),
                start <= i <= n,
                out@.len() == i - start,
                forall|k: int| 0 <= k < out@.len() ==> *(#[trigger] out@[k]) == self.records@[start + k].checkpoint,
            decreases n - i,
        {
            out.push(&self.records[i].checkpoint);
            i = i + 1;
        }
        out
    }

    /// The checkpoints whose identifier embeds a time at or after
    /// `timestamp_ms`, in journal order.
    pub fn since(&self, timestamp_ms: u64) -> (r: Vec<&Checkpoint>)
        ensures
            pointees(r@) == since_of(self@.records, timestamp_ms),
    {
        let n = self.records.len();
        let mut out: Vec<&Checkpoint> = Vec::new();
        let mut i: usize = 0;
        assert(self.records@.subrange(0, 0) =~= Seq::<JournalRecord>::empty());
        assert(pointees(out@) =~= since_of(self.records@.subrange(0, 0), timestamp_ms));
        while i < n
            invariant
                n == self.records@.len(),
                i <= n,
                pointees(out@) == since_of(self.records@.subrange(0, i as int), timestamp_ms),
            decreases n - i,
        {
            let ghost before = pointees(out@);
            proof {
                let upto = self.records@.subrange(0, i + 1);
                assert(upto.drop_last() =~= self.records@.subrange(0, i as int));
                assert(upto.last() == self.records@[i as int]);
            }
            if id_timestamp_ms(self.records[i].checkpoint.id) >= timestamp_ms {
                out.push(&self.records[i].checkpoint);
                assert(pointees(out@) =~= before.push(self.records@[i as int].checkpoint));
            }
            i = i + 1;
        }
        assert(self.records@.subrange(0, n as int) =~= self.records@);
        out
    }

    /// The identifiers of all checkpoints, in journal order.
    pub fn all_checkpoint_ids(&self) -> (ids: Vec<u128>)
        ensures
            ids@.len() == self@.records.len(),
            forall|i: int| 0 <= i < ids@.len() ==> ids@[i] == self@.records[i].checkpoint.id,
    {
        let n = self.records.len();
        let mut ids: Vec<u128> = Vec::with_capacity(n);
        let mut i: usize = 0;
        while i < n
            invariant
                n == self.records@.len(),
                i <= n,
                ids@.len() == i,
                forall|k: int| 0 <= k < i ==> ids@[k] == self.records@[k].checkpoint.id,
            decreases n - i,
        {
            ids.push(self.records[i].checkpoint.id);
            i = i + 1;
        }
        ids
    }

    /// Takes the checkpoint with the identifier out of the journal; sequence
    /// numbers are not handed out again. Returns whether the journal held it.
    pub fn delete(&mut self, id: u128) -> (found: bool)
        requires
            old(self).wf(),
        ensures
            final(self).wf(),
            final(self)@.next_seq == old(self)@.next_seq,
            found == has_id(old(self)@.records, id),
            !has_id(final(self)@.records, id),
            !found ==> final(self)@ == old(self)@,
            found ==> exists|i: int|
                0 <= i < old(self)@.records.len() && (#[trigger] old(self)@.records[i]).checkpoint.id == id
                    && final(self)@.records == old(self)@.records.remove(i),
    {
        match self.position(id) {
            None => false,
            Some(i) => {
                let ghost before = self.records@;
                self.records.remove(i);
                proof {
                    let after = self.records@;
                    assert forall|x: int, y: int| 0 <= x < y < after.len() implies after[x].seq
                        < after[y].seq && after[x].checkpoint.id != after[y].checkpoint.id by {
                        let ox = if x < i { x } else { x + 1 };
                        let oy = if y < i { y } else { y + 1 };
                        assert(after[x] == before[ox] && after[y] == before[oy]);
                        assert(before[ox].seq < before[oy].seq);
                    }
                    assert forall|x: int| 0 <= x < after.len() implies (#[trigger] after[x]).seq
                        < self.next_seq by {
                        let ox = if x < i { x } else { x + 1 };
                        assert(after[x] == before[ox]);
                    }
                    if has_id(after, id) {
                        let x = choose|x: int| 0 <= x < after.len() && (#[trigger] after[x]).checkpoint.id == id;
                        let ox = if x < i { x } else { x + 1 };
                        assert(after[x] == before[ox]);
                        if ox < i {
                            assert(before[ox].checkpoint.id != before[i as int].checkpoint.id);
                        } else {
                            assert(before[i as int].checkpoint.id != before[ox].checkpoint.id);
                        }
                    }
                    assert(before[i as int].checkpoint.id == id);
                }
                true
            },
        }
    }

    /// The number of checkpoints.
    pub fn count(&self) -> (n: usize)
        ensures
            n == self@.records.len(),
    {
        self.records.len()
    }

    /// The sequence number that the next checkpoint gets.
    pub fn next_sequence(&self) -> (seq: u64)
        ensures
            seq == self@.next_seq,
    {
        self.next_seq
    }

    /// The record at a position of the journal, counted from the oldest.
    pub fn record(&self, i: usize) -> (r: &JournalRecord)
        requires
            i < self@.records.len(),
        ensures
            *r == self@.records[i as int],
    {
        &self.records[i]
    }
}

} // verus!
