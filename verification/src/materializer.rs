use vstd::prelude::*;
use crate::allocator::{following, OffsetAllocator};
use crate::errors::{ErrorCodes, LogMaterializerV2Error};
use crate::keyed::{
    first_index, is_first, lemma_first_index_absent, lemma_first_index_found, same_text,
};
use crate::laws::{durable_table, lemma_with_durable};
use crate::record::{
    DataRecord, DataRecordView, LogRecord, MaterializedLogRecordV2, MaterializedView, Operation,
    OperationRecord, OperationView,
};

verus! {

/// What the pass over the durable segment asks of the segment next.
#[derive(Clone, Copy, Debug, PartialEq, Eq, Structural)]
pub enum LookupStep {
    /// Ask whether the identifier of the operation at this index is durable.
    Exists(usize),
    /// Fetch the durable record of the identifier of the operation at this
    /// index, with its offset.
    Fetch(usize),
    /// Every identifier of the batch was asked for: the batch can be replayed.
    Done,
}

/// The identifiers of a batch, in order.
pub open spec fn batch_ids(logs: Seq<LogRecord>) -> Seq<Seq<char>> {
    Seq::new(logs.len(), |i: int| logs[i].record.id@)
}

/// The lookup that is due when the operations before `from` are dealt with:
/// each identifier is asked for once, at its first operation.
pub open spec fn next_lookup(ids: Seq<Seq<char>>, from: int) -> LookupStep
    decreases ids.len() - from,
{
    if from < 0 || from >= ids.len() {
        LookupStep::Done
    } else if is_first(ids, ids[from], from) {
        LookupStep::Exists(from as usize)
    } else {
        next_lookup(ids, from + 1)
    }
}

/// Where a materialization stands between two operations of the batch.
pub struct ReplayState {
    /// The records of the identifiers that were durable before the batch.
    pub existing: Seq<MaterializedView>,
    /// The records of the identifiers that the batch introduced so far.
    pub fresh: Seq<MaterializedView>,
    /// The offset that the next first insert gets.
    pub next_offset: u32,
    /// The error that stopped the replay, once one did.
    pub failure: Option<LogMaterializerV2Error>,
}

/// The identifiers of a table's records, in order.
pub open spec fn table_keys(table: Seq<MaterializedView>) -> Seq<Seq<char>> {
    Seq::new(table.len(), |i: int| table[i].key())
}

/// The records of a table as plain values.
pub open spec fn table_view(table: Seq<MaterializedLogRecordV2>) -> Seq<MaterializedView> {
    Seq::new(table.len(), |i: int| table[i]@)
}

/// The operations of a batch as plain values.
pub open spec fn batch_view(logs: Seq<LogRecord>) -> Seq<OperationView> {
    Seq::new(logs.len(), |i: int| logs[i].record@)
}

/// The table of durable records with one more lookup result: it replaces
/// the record of its identifier, or joins at the end.
pub open spec fn with_durable(
    existing: Seq<MaterializedView>,
    origin: DataRecordView,
    offset_id: u32,
) -> Seq<MaterializedView> {
    match first_index(table_keys(existing), origin.id) {
        Some(i) => existing.update(i, MaterializedView::durable(origin, offset_id)),
        None => existing.push(MaterializedView::durable(origin, offset_id)),
    }
}

impl ReplayState {
    /// The state before the first operation.
    pub open spec fn start(existing: Seq<MaterializedView>, next_offset: u32) -> ReplayState {
        ReplayState { existing, fresh: Seq::empty(), next_offset, failure: None }
    }

    /// A first insert by `op`: it takes the next offset, and either adds its
    /// record to the fresh table or stops the replay. The offset is spent
    /// either way.
    pub open spec fn insert(self, op: OperationView) -> ReplayState {
        match MaterializedView::inserted(op, self.next_offset, op.id) {
            Ok(record) => ReplayState {
                fresh: self.fresh.push(record),
                next_offset: following(self.next_offset),
                ..self
            },
            Err(e) => ReplayState {
                next_offset: following(self.next_offset),
                failure: Some(e),
                ..self
            },
        }
    }

    /// The state after `op`. Once the replay has failed nothing changes.
    pub open spec fn step(self, op: OperationView) -> ReplayState {
        let durable = first_index(table_keys(self.existing), op.id);
        let fresh = first_index(table_keys(self.fresh), op.id);
        if self.failure is Some {
            self
        } else {
            match op.operation {
                Operation::Add => if durable is None && fresh is None {
                    self.insert(op)
                } else {
                    self
                },
                Operation::Delete => match (fresh, durable) {
                    (Some(i), _) => ReplayState { fresh: self.fresh.remove(i), ..self },
                    (None, Some(i)) => ReplayState {
                        existing: self.existing.update(i, self.existing[i].deleted()),
                        ..self
                    },
                    (None, None) => self,
                },
                Operation::Update => match (durable, fresh) {
                    (Some(i), _) => ReplayState {
                        existing: self.existing.update(
                            i,
                            self.existing[i].updated(op, Operation::Update),
                        ),
                        ..self
                    },
                    (None, Some(i)) => ReplayState {
                        fresh: self.fresh.update(
                            i,
                            self.fresh[i].updated(op, self.fresh[i].final_operation),
                        ),
                        ..self
                    },
                    (None, None) => self,
                },
                Operation::Upsert => match (durable, fresh) {
                    (Some(i), _) => ReplayState {
                        existing: self.existing.update(
                            i,
                            self.existing[i].updated(op, Operation::Upsert),
                        ),
                        ..self
                    },
                    (None, Some(i)) => ReplayState {
                        fresh: self.fresh.update(
                            i,
                            self.fresh[i].updated(op, self.fresh[i].final_operation),
                        ),
                        ..self
                    },
                    (None, None) => self.insert(op),
                },
            }
        }
    }

    /// The state after the first `n` operations of `ops`, in order.
    pub open spec fn replay(self, ops: Seq<OperationView>, n: nat) -> ReplayState
        decreases n,
    {
        if n == 0 {
            self
        } else {
            self.replay(ops, (n - 1) as nat).step(ops[n - 1])
        }
    }

    /// What the materialization returns from this state: the error, or the
    /// durable records followed by the fresh ones.
    pub open spec fn outcome(self) -> Result<Seq<MaterializedView>, LogMaterializerV2Error> {
        match self.failure {
            Some(e) => Err(e),
            None => Ok(self.existing + self.fresh),
        }
    }
}

/// A result of `materializeV2` as plain values.
pub open spec fn outcome_view(
    r: Result<Vec<MaterializedLogRecordV2>, LogMaterializerV2Error>,
) -> Result<Seq<MaterializedView>, LogMaterializerV2Error> {
    match r {
        Ok(records) => Ok(table_view(records@)),
        Err(e) => Err(e),
    }
}

fn find_record<'a>(table: &Vec<MaterializedLogRecordV2<'a>>, id: &str) -> (r: Option<usize>)
    ensures
        match r {
            Some(i) => first_index(table_keys(table_view(table@)), id@) == Some(i as int),
            None => first_index(table_keys(table_view(table@)), id@) == None::<int>,
        },
{
    let ghost keys = table_keys(table_view(table@));
    let mut i: usize = 0;
    while i < table.len()
        invariant
            i <= table.len(),
            keys == table_keys(table_view(table@)),
            forall|j: int| 0 <= j < i ==> keys[j] != id@,
        decreases table.len() - i,
    {
        if same_text(table[i].key(), id) {
            proof {
                assert(is_first(keys, id@, i as int));
                lemma_first_index_found(keys, id@, i as int);
            }
            return Some(i);
        }
        i += 1;
    }
    proof {
        lemma_first_index_absent(keys, id@);
    }
    None
}

/// Folds the operations of one batch into one record for each identifier.
pub struct LogMaterializerV2<'a> {
    existing: Vec<MaterializedLogRecordV2<'a>>,
    logs: &'a Vec<LogRecord>,
}

impl<'a> LogMaterializerV2<'a> {
    /// The records of the identifiers that are known to be durable.
    pub closed spec fn existing(&self) -> Seq<MaterializedView> {
        table_view(self.existing@)
    }

    /// The batch.
    pub closed spec fn logs(&self) -> Seq<LogRecord> {
        self.logs@
    }

    /// A materializer for `logs` that knows of no durable record yet.
    pub fn new(logs: &'a Vec<LogRecord>) -> (r: Self)
        ensures
            r.existing() == Seq::<MaterializedView>::empty(),
            r.logs() == logs@,
            durable_table(r.existing()),
    {
        let r = LogMaterializerV2 { existing: Vec::new(), logs };
        assert(r.existing() =~= Seq::<MaterializedView>::empty());
        r
    }

    /// The operation at `index` of the batch, if the batch is that long.
    pub fn operation_at(&self, index: usize) -> (r: Option<&'a OperationRecord>)
        ensures
            match r {
                Some(op) => index < self.logs().len() && *op == self.logs()[index as int].record,
                None => index >= self.logs().len(),
            },
    {
        if index < self.logs.len() {
            Some(&self.logs[index].record)
        } else {
            None
        }
    }

    /// Whether the identifier at `index` occurs earlier in the batch.
    fn seen_before(&self, index: usize) -> (r: bool)
        requires
            index < self.logs().len(),
        ensures
            r == !is_first(
                batch_ids(self.logs()),
                batch_ids(self.logs())[index as int],
                index as int,
            ),
    {
        let ghost ids = batch_ids(self.logs@);
        let mut k: usize = 0;
        while k < index
            invariant
                k <= index < self.logs.len(),
                ids == batch_ids(self.logs@),
                forall|j: int| 0 <= j < k ==> ids[j] != ids[index as int],
            decreases index - k,
        {
            if self.logs[k].record.id == self.logs[index].record.id {
                assert(ids[k as int] == ids[index as int]);
                return true;
            }
            k += 1;
        }
        false
    }

    /// The lookup that is due when the operations before `from` are dealt with.
    pub fn lookup_from(&self, from: usize) -> (r: LookupStep)
        ensures
            r == next_lookup(batch_ids(self.logs()), from as int),
    {
        let ghost ids = batch_ids(self.logs@);
        let mut j: usize = from;
        while j < self.logs.len()
            invariant
                from <= j,
                ids == batch_ids(self.logs@),
                next_lookup(ids, from as int) == next_lookup(ids, j as int),
            decreases self.logs.len() - j,
        {
            if !self.seen_before(j) {
                return LookupStep::Exists(j);
            }
            j += 1;
        }
        LookupStep::Done
    }

    /// The first lookup of the pass over the durable segment.
    pub fn first_lookup(&self) -> (r: LookupStep)
        ensures
            r == next_lookup(batch_ids(self.logs()), 0),
    {
        self.lookup_from(0)
    }

    /// The step after the segment has said whether the identifier at `index`
    /// is durable: fetch its record if it is, go on to the next identifier if
    /// it is not, and give up with the segment's code if the segment failed.
    pub fn on_exists(&self, index: usize, answer: Result<bool, ErrorCodes>) -> (r: Result<
        LookupStep,
        LogMaterializerV2Error,
    >)
        ensures
            r == match answer {
                Err(code) => Err::<LookupStep, LogMaterializerV2Error>(
                    LogMaterializerV2Error::RecordSegmentError(code),
                ),
                Ok(true) => Ok(LookupStep::Fetch(index)),
                Ok(false) => Ok(next_lookup(batch_ids(self.logs()), index + 1)),
            },
    {
        match answer {
            Err(code) => Err(LogMaterializerV2Error::RecordSegmentError(code)),
            Ok(true) => Ok(LookupStep::Fetch(index)),
            Ok(false) => Ok(self.lookup_after(index)),
        }
    }

    /// The step after the segment has answered the fetch for the identifier
    /// at `index`: the record joins the durable table, under the identifier
    /// that it carries, and the pass goes on to the next identifier; or the
    /// pass gives up with the segment's code.
    pub fn on_fetched(&mut self, index: usize, answer: Result<(DataRecord<'a>, u32), ErrorCodes>) -> (r:
        Result<LookupStep, LogMaterializerV2Error>)
        ensures
            final(self).logs() == old(self).logs(),
            durable_table(old(self).existing()) ==> durable_table(final(self).existing()),
            match answer {
                Err(code) => r == Err::<LookupStep, LogMaterializerV2Error>(
                    LogMaterializerV2Error::RecordSegmentError(code),
                ) && final(self).existing() == old(self).existing(),
                Ok(found) => r == Ok::<LookupStep, LogMaterializerV2Error>(
                    next_lookup(batch_ids(old(self).logs()), index + 1),
                ) && final(self).existing() == with_durable(
                    old(self).existing(),
                    found.0@,
                    found.1,
                ),
            },
    {
        match answer {
            Err(code) => Err(LogMaterializerV2Error::RecordSegmentError(code)),
            Ok(found) => {
                self.record_existing(found.0, found.1);
                Ok(self.lookup_after(index))
            },
        }
    }

    fn lookup_after(&self, index: usize) -> (r: LookupStep)
        ensures
            r == next_lookup(batch_ids(self.logs()), index + 1),
    {
        if index < self.logs.len() {
            self.lookup_from(index + 1)
        } else {
            LookupStep::Done
        }
    }

    /// Takes in what the segment holds for one identifier of the batch: its
    /// record and its offset.
    pub fn record_existing(&mut self, data_record: DataRecord<'a>, offset_id: u32)
        ensures
            final(self).existing() == with_durable(old(self).existing(), data_record@, offset_id),
            final(self).logs() == old(self).logs(),
            durable_table(old(self).existing()) ==> durable_table(final(self).existing()),
    {
        proof {
            if durable_table(self.existing()) {
                lemma_with_durable(self.existing(), data_record@, offset_id);
            }
        }
        let found = find_record(&self.existing, data_record.id);
        let record = MaterializedLogRecordV2::from((data_record, offset_id));
        match found {
            Some(i) => {
                self.existing[i] = record;
            },
            None => {
                self.existing.push(record);
            },
        }
        assert(self.existing() =~= with_durable(old(self).existing(), data_record@, offset_id));
    }

    /// Replays the batch over the durable records and returns one record for
    /// each identifier that is left with an effect: the durable ones first,
    /// then the first inserts, each group in the order in which its
    /// identifiers came in. An error stops the replay and nothing is returned;
    /// the offsets that were handed out until then stay spent.
    #[allow(non_snake_case)]
    pub fn materializeV2(self, allocator: &mut OffsetAllocator) -> (r: Result<
        Vec<MaterializedLogRecordV2<'a>>,
        LogMaterializerV2Error,
    >)
        ensures
            outcome_view(r) == ReplayState::start(self.existing(), old(allocator)@).replay(
                batch_view(self.logs()),
                self.logs().len(),
            ).outcome(),
            final(allocator)@ == ReplayState::start(self.existing(), old(allocator)@).replay(
                batch_view(self.logs()),
                self.logs().len(),
            ).next_offset,
    {
        let mut existing = self.existing;
        let logs = self.logs;
        let mut fresh: Vec<MaterializedLogRecordV2<'a>> = Vec::new();
        let ghost start = ReplayState::start(table_view(existing@), allocator@);
        let ghost ops = batch_view(logs@);
        assert(table_view(fresh@) =~= Seq::<MaterializedView>::empty());
        let mut i: usize = 0;
        while i < logs.len()
            invariant
                i <= logs.len(),
                ops == batch_view(logs@),
                logs@ == self.logs(),
                start == ReplayState::start(self.existing(), old(allocator)@),
                start.replay(ops, i as nat) == (ReplayState {
                    existing: table_view(existing@),
                    fresh: table_view(fresh@),
                    next_offset: allocator@,
                    failure: None,
                }),
            decreases logs.len() - i,
        {
            let op: &'a OperationRecord = &logs[i].record;
            let ghost before = start.replay(ops, i as nat);
            assert(ops[i as int] == op@);
            match apply_operation(&mut existing, &mut fresh, allocator, op) {
                Ok(()) => {},
                Err(e) => {
                    proof {
                        let after = start.replay(ops, (i + 1) as nat);
                        assert(after == before.step(ops[i as int]));
                        assert(after.failure == Some(e));
                        lemma_failure_sticks(start, ops, (i + 1) as nat, logs.len() as nat);
                    }
                    return Err(e);
                },
            }
            i += 1;
        }
        let mut out = existing;
        let ghost durable = table_view(out@);
        let mut fresh = fresh;
        let ghost added = table_view(fresh@);
        out.append(&mut fresh);
        assert(table_view(out@) =~= durable + added);
        Ok(out)
    }
}

/// Once a replay has failed, further operations leave the state as it is.
pub proof fn lemma_failure_sticks(start: ReplayState, ops: Seq<OperationView>, n: nat, m: nat)
    requires
        n <= m,
        start.replay(ops, n).failure is Some,
    ensures
        start.replay(ops, m) == start.replay(ops, n),
    decreases m,
{
    if n < m {
        lemma_failure_sticks(start, ops, n, (m - 1) as nat);
    }
}

/// One step of the replay on the two tables and the allocator.
fn apply_operation<'a>(
    existing: &mut Vec<MaterializedLogRecordV2<'a>>,
    fresh: &mut Vec<MaterializedLogRecordV2<'a>>,
    allocator: &mut OffsetAllocator,
    op: &'a OperationRecord,
) -> (r: Result<(), LogMaterializerV2Error>)
    ensures
        (ReplayState {
            existing: table_view(final(existing)@),
            fresh: table_view(final(fresh)@),
            next_offset: final(allocator)@,
            failure: match r {
                Ok(_) => None,
                Err(e) => Some(e),
            },
        }) == (ReplayState {
            existing: table_view(old(existing)@),
            fresh: table_view(old(fresh)@),
            next_offset: old(allocator)@,
            failure: None,
        }).step(op@),
{
    let ghost before = ReplayState {
        existing: table_view(existing@),
        fresh: table_view(fresh@),
        next_offset: allocator@,
        failure: None,
    };
    let durable = find_record(existing, op.id.as_str());
    let added = find_record(fresh, op.id.as_str());
    let mut insert = false;
    match op.operation {
        Operation::Add => {
            insert = durable.is_none() && added.is_none();
        },
        Operation::Delete => {
            match added {
                Some(i) => {
                    let _ = fresh.remove(i);
                    assert(table_view(fresh@) =~= before.fresh.remove(i as int));
                },
                None => match durable {
                    Some(i) => {
                        existing[i].mark_deleted();
                        assert(table_view(existing@) =~= before.existing.update(
                            i as int,
                            before.existing[i as int].deleted(),
                        ));
                    },
                    None => {},
                },
            }
        },
        Operation::Update => {
            match durable {
                Some(i) => {
                    existing[i].apply_update(op, Operation::Update);
                    assert(table_view(existing@) =~= before.existing.update(
                        i as int,
                        before.existing[i as int].updated(op@, Operation::Update),
                    ));
                },
                None => match added {
                    Some(i) => {
                        let keep = fresh[i].final_operation();
                        fresh[i].apply_update(op, keep);
                        assert(table_view(fresh@) =~= before.fresh.update(
                            i as int,
                            before.fresh[i as int].updated(op@, keep),
                        ));
                    },
                    None => {},
                },
            }
        },
        Operation::Upsert => {
            match durable {
                Some(i) => {
                    existing[i].apply_update(op, Operation::Upsert);
                    assert(table_view(existing@) =~= before.existing.update(
                        i as int,
                        before.existing[i as int].updated(op@, Operation::Upsert),
                    ));
                },
                None => match added {
                    Some(i) => {
                        let keep = fresh[i].final_operation();
                        fresh[i].apply_update(op, keep);
                        assert(table_view(fresh@) =~= before.fresh.update(
                            i as int,
                            before.fresh[i as int].updated(op@, keep),
                        ));
                    },
                    None => {
                        insert = true;
                    },
                },
            }
        },
    }
    if insert {
        let next_offset_id = allocator.next();
        match MaterializedLogRecordV2::try_from((op, next_offset_id, op.id.as_str())) {
            Ok(record) => {
                fresh.push(record);
                assert(table_view(fresh@) =~= before.fresh.push(record@));
            },
            Err(e) => {
                return Err(e);
            },
        }
    }
    Ok(())
}

} // verus!
