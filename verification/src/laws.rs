use vstd::prelude::*;
use crate::keyed::{distinct, first_index, lemma_first_index, lemma_first_index_absent};
use crate::materializer::{table_keys, with_durable, ReplayState};
use crate::errors::LogMaterializerV2Error;
use crate::metadata::all_storable;
use crate::record::{DataRecordView, MaterializedView, Operation, OperationView};

verus! {

/// A table of durable records as the pass over the segment leaves it: each
/// record has its origin and nothing folded in yet, and no identifier occurs
/// twice.
pub open spec fn durable_table(table: Seq<MaterializedView>) -> bool {
    &&& forall|i: int|
        0 <= i < table.len() ==> {
            let r = #[trigger] table[i];
            r.origin is Some && r == MaterializedView::durable(r.origin.unwrap(), r.offset_id)
        }
    &&& distinct(table_keys(table))
}

/// A record whose net operation is a delete carries no payload and no
/// identifier of its own.
pub open spec fn cleared_if_deleted(r: MaterializedView) -> bool {
    r.final_operation == Operation::Delete ==> r.merged_metadata is None && r.final_document is None
        && r.final_embedding is None && r.user_id is None
}

/// Every record of the table is cleared if it stands for a delete.
pub open spec fn deletes_cleared(table: Seq<MaterializedView>) -> bool {
    forall|i: int| 0 <= i < table.len() ==> cleared_if_deleted(#[trigger] table[i])
}

/// A table of first inserts: each record has no origin, carries its
/// identifier, and stands for an insert; no identifier occurs twice.
pub open spec fn fresh_table(table: Seq<MaterializedView>) -> bool {
    &&& forall|i: int|
        0 <= i < table.len() ==> {
            let r = #[trigger] table[i];
            r.origin is None && r.user_id is Some && r.final_operation == Operation::Add
        }
    &&& distinct(table_keys(table))
}

/// `now` holds the records of the same durable identifiers as `before`, at
/// the same offsets and in the same order.
pub open spec fn same_origins(now: Seq<MaterializedView>, before: Seq<MaterializedView>) -> bool {
    &&& now.len() == before.len()
    &&& forall|i: int|
        #![trigger now[i]]
        #![trigger before[i]]
        0 <= i < now.len() ==> now[i].origin == before[i].origin && now[i].offset_id
            == before[i].offset_id
}

/// No identifier has a record in both tables.
pub open spec fn disjoint(a: Seq<MaterializedView>, b: Seq<MaterializedView>) -> bool {
    forall|i: int, j: int|
        0 <= i < a.len() && 0 <= j < b.len() ==> (#[trigger] a[i]).key() != (#[trigger] b[j]).key()
}

/// What holds of every state of a replay that began with the durable table
/// `origin`.
pub open spec fn consistent(s: ReplayState, origin: Seq<MaterializedView>) -> bool {
    &&& durable_table(origin)
    &&& same_origins(s.existing, origin)
    &&& fresh_table(s.fresh)
    &&& disjoint(s.existing, s.fresh)
}

/// No record of the table stands for `id`.
pub open spec fn absent(table: Seq<MaterializedView>, id: Seq<char>) -> bool {
    forall|i: int| 0 <= i < table.len() ==> (#[trigger] table[i]).key() != id
}

/// The fresh offsets lie between `first` and the allocator's next offset and
/// rise along the table; the durable offsets lie below `first`.
pub open spec fn offsets_in_order(s: ReplayState, first: u32) -> bool {
    &&& first <= s.next_offset
    &&& forall|i: int| 0 <= i < s.existing.len() ==> (#[trigger] s.existing[i]).offset_id < first
    &&& forall|j: int|
        0 <= j < s.fresh.len() ==> first <= (#[trigger] s.fresh[j]).offset_id < s.next_offset
    &&& forall|j: int, k: int|
        0 <= j < k < s.fresh.len() ==> (#[trigger] s.fresh[j]).offset_id < (
        #[trigger] s.fresh[k]).offset_id
}

/// A lookup result added to a durable table leaves a durable table.
pub proof fn lemma_with_durable(existing: Seq<MaterializedView>, origin: DataRecordView, offset_id: u32)
    requires
        durable_table(existing),
    ensures
        durable_table(with_durable(existing, origin, offset_id)),
{
    lemma_first_index(table_keys(existing), origin.id);
    let after = with_durable(existing, origin, offset_id);
    assert(MaterializedView::durable(origin, offset_id).key() == origin.id);
    assert forall|i: int, j: int| 0 <= i < j < after.len() implies table_keys(after)[i]
        != table_keys(after)[j] by {
        if i < existing.len() {
            assert(table_keys(existing)[i] == existing[i].key());
        }
        if j < existing.len() {
            assert(table_keys(existing)[j] == existing[j].key());
        }
    }
}

/// One operation keeps a state consistent.
pub proof fn lemma_step_consistent(s: ReplayState, origin: Seq<MaterializedView>, op: OperationView)
    requires
        consistent(s, origin),
    ensures
        consistent(s.step(op), origin),
{
    let t = s.step(op);
    let ek = table_keys(s.existing);
    let fk = table_keys(s.fresh);
    lemma_first_index(ek, op.id);
    lemma_first_index(fk, op.id);
    assert(table_keys(origin) =~= ek) by {
        assert forall|i: int| 0 <= i < ek.len() implies table_keys(origin)[i] == ek[i] by {
            assert(s.existing[i].origin == origin[i].origin);
        }
    }
    assert forall|i: int| 0 <= i < t.existing.len() implies (#[trigger] t.existing[i]).origin
        == origin[i].origin && t.existing[i].offset_id == origin[i].offset_id by {
        assert(s.existing[i].origin == origin[i].origin);
    }
    assert forall|i: int| 0 <= i < t.existing.len() implies (#[trigger] t.existing[i]).key()
        == ek[i] by {
        assert(s.existing[i].origin == origin[i].origin);
        assert(origin[i].origin is Some);
    }
    assert forall|i: int, j: int| 0 <= i < t.fresh.len() && 0 <= j < t.fresh.len() && i != j implies (
    #[trigger] t.fresh[i]).key() != (#[trigger] t.fresh[j]).key() by {
        lemma_fresh_keys(s, op, i);
        lemma_fresh_keys(s, op, j);
        lemma_fresh_positions(s, op, i, j);
    }
    assert(distinct(table_keys(t.fresh)));
    assert forall|i: int| 0 <= i < t.fresh.len() implies {
        let r = #[trigger] t.fresh[i];
        r.origin is None && r.user_id is Some && r.final_operation == Operation::Add
    } by {
        lemma_fresh_keys(s, op, i);
    }
    assert forall|i: int, j: int| 0 <= i < t.existing.len() && 0 <= j < t.fresh.len() implies (
    #[trigger] t.existing[i]).key() != (#[trigger] t.fresh[j]).key() by {
        lemma_fresh_keys(s, op, j);
        assert(ek[i] == s.existing[i].key());
    }
}

/// Where the records of the fresh table come from: each record after a step
/// is a first insert of the step's identifier, or stands for the identifier
/// of a record that was there before.
proof fn lemma_fresh_keys(s: ReplayState, op: OperationView, i: int)
    requires
        fresh_table(s.fresh),
        0 <= i < s.step(op).fresh.len(),
    ensures
        ({
            let r = s.step(op).fresh[i];
            &&& r.origin is None
            &&& r.user_id is Some
            &&& r.final_operation == Operation::Add
            &&& (exists|j: int| 0 <= j < s.fresh.len() && #[trigger] s.fresh[j].key() == r.key())
                || (r.key() == op.id && first_index(table_keys(s.existing), op.id) is None
                && first_index(table_keys(s.fresh), op.id) is None)
        }),
{
    let t = s.step(op);
    let fk = table_keys(s.fresh);
    lemma_first_index(fk, op.id);
    lemma_first_index(table_keys(s.existing), op.id);
    let r = t.fresh[i];
    if t.fresh.len() == s.fresh.len() + 1 {
        if i < s.fresh.len() {
            assert(s.fresh[i].key() == r.key());
        }
    } else if t.fresh.len() == s.fresh.len() {
        assert(s.fresh[i].key() == r.key());
    } else {
        let d = first_index(fk, op.id).unwrap();
        if i < d {
            assert(s.fresh[i].key() == r.key());
        } else {
            assert(s.fresh[i + 1].key() == r.key());
        }
    }
}

/// Two positions of the fresh table after a step hold different identifiers.
proof fn lemma_fresh_positions(s: ReplayState, op: OperationView, i: int, j: int)
    requires
        fresh_table(s.fresh),
        0 <= i < s.step(op).fresh.len(),
        0 <= j < s.step(op).fresh.len(),
        i != j,
    ensures
        s.step(op).fresh[i].key() != s.step(op).fresh[j].key(),
{
    let t = s.step(op);
    let fk = table_keys(s.fresh);
    lemma_first_index(fk, op.id);
    lemma_first_index(table_keys(s.existing), op.id);
    if t.fresh.len() == s.fresh.len() + 1 {
        if i < s.fresh.len() {
            assert(fk[i] == s.fresh[i].key());
        }
        if j < s.fresh.len() {
            assert(fk[j] == s.fresh[j].key());
        }
    } else if t.fresh.len() == s.fresh.len() {
        assert(fk[i] == s.fresh[i].key());
        assert(fk[j] == s.fresh[j].key());
        assert(t.fresh[i].key() == s.fresh[i].key());
        assert(t.fresh[j].key() == s.fresh[j].key());
    } else {
        let d = first_index(fk, op.id).unwrap();
        let a = if i < d { i } else { i + 1 };
        let b = if j < d { j } else { j + 1 };
        assert(t.fresh[i] == s.fresh[a]);
        assert(t.fresh[j] == s.fresh[b]);
        assert(fk[a] == s.fresh[a].key());
        assert(fk[b] == s.fresh[b].key());
    }
}

/// Every state of a replay over a durable table is consistent.
pub proof fn lemma_replay_consistent(existing: Seq<MaterializedView>, first: u32, ops: Seq<OperationView>, n: nat)
    requires
        durable_table(existing),
    ensures
        consistent(ReplayState::start(existing, first).replay(ops, n), existing),
    decreases n,
{
    let start = ReplayState::start(existing, first);
    if n == 0 {
        assert(distinct(table_keys(start.fresh)));
    } else {
        lemma_replay_consistent(existing, first, ops, (n - 1) as nat);
        lemma_step_consistent(start.replay(ops, (n - 1) as nat), existing, ops[n - 1]);
    }
}

/// `d` is the last operation of the batch on `id`, and it is a delete.
pub open spec fn ends_in_delete(ops: Seq<OperationView>, id: Seq<char>, d: int) -> bool {
    &&& 0 <= d < ops.len()
    &&& ops[d].id == id
    &&& ops[d].operation == Operation::Delete
    &&& forall|k: int| d < k < ops.len() ==> (#[trigger] ops[k]).id != id
}

proof fn lemma_existing_keys(s: ReplayState, origin: Seq<MaterializedView>, i: int)
    requires
        consistent(s, origin),
        0 <= i < origin.len(),
    ensures
        s.existing[i].key() == origin[i].key(),
        table_keys(s.existing)[i] == origin[i].key(),
{
    assert(s.existing[i].origin == origin[i].origin);
    assert(origin[i].origin is Some);
}

proof fn lemma_cancelled(
    existing: Seq<MaterializedView>,
    first: u32,
    ops: Seq<OperationView>,
    id: Seq<char>,
    d: int,
    n: nat,
)
    requires
        durable_table(existing),
        absent(existing, id),
        ends_in_delete(ops, id, d),
        d < n <= ops.len(),
    ensures
        ({
            let s = ReplayState::start(existing, first).replay(ops, n);
            s.failure is None ==> absent(s.existing, id) && absent(s.fresh, id)
        }),
    decreases n,
{
    let start = ReplayState::start(existing, first);
    let before = start.replay(ops, (n - 1) as nat);
    let op = ops[n - 1];
    let s = before.step(op);
    lemma_replay_consistent(existing, first, ops, (n - 1) as nat);
    lemma_replay_consistent(existing, first, ops, n);
    if s.failure is None {
        assert forall|i: int| 0 <= i < s.existing.len() implies (#[trigger] s.existing[i]).key()
            != id by {
            lemma_existing_keys(s, existing, i);
        }
        lemma_first_index(table_keys(before.fresh), op.id);
        lemma_first_index(table_keys(before.existing), op.id);
        if n == d + 1 {
            assert forall|i: int| 0 <= i < before.existing.len() implies table_keys(
                before.existing,
            )[i] != id by {
                lemma_existing_keys(before, existing, i);
            }
            match first_index(table_keys(before.fresh), id) {
                Some(at) => {
                    assert forall|j: int| 0 <= j < s.fresh.len() implies (#[trigger] s.fresh[j]).key()
                        != id by {
                        let from = if j < at { j } else { j + 1 };
                        assert(s.fresh[j] == before.fresh[from]);
                        assert(table_keys(before.fresh)[from] == before.fresh[from].key());
                    }
                },
                None => {
                    assert(s.fresh == before.fresh);
                    assert forall|j: int| 0 <= j < s.fresh.len() implies (#[trigger] s.fresh[j]).key()
                        != id by {
                        assert(table_keys(before.fresh)[j] == before.fresh[j].key());
                    }
                },
            }
        } else {
            lemma_cancelled(existing, first, ops, id, d, (n - 1) as nat);
            assert forall|j: int| 0 <= j < s.fresh.len() implies (#[trigger] s.fresh[j]).key()
                != id by {
                lemma_fresh_keys(before, op, j);
            }
        }
    }
}

/// An identifier that was not durable and whose last operation in the batch
/// is a delete has no record in the output, whatever came before the delete.
pub proof fn law_delete_cancels_insert(
    existing: Seq<MaterializedView>,
    first: u32,
    ops: Seq<OperationView>,
    id: Seq<char>,
    d: int,
)
    requires
        durable_table(existing),
        absent(existing, id),
        ends_in_delete(ops, id, d),
    ensures
        match ReplayState::start(existing, first).replay(ops, ops.len()).outcome() {
            Ok(records) => absent(records, id),
            Err(_) => true,
        },
{
    lemma_cancelled(existing, first, ops, id, d, ops.len());
}

proof fn lemma_deleted(
    existing: Seq<MaterializedView>,
    first: u32,
    ops: Seq<OperationView>,
    id: Seq<char>,
    at: int,
    d: int,
    n: nat,
)
    requires
        durable_table(existing),
        0 <= at < existing.len(),
        existing[at].key() == id,
        ends_in_delete(ops, id, d),
        d < n <= ops.len(),
    ensures
        ({
            let s = ReplayState::start(existing, first).replay(ops, n);
            s.failure is None ==> s.existing[at] == existing[at].deleted() && absent(s.fresh, id)
        }),
    decreases n,
{
    let start = ReplayState::start(existing, first);
    let before = start.replay(ops, (n - 1) as nat);
    let op = ops[n - 1];
    let s = before.step(op);
    lemma_replay_consistent(existing, first, ops, (n - 1) as nat);
    lemma_replay_consistent(existing, first, ops, n);
    if s.failure is None {
        lemma_existing_keys(s, existing, at);
        lemma_existing_keys(before, existing, at);
        assert forall|j: int| 0 <= j < s.fresh.len() implies (#[trigger] s.fresh[j]).key()
            != id by {
            assert(s.existing[at].key() != s.fresh[j].key());
        }
        let keys = table_keys(before.existing);
        lemma_first_index(table_keys(before.fresh), op.id);
        lemma_first_index(keys, op.id);
        assert(distinct(keys)) by {
            assert forall|i: int, j: int| 0 <= i < j < keys.len() implies keys[i] != keys[j] by {
                lemma_existing_keys(before, existing, i);
                lemma_existing_keys(before, existing, j);
                assert(table_keys(existing)[i] != table_keys(existing)[j]);
            }
        }
        if n == d + 1 {
            assert(first_index(table_keys(before.fresh), id) is None) by {
                if first_index(table_keys(before.fresh), id) is Some {
                    let j = first_index(table_keys(before.fresh), id).unwrap();
                    assert(before.existing[at].key() != before.fresh[j].key());
                }
            }
            crate::keyed::lemma_distinct_first(keys, id, at);
            assert(before.existing[at].origin == existing[at].origin);
            assert(before.existing[at].offset_id == existing[at].offset_id);
        } else {
            lemma_deleted(existing, first, ops, id, at, d, (n - 1) as nat);
            assert(s.existing[at] == before.existing[at]);
        }
    }
}

/// A durable identifier whose last operation in the batch is a delete has
/// exactly one record in the output: the one at its place in the durable
/// table, with its origin and its offset, the delete as net operation and
/// no payload.
pub proof fn law_durable_delete_keeps_offset(
    existing: Seq<MaterializedView>,
    first: u32,
    ops: Seq<OperationView>,
    id: Seq<char>,
    at: int,
    d: int,
)
    requires
        durable_table(existing),
        0 <= at < existing.len(),
        existing[at].key() == id,
        ends_in_delete(ops, id, d),
    ensures
        match ReplayState::start(existing, first).replay(ops, ops.len()).outcome() {
            Ok(records) => {
                &&& at < records.len()
                &&& records[at] == existing[at].deleted()
                &&& records[at].offset_id == existing[at].offset_id
                &&& records[at].final_operation == Operation::Delete
                &&& records[at].merged_metadata is None
                &&& records[at].final_document is None
                &&& records[at].final_embedding is None
                &&& forall|i: int| 0 <= i < records.len() && i != at ==> (#[trigger] records[i]).key() != id
            },
            Err(_) => true,
        },
{
    let s = ReplayState::start(existing, first).replay(ops, ops.len());
    lemma_deleted(existing, first, ops, id, at, d, ops.len());
    lemma_replay_consistent(existing, first, ops, ops.len());
    if s.failure is None {
        let records = s.existing + s.fresh;
        assert forall|i: int| 0 <= i < records.len() && i != at implies (#[trigger] records[i]).key()
            != id by {
            if i < s.existing.len() {
                lemma_existing_keys(s, existing, i);
                assert(table_keys(existing)[i] != table_keys(existing)[at]);
            } else {
                assert(records[i] == s.fresh[i - s.existing.len()]);
            }
        }
    }
}

/// A record that the batch introduces stays an insert, whatever updates and
/// upserts follow it: every record of the output either has a durable origin
/// or has `Add` as its net operation and carries its identifier. No identifier
/// has two records.
pub proof fn law_fresh_records_stay_inserts(
    existing: Seq<MaterializedView>,
    first: u32,
    ops: Seq<OperationView>,
)
    requires
        durable_table(existing),
    ensures
        match ReplayState::start(existing, first).replay(ops, ops.len()).outcome() {
            Ok(records) => {
                &&& forall|i: int|
                    0 <= i < records.len() ==> {
                        let r = #[trigger] records[i];
                        r.origin is Some || (r.final_operation == Operation::Add && r.user_id
                            == Some(r.key()))
                    }
                &&& distinct(table_keys(records))
            },
            Err(_) => true,
        },
{
    let s = ReplayState::start(existing, first).replay(ops, ops.len());
    lemma_replay_consistent(existing, first, ops, ops.len());
    if s.failure is None {
        let records = s.existing + s.fresh;
        let n = s.existing.len();
        assert forall|i: int| 0 <= i < records.len() implies {
            let r = #[trigger] records[i];
            r.origin is Some || (r.final_operation == Operation::Add && r.user_id == Some(r.key()))
        } by {
            if i < n {
                lemma_existing_keys(s, existing, i);
            } else {
                assert(records[i] == s.fresh[i - n]);
            }
        }
        assert forall|i: int, j: int| 0 <= i < j < records.len() implies table_keys(records)[i]
            != table_keys(records)[j] by {
            if j < n {
                lemma_existing_keys(s, existing, i);
                lemma_existing_keys(s, existing, j);
                assert(table_keys(existing)[i] != table_keys(existing)[j]);
            } else if i < n {
                assert(records[j] == s.fresh[j - n]);
                assert(s.existing[i].key() != s.fresh[j - n].key());
            } else {
                assert(records[i] == s.fresh[i - n]);
                assert(records[j] == s.fresh[j - n]);
                assert(table_keys(s.fresh)[i - n] != table_keys(s.fresh)[j - n]);
            }
        }
    }
}

/// An update or a delete of an identifier that has no record, durable or
/// fresh, changes nothing and raises no error.
pub proof fn law_unknown_identifier_ignored(s: ReplayState, op: OperationView)
    requires
        absent(s.existing, op.id),
        absent(s.fresh, op.id),
        op.operation == Operation::Update || op.operation == Operation::Delete,
    ensures
        s.step(op) == s,
{
    assert forall|j: int| 0 <= j < s.existing.len() implies table_keys(s.existing)[j] != op.id by {
        assert(s.existing[j].key() != op.id);
    }
    assert forall|j: int| 0 <= j < s.fresh.len() implies table_keys(s.fresh)[j] != op.id by {
        assert(s.fresh[j].key() != op.id);
    }
    lemma_first_index_absent(table_keys(s.existing), op.id);
    lemma_first_index_absent(table_keys(s.fresh), op.id);
}

proof fn lemma_step_offsets(s: ReplayState, op: OperationView, first: u32)
    requires
        offsets_in_order(s, first),
        s.next_offset < u32::MAX,
    ensures
        offsets_in_order(s.step(op), first),
        s.step(op).next_offset <= s.next_offset + 1,
{
    let t = s.step(op);
    lemma_first_index(table_keys(s.fresh), op.id);
    lemma_first_index(table_keys(s.existing), op.id);
    assert forall|i: int| 0 <= i < t.existing.len() implies (#[trigger] t.existing[i]).offset_id
        < first by {
        assert(s.existing[i].offset_id < first);
    }
    if t.fresh.len() == s.fresh.len() + 1 {
        assert forall|j: int| 0 <= j < t.fresh.len() implies first <= (#[trigger] t.fresh[j]).offset_id
            < t.next_offset by {
            if j < s.fresh.len() {
                assert(t.fresh[j] == s.fresh[j]);
            }
        }
        assert forall|j: int, k: int| 0 <= j < k < t.fresh.len() implies (#[trigger] t.fresh[j]).offset_id
            < (#[trigger] t.fresh[k]).offset_id by {
            assert(t.fresh[j] == s.fresh[j]);
            if k < s.fresh.len() {
                assert(t.fresh[k] == s.fresh[k]);
            }
        }
    } else if t.fresh.len() == s.fresh.len() {
        assert forall|j: int| 0 <= j < t.fresh.len() implies first <= (#[trigger] t.fresh[j]).offset_id
            < t.next_offset && t.fresh[j].offset_id == s.fresh[j].offset_id by {
            assert(first <= s.fresh[j].offset_id < s.next_offset);
        }
        assert forall|j: int, k: int| 0 <= j < k < t.fresh.len() implies (#[trigger] t.fresh[j]).offset_id
            < (#[trigger] t.fresh[k]).offset_id by {
            assert(s.fresh[j].offset_id < s.fresh[k].offset_id);
            assert(t.fresh[j].offset_id == s.fresh[j].offset_id);
            assert(t.fresh[k].offset_id == s.fresh[k].offset_id);
        }
    } else {
        let d = first_index(table_keys(s.fresh), op.id).unwrap();
        assert forall|j: int| 0 <= j < t.fresh.len() implies first <= (#[trigger] t.fresh[j]).offset_id
            < t.next_offset by {
            let from = if j < d { j } else { j + 1 };
            assert(t.fresh[j] == s.fresh[from]);
        }
        assert forall|j: int, k: int| 0 <= j < k < t.fresh.len() implies (#[trigger] t.fresh[j]).offset_id
            < (#[trigger] t.fresh[k]).offset_id by {
            let a = if j < d { j } else { j + 1 };
            let b = if k < d { k } else { k + 1 };
            assert(t.fresh[j] == s.fresh[a]);
            assert(t.fresh[k] == s.fresh[b]);
        }
    }
}

proof fn lemma_replay_offsets(
    existing: Seq<MaterializedView>,
    first: u32,
    ops: Seq<OperationView>,
    n: nat,
)
    requires
        forall|i: int| 0 <= i < existing.len() ==> (#[trigger] existing[i]).offset_id < first,
        first + n <= u32::MAX,
    ensures
        offsets_in_order(ReplayState::start(existing, first).replay(ops, n), first),
        ReplayState::start(existing, first).replay(ops, n).next_offset <= first + n,
    decreases n,
{
    if n > 0 {
        lemma_replay_offsets(existing, first, ops, (n - 1) as nat);
        lemma_step_offsets(ReplayState::start(existing, first).replay(ops, (n - 1) as nat), ops[n - 1], first);
    }
}

/// Where the durable offsets differ from one another and lie below the
/// allocator's first offset, and the allocator cannot wrap within the batch,
/// no two records of the output share an offset, and every record that the
/// batch introduces has an offset from the allocator's first one on, above
/// every durable offset.
pub proof fn law_offsets_unique(existing: Seq<MaterializedView>, first: u32, ops: Seq<OperationView>)
    requires
        durable_table(existing),
        forall|i: int, j: int|
            0 <= i < j < existing.len() ==> (#[trigger] existing[i]).offset_id != (
            #[trigger] existing[j]).offset_id,
        forall|i: int| 0 <= i < existing.len() ==> (#[trigger] existing[i]).offset_id < first,
        first + ops.len() <= u32::MAX,
    ensures
        match ReplayState::start(existing, first).replay(ops, ops.len()).outcome() {
            Ok(records) => {
                &&& forall|i: int, j: int|
                    0 <= i < j < records.len() ==> (#[trigger] records[i]).offset_id != (
                    #[trigger] records[j]).offset_id
                &&& forall|i: int|
                    0 <= i < records.len() && (#[trigger] records[i]).origin is None
                        ==> records[i].offset_id >= first
                &&& forall|i: int, j: int|
                    0 <= i < records.len() && 0 <= j < existing.len() && (
                    #[trigger] records[i]).origin is None ==> records[i].offset_id > (
                    #[trigger] existing[j]).offset_id
                &&& forall|i: int, j: int|
                    0 <= i < j < records.len() && (#[trigger] records[i]).origin is None
                        ==> records[i].offset_id < (#[trigger] records[j]).offset_id
            },
            Err(_) => true,
        },
{
    let s = ReplayState::start(existing, first).replay(ops, ops.len());
    lemma_replay_consistent(existing, first, ops, ops.len());
    lemma_replay_offsets(existing, first, ops, ops.len());
    if s.failure is None {
        let records = s.existing + s.fresh;
        let n = s.existing.len();
        assert forall|i: int, j: int| 0 <= i < j < records.len() implies (#[trigger] records[i]).offset_id
            != (#[trigger] records[j]).offset_id by {
            if j < n {
                assert(s.existing[i].offset_id == existing[i].offset_id);
                assert(s.existing[j].offset_id == existing[j].offset_id);
            } else if i < n {
                assert(records[j] == s.fresh[j - n]);
                assert(s.existing[i].offset_id < first);
                assert(first <= s.fresh[j - n].offset_id);
            } else {
                assert(records[i] == s.fresh[i - n]);
                assert(records[j] == s.fresh[j - n]);
                assert(s.fresh[i - n].offset_id < s.fresh[j - n].offset_id);
            }
        }
        assert forall|i: int| 0 <= i < records.len() && (#[trigger] records[i]).origin is None implies records[i].offset_id
            >= first by {
            if i < n {
                assert(s.existing[i].origin == existing[i].origin);
            } else {
                assert(records[i] == s.fresh[i - n]);
            }
        }
    }
}

proof fn lemma_replay_deletes_cleared(
    existing: Seq<MaterializedView>,
    first: u32,
    ops: Seq<OperationView>,
    n: nat,
)
    requires
        durable_table(existing),
    ensures
        deletes_cleared(ReplayState::start(existing, first).replay(ops, n).existing),
    decreases n,
{
    let start = ReplayState::start(existing, first);
    if n > 0 {
        let before = start.replay(ops, (n - 1) as nat);
        let op = ops[n - 1];
        let s = before.step(op);
        lemma_replay_deletes_cleared(existing, first, ops, (n - 1) as nat);
        lemma_first_index(table_keys(before.existing), op.id);
        lemma_first_index(table_keys(before.fresh), op.id);
        assert forall|i: int| 0 <= i < s.existing.len() implies cleared_if_deleted(
            #[trigger] s.existing[i],
        ) by {
            assert(cleared_if_deleted(before.existing[i]));
        }
    }
}

/// Every record of the output whose net operation is a delete has a durable
/// origin and carries no metadata, no document, no embedding and no
/// identifier of its own.
pub proof fn law_deleted_records_are_cleared(
    existing: Seq<MaterializedView>,
    first: u32,
    ops: Seq<OperationView>,
)
    requires
        durable_table(existing),
    ensures
        match ReplayState::start(existing, first).replay(ops, ops.len()).outcome() {
            Ok(records) => forall|i: int|
                0 <= i < records.len() && (#[trigger] records[i]).final_operation
                    == Operation::Delete ==> records[i].origin is Some && cleared_if_deleted(
                    records[i],
                ),
            Err(_) => true,
        },
{
    let s = ReplayState::start(existing, first).replay(ops, ops.len());
    lemma_replay_consistent(existing, first, ops, ops.len());
    lemma_replay_deletes_cleared(existing, first, ops, ops.len());
    if s.failure is None {
        let records = s.existing + s.fresh;
        let n = s.existing.len();
        assert forall|i: int|
            0 <= i < records.len() && (#[trigger] records[i]).final_operation
                == Operation::Delete implies records[i].origin is Some && cleared_if_deleted(
            records[i],
        ) by {
            if i < n {
                lemma_existing_keys(s, existing, i);
                assert(cleared_if_deleted(s.existing[i]));
                assert(s.existing[i].origin == existing[i].origin);
            } else {
                assert(records[i] == s.fresh[i - n]);
            }
        }
    }
}

/// The operation can insert: it carries an embedding, and its metadata holds
/// no tombstone.
pub open spec fn can_insert(op: OperationView) -> bool {
    &&& op.embedding is Some
    &&& op.metadata is Some ==> all_storable(op.metadata.unwrap())
}

proof fn lemma_replay_succeeds(
    existing: Seq<MaterializedView>,
    first: u32,
    ops: Seq<OperationView>,
    n: nat,
)
    requires
        n <= ops.len(),
        forall|i: int|
            0 <= i < ops.len() && ((#[trigger] ops[i]).operation == Operation::Add
                || ops[i].operation == Operation::Upsert) ==> can_insert(ops[i]),
    ensures
        ReplayState::start(existing, first).replay(ops, n).failure is None,
    decreases n,
{
    if n > 0 {
        lemma_replay_succeeds(existing, first, ops, (n - 1) as nat);
        assert(ops[n - 1].operation == Operation::Add || ops[n - 1].operation == Operation::Upsert
            ==> can_insert(ops[n - 1]));
    }
}

/// A batch in which every add and every upsert can insert is materialized
/// without error. Updates and deletes never fail.
pub proof fn law_complete_inserts_succeed(
    existing: Seq<MaterializedView>,
    first: u32,
    ops: Seq<OperationView>,
)
    requires
        forall|i: int|
            0 <= i < ops.len() && ((#[trigger] ops[i]).operation == Operation::Add
                || ops[i].operation == Operation::Upsert) ==> can_insert(ops[i]),
    ensures
        ReplayState::start(existing, first).replay(ops, ops.len()).outcome() is Ok,
{
    lemma_replay_succeeds(existing, first, ops, ops.len());
}

/// A first insert that cannot insert stops the batch: where the operation
/// after a prefix that went through is an add or an upsert of an identifier
/// without a record, and it lacks an embedding or holds a tombstone, the
/// batch fails, and with the error of that operation.
pub proof fn law_incomplete_insert_fails(
    existing: Seq<MaterializedView>,
    first: u32,
    ops: Seq<OperationView>,
    n: nat,
)
    requires
        n < ops.len(),
        ReplayState::start(existing, first).replay(ops, n).failure is None,
        absent(ReplayState::start(existing, first).replay(ops, n).existing, ops[n as int].id),
        absent(ReplayState::start(existing, first).replay(ops, n).fresh, ops[n as int].id),
        ops[n as int].operation == Operation::Add || ops[n as int].operation == Operation::Upsert,
        !can_insert(ops[n as int]),
    ensures
        ReplayState::start(existing, first).replay(ops, ops.len()).outcome() is Err,
        MaterializedView::inserted(
            ops[n as int],
            ReplayState::start(existing, first).replay(ops, n).next_offset,
            ops[n as int].id,
        ) == Err::<MaterializedView, LogMaterializerV2Error>(
            ReplayState::start(existing, first).replay(ops, ops.len()).failure.unwrap(),
        ),
{
    let start = ReplayState::start(existing, first);
    let s = start.replay(ops, n);
    let op = ops[n as int];
    assert forall|j: int| 0 <= j < s.existing.len() implies table_keys(s.existing)[j] != op.id by {
        assert(s.existing[j].key() != op.id);
    }
    assert forall|j: int| 0 <= j < s.fresh.len() implies table_keys(s.fresh)[j] != op.id by {
        assert(s.fresh[j].key() != op.id);
    }
    lemma_first_index_absent(table_keys(s.existing), op.id);
    lemma_first_index_absent(table_keys(s.fresh), op.id);
    assert(start.replay(ops, (n + 1) as nat) == s.step(op));
    crate::materializer::lemma_failure_sticks(start, ops, (n + 1) as nat, ops.len());
}

} // verus!
