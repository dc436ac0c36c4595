//! Replaying decoded batches into a table's rows.
use vstd::prelude::*;
use crate::cell::{CellModel, KeyModel, cells_model};
use crate::error::StorageError;
use crate::journal::{BatchModel, EventKindModel, EventModel};
use crate::persist::Row;
use crate::restore::{
    DataBatchRestoreDriver, DecodedBatchEvent, DecodedBatchEventKind, NormalBatch, batches_model,
    events_model, restore_from, written_for,
};

verus! {

/// What a table holds under a key.
pub struct RowModel {
    pub fields: Seq<CellModel>,
    pub schema_version: u64,
    pub txn_revised: u64,
}

pub open spec fn row_model(r: Row) -> RowModel {
    RowModel {
        fields: cells_model(r.fields@),
        schema_version: r.schema_version,
        txn_revised: r.txn_revised,
    }
}

/// The rows of a table; no two share a key.
pub struct RowTable {
    pub rows: Vec<Row>,
}

pub open spec fn keys_distinct(rows: Seq<Row>) -> bool {
    forall|i: int, j: int|
        0 <= i < j < rows.len() ==> (#[trigger] rows[i]).pk.model() != (#[trigger] rows[j]).pk.model()
}

pub open spec fn has_key(rows: Seq<Row>, k: KeyModel) -> bool {
    exists|i: int| 0 <= i < rows.len() && (#[trigger] rows[i]).pk.model() == k
}

/// The table as a map from keys to rows.
pub open spec fn table_view(rows: Seq<Row>) -> Map<KeyModel, RowModel> {
    Map::new(
        |k: KeyModel| has_key(rows, k),
        |k: KeyModel|
            row_model(rows[choose|i: int| 0 <= i < rows.len() && (#[trigger] rows[i]).pk.model() == k]),
    )
}

/// One event applied to a table: a delete removes the key (nothing happens
/// where it is absent); an insert or update stores the row under the key,
/// stamped with the batch's schema version and the event's transaction.
pub open spec fn apply_event_spec(m: Map<KeyModel, RowModel>, e: EventModel, schema_version: u64) -> Map<
    KeyModel,
    RowModel,
> {
    match e.kind {
        EventKindModel::Delete => m.remove(e.pk),
        EventKindModel::Insert(v) => m.insert(
            e.pk,
            RowModel { fields: v, schema_version, txn_revised: e.txn_id },
        ),
        EventKindModel::Update(v) => m.insert(
            e.pk,
            RowModel { fields: v, schema_version, txn_revised: e.txn_id },
        ),
    }
}

pub open spec fn apply_events_spec(m: Map<KeyModel, RowModel>, es: Seq<EventModel>, schema_version: u64) -> Map<
    KeyModel,
    RowModel,
>
    decreases es.len(),
{
    if es.len() == 0 {
        m
    } else {
        apply_event_spec(apply_events_spec(m, es.drop_last(), schema_version), es.last(), schema_version)
    }
}

/// The batches applied in order.
pub open spec fn apply_batches_spec(m: Map<KeyModel, RowModel>, bs: Seq<BatchModel>) -> Map<
    KeyModel,
    RowModel,
>
    decreases bs.len(),
{
    if bs.len() == 0 {
        m
    } else {
        let prev = apply_batches_spec(m, bs.drop_last());
        apply_events_spec(prev, bs.last().events, bs.last().schema_version)
    }
}

proof fn lemma_view_at(rows: Seq<Row>, i: int)
    requires
        keys_distinct(rows),
        0 <= i < rows.len(),
    ensures
        table_view(rows).contains_key(rows[i].pk.model()),
        table_view(rows)[rows[i].pk.model()] == row_model(rows[i]),
{
    let k = rows[i].pk.model();
    assert(has_key(rows, k));
    let j = choose|j: int| 0 <= j < rows.len() && (#[trigger] rows[j]).pk.model() == k;
    if j != i {
        if j < i {
            assert(rows[j].pk.model() != rows[i].pk.model());
        } else {
            assert(rows[i].pk.model() != rows[j].pk.model());
        }
    }
}

fn find_key(rows: &Vec<Row>, k: &crate::cell::PrimaryIndexKey) -> (r: Option<usize>)
    ensures
        match r {
            Some(i) => i < rows.len() && rows@[i as int].pk.model() == k.model(),
            None => !has_key(rows@, k.model()),
        },
{
    let mut i: usize = 0;
    while i < rows.len()
        invariant
            i <= rows.len(),
            forall|j: int| 0 <= j < i ==> (#[trigger] rows@[j]).pk.model() != k.model(),
        decreases rows.len() - i,
    {
        if rows[i].pk.same(k) {
            return Some(i);
        }
        i += 1;
    }
    None
}

impl RowTable {
    pub fn new() -> (r: RowTable)
        ensures
            r.rows@ == Seq::<Row>::empty(),
    {
        RowTable { rows: Vec::new() }
    }

    pub open spec fn wf(&self) -> bool {
        keys_distinct(self.rows@)
    }

    pub open spec fn view(&self) -> Map<KeyModel, RowModel> {
        table_view(self.rows@)
    }

    fn remove_at(&mut self, i: usize)
        requires
            old(self).wf(),
            i < old(self).rows.len(),
        ensures
            final(self).wf(),
            final(self).view() == old(self).view().remove(old(self).rows@[i as int].pk.model()),
    {
        let ghost old_rows = self.rows@;
        let ghost k = old_rows[i as int].pk.model();
        self.rows.remove(i);
        proof {
            let rows = self.rows@;
            assert forall|a: int, b: int| 0 <= a < b < rows.len() implies (#[trigger] rows[a]).pk.model()
                != (#[trigger] rows[b]).pk.model() by {
                let oa = if a < i { a } else { a + 1 };
                let ob = if b < i { b } else { b + 1 };
                assert(rows[a] == old_rows[oa]);
                assert(rows[b] == old_rows[ob]);
            }
            let target = table_view(old_rows).remove(k);
            assert forall|key: KeyModel| #[trigger] table_view(rows).contains_key(key) == target.contains_key(key) by {
                if has_key(rows, key) {
                    let a = choose|a: int| 0 <= a < rows.len() && (#[trigger] rows[a]).pk.model() == key;
                    let oa = if a < i { a } else { a + 1 };
                    assert(rows[a] == old_rows[oa]);
                    assert(has_key(old_rows, key));
                    if key == k {
                        assert(old_rows[oa].pk.model() == old_rows[i as int].pk.model());
                    }
                }
                if target.contains_key(key) {
                    let a = choose|a: int| 0 <= a < old_rows.len() && (#[trigger] old_rows[a]).pk.model() == key;
                    assert(a != i);
                    let na = if a < i { a } else { a - 1 };
                    assert(rows[na] == old_rows[a]);
                }
            }
            assert forall|key: KeyModel| #[trigger] table_view(rows).contains_key(key) implies table_view(rows)[key] == target[key] by {
                let a = choose|a: int| 0 <= a < rows.len() && (#[trigger] rows[a]).pk.model() == key;
                let oa = if a < i { a } else { a + 1 };
                assert(rows[a] == old_rows[oa]);
                lemma_view_at(rows, a);
                lemma_view_at(old_rows, oa);
            }
            assert(table_view(rows) =~= target);
        }
    }

    fn put(&mut self, row: Row)
        requires
            old(self).wf(),
            !has_key(old(self).rows@, row.pk.model()),
        ensures
            final(self).wf(),
            final(self).view() == old(self).view().insert(row.pk.model(), row_model(row)),
    {
        let ghost old_rows = self.rows@;
        let ghost k = row.pk.model();
        let ghost rm = row_model(row);
        self.rows.push(row);
        proof {
            let rows = self.rows@;
            let n = old_rows.len() as int;
            assert(rows[n].pk.model() == k);
            assert forall|a: int, b: int| 0 <= a < b < rows.len() implies (#[trigger] rows[a]).pk.model()
                != (#[trigger] rows[b]).pk.model() by {
                if b == n {
                    assert(rows[a] == old_rows[a]);
                } else {
                    assert(rows[a] == old_rows[a]);
                    assert(rows[b] == old_rows[b]);
                }
            }
            let target = table_view(old_rows).insert(k, rm);
            assert forall|key: KeyModel| #[trigger] table_view(rows).contains_key(key) == target.contains_key(key) by {
                if has_key(rows, key) {
                    let a = choose|a: int| 0 <= a < rows.len() && (#[trigger] rows[a]).pk.model() == key;
                    if a < n {
                        assert(rows[a] == old_rows[a]);
                        assert(has_key(old_rows, key));
                    }
                }
                if has_key(old_rows, key) {
                    let a = choose|a: int| 0 <= a < old_rows.len() && (#[trigger] old_rows[a]).pk.model() == key;
                    assert(rows[a] == old_rows[a]);
                }
                if key == k {
                    assert(has_key(rows, key));
                }
            }
            assert forall|key: KeyModel| #[trigger] table_view(rows).contains_key(key) implies table_view(rows)[key] == target[key] by {
                let a = choose|a: int| 0 <= a < rows.len() && (#[trigger] rows[a]).pk.model() == key;
                lemma_view_at(rows, a);
                if a < n {
                    assert(rows[a] == old_rows[a]);
                    lemma_view_at(old_rows, a);
                }
            }
            assert(table_view(rows) =~= target);
        }
    }

    /// Applies one event: see `apply_event_spec`.
    pub fn apply_event(&mut self, e: DecodedBatchEvent, schema_version: u64)
        requires
            old(self).wf(),
        ensures
            final(self).wf(),
            final(self).view() == apply_event_spec(old(self).view(), e.model(), schema_version),
    {
        let ghost em = e.model();
        let found = find_key(&self.rows, &e.pk);
        match found {
            Some(i) => {
                self.remove_at(i);
            },
            None => {
                proof {
                    assert(table_view(self.rows@).remove(em.pk) =~= table_view(self.rows@));
                }
            },
        }
        proof {
            assert(!has_key(self.rows@, em.pk)) by {
                if has_key(self.rows@, em.pk) {
                    assert(self.view().contains_key(em.pk));
                }
            }
        }
        let DecodedBatchEvent { txn_id, pk, kind } = e;
        match kind {
            DecodedBatchEventKind::Delete => {},
            DecodedBatchEventKind::Insert(fields) => {
                self.put(Row { pk, fields, schema_version, txn_revised: txn_id });
                proof {
                    assert(table_view(old(self).rows@).remove(em.pk).insert(em.pk, row_model(Row { pk, fields, schema_version, txn_revised: txn_id })) =~= table_view(old(self).rows@).insert(em.pk, row_model(Row { pk, fields, schema_version, txn_revised: txn_id })));
                }
            },
            DecodedBatchEventKind::Update(fields) => {
                self.put(Row { pk, fields, schema_version, txn_revised: txn_id });
                proof {
                    assert(table_view(old(self).rows@).remove(em.pk).insert(em.pk, row_model(Row { pk, fields, schema_version, txn_revised: txn_id })) =~= table_view(old(self).rows@).insert(em.pk, row_model(Row { pk, fields, schema_version, txn_revised: txn_id })));
                }
            },
        }
    }
}

impl DataBatchRestoreDriver {
    /// Applies the events of a batch to `table`, in order.
    pub fn apply_batch(table: &mut RowTable, batch: NormalBatch)
        requires
            old(table).wf(),
        ensures
            final(table).wf(),
            final(table).view() == apply_events_spec(
                old(table).view(),
                batch.model().events,
                batch.schema_version,
            ),
    {
        let ghost es = batch.model().events;
        let NormalBatch { mut events, schema_version } = batch;
        let ghost mut done: int = 0;
        proof {
            assert(events_model(events@) =~= es.skip(0));
            assert(es.take(0) =~= Seq::<EventModel>::empty());
        }
        while events.len() > 0
            invariant
                table.wf(),
                0 <= done <= es.len(),
                events_model(events@) == es.skip(done),
                table.view() == apply_events_spec(old(table).view(), es.take(done), schema_version),
            decreases events.len(),
        {
            let ghost before = events@;
            let e = events.remove(0);
            proof {
                assert(events_model(before).len() == before.len());
                assert(es.skip(done).len() == es.len() - done);
                assert(done < es.len());
                assert(e.model() == events_model(before)[0]);
                assert(es.take(done + 1).drop_last() =~= es.take(done));
                assert(es.take(done + 1).last() == es[done]);
                assert(es.skip(done)[0] == es[done]);
            }
            table.apply_event(e, schema_version);
            proof {
                assert(events@ =~= before.subrange(1, before.len() as int));
                assert forall|i: int| 0 <= i < events@.len() implies #[trigger] events_model(events@)[i]
                    == es.skip(done + 1)[i] by {
                    assert(events_model(events@)[i] == events_model(before)[i + 1]);
                }
                assert(events_model(events@) =~= es.skip(done + 1));
                done = done + 1;
            }
        }
        assert(es.take(done) =~= es);
    }

    /// Reads every batch of the journal (see `read_all_batches`) and, only
    /// when the whole read succeeds, applies each batch to `table` in order;
    /// a failed read leaves `table` as it was.
    pub fn read_data_batch_into_model(&mut self, table: &mut RowTable) -> (r: Result<(), StorageError>)
        requires
            old(self).wf(),
            old(table).wf(),
        ensures
            final(table).wf(),
            match restore_from(old(self).bytes(), old(self).position(), Seq::empty()) {
                Ok(bs) => r is Ok && final(table).view() == apply_batches_spec(old(table).view(), bs),
                Err(e) => r == Err::<(), StorageError>(e) && final(table).view() == old(table).view(),
            },
            forall|bs: Seq<BatchModel>|
                old(self).position() == 0 && #[trigger] written_for(old(self).bytes(), bs) ==> r is Ok
                    && final(table).view() == apply_batches_spec(old(table).view(), bs),
    {
        let mut batches = match self.read_all_batches() {
            Ok(b) => b,
            Err(e) => {
                return Err(e);
            },
        };
        let ghost bs = batches_model(batches@);
        let ghost mut done: int = 0;
        proof {
            assert(batches_model(batches@) =~= bs.skip(0));
            assert(bs.take(0) =~= Seq::<BatchModel>::empty());
        }
        while batches.len() > 0
            invariant
                table.wf(),
                0 <= done <= bs.len(),
                batches_model(batches@) == bs.skip(done),
                table.view() == apply_batches_spec(old(table).view(), bs.take(done)),
            decreases batches.len(),
        {
            let ghost before = batches@;
            let b = batches.remove(0);
            proof {
                assert(batches_model(before).len() == before.len());
                assert(bs.skip(done).len() == bs.len() - done);
                assert(done < bs.len());
                assert(b.model() == batches_model(before)[0]);
                assert(bs.take(done + 1).drop_last() =~= bs.take(done));
                assert(bs.take(done + 1).last() == bs[done]);
                assert(bs.skip(done)[0] == bs[done]);
            }
            Self::apply_batch(table, b);
            proof {
                assert(batches@ =~= before.subrange(1, before.len() as int));
                assert forall|i: int| 0 <= i < batches@.len() implies #[trigger] batches_model(batches@)[i]
                    == bs.skip(done + 1)[i] by {
                    assert(batches_model(batches@)[i] == batches_model(before)[i + 1]);
                }
                assert(batches_model(batches@) =~= bs.skip(done + 1));
                done = done + 1;
            }
        }
        assert(bs.take(done) =~= bs);
        Ok(())
    }
}

} // verus!
