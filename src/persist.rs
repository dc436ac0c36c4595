//! Rows, the delta queue, and writing batches to the journal.
use vstd::prelude::*;
use vstd::bytes::u64_to_le_bytes;
use crate::restore::{lemma_events_push, written_for};
use crate::cell::{Datacell, PrimaryIndexKey, cells_model, key_wf, lemma_list_model};
use crate::journal::{
    BatchModel, DSCR_BIN, DSCR_BOOL, DSCR_FLOAT, DSCR_LIST, DSCR_NULL, DSCR_SINT, DSCR_STR,
    DSCR_UINT, EventKindModel, EventModel, KEY_BIN, KEY_SINT, KEY_STR, KEY_UINT, KIND_DELETE,
    KIND_INSERT, KIND_UPDATE, MARKER_ACTUAL_BATCH_EVENT, MARKER_BATCH_CLOSED, MARKER_BATCH_REOPEN,
    MARKER_END_OF_BATCH, batch_wf, cell_encs, checksum, checksum_add, enc_batch, enc_batch_body,
    enc_cell, enc_cells, enc_event, enc_events, enc_key, event_encs, event_wf,
    journal_wf, le, row_wf,
};

verus! {

/// What a row change was.
#[derive(Clone, Copy, Debug, PartialEq, Eq, Structural)]
pub enum DataDeltaKind {
    Delete,
    Insert,
    Update,
}

/// A row: its key, its non-key cells in schema order, and the versions of its
/// last revision.
#[derive(Debug)]
pub struct Row {
    pub pk: PrimaryIndexKey,
    pub fields: Vec<Datacell>,
    pub schema_version: u64,
    pub txn_revised: u64,
}

/// One queued change of the row at index `row` of the row table.
#[derive(Clone, Copy, Debug, PartialEq, Eq, Structural)]
pub struct DataDelta {
    pub schema_version: u64,
    pub txn_id: u64,
    pub row: usize,
    pub kind: DataDeltaKind,
}

impl Row {
    pub fn new(pk: PrimaryIndexKey, fields: Vec<Datacell>, schema_version: u64, txn_revised: u64) -> (r: Row)
        ensures
            r.pk == pk,
            r.fields == fields,
            r.schema_version == schema_version,
            r.txn_revised == txn_revised,
    {
        Row { pk, fields, schema_version, txn_revised }
    }
}

impl DataDelta {
    pub fn new(schema_version: u64, txn_id: u64, row: usize, kind: DataDeltaKind) -> (r: DataDelta)
        ensures
            r == (DataDelta { schema_version, txn_id, row, kind }),
    {
        DataDelta { schema_version, txn_id, row, kind }
    }
}

/// A delta is written unless its row was revised by a later transaction
/// before the snapshot was taken.
pub open spec fn survives(rows: Seq<Row>, d: DataDelta) -> bool {
    d.txn_id >= rows[d.row as int].txn_revised
}

/// The event that a delta is written as: the row's current cells.
pub open spec fn delta_event(rows: Seq<Row>, d: DataDelta) -> EventModel {
    let row = rows[d.row as int];
    EventModel {
        txn_id: d.txn_id,
        pk: row.pk.model(),
        kind: match d.kind {
            DataDeltaKind::Delete => EventKindModel::Delete,
            DataDeltaKind::Insert => EventKindModel::Insert(cells_model(row.fields@)),
            DataDeltaKind::Update => EventKindModel::Update(cells_model(row.fields@)),
        },
    }
}

/// The events that a snapshot of deltas is written as, in queue order.
pub open spec fn persisted_events(rows: Seq<Row>, ds: Seq<DataDelta>) -> Seq<EventModel>
    decreases ds.len(),
{
    if ds.len() == 0 {
        Seq::empty()
    } else {
        let rest = persisted_events(rows, ds.drop_last());
        if survives(rows, ds.last()) {
            rest.push(delta_event(rows, ds.last()))
        } else {
            rest
        }
    }
}

pub open spec fn deltas_refer(rows: Seq<Row>, ds: Seq<DataDelta>) -> bool {
    forall|i: int| 0 <= i < ds.len() ==> (#[trigger] ds[i]).row < rows.len()
}

/// Rows whose keys and cells the journal can hold.
pub open spec fn rows_wf(rows: Seq<Row>) -> bool {
    forall|i: int|
        0 <= i < rows.len() ==> key_wf((#[trigger] rows[i]).pk.model()) && row_wf(
            cells_model(rows[i].fields@),
        )
}

proof fn lemma_persisted_len(rows: Seq<Row>, ds: Seq<DataDelta>)
    ensures
        persisted_events(rows, ds).len() <= ds.len(),
    decreases ds.len(),
{
    if ds.len() > 0 {
        lemma_persisted_len(rows, ds.drop_last());
    }
}

proof fn lemma_persisted_wf(rows: Seq<Row>, ds: Seq<DataDelta>)
    requires
        rows_wf(rows),
        deltas_refer(rows, ds),
    ensures
        forall|i: int|
            0 <= i < persisted_events(rows, ds).len() ==> event_wf(
                #[trigger] persisted_events(rows, ds)[i],
            ),
    decreases ds.len(),
{
    if ds.len() > 0 {
        let d = ds.drop_last();
        assert(deltas_refer(rows, d)) by {
            assert forall|i: int| 0 <= i < d.len() implies (#[trigger] d[i]).row < rows.len() by {
                assert(d[i] == ds[i]);
            }
        }
        lemma_persisted_wf(rows, d);
        let x = ds.last();
        assert(x == ds[ds.len() - 1]);
        assert(x.row < rows.len());
        let e = delta_event(rows, x);
        assert(key_wf(rows[x.row as int].pk.model()));
        assert(row_wf(cells_model(rows[x.row as int].fields@)));
        assert(event_wf(e));
        let rest = persisted_events(rows, d);
        if survives(rows, x) {
            assert forall|i: int| 0 <= i < rest.push(e).len() implies event_wf(#[trigger] rest.push(e)[i]) by {
                if i < rest.len() {
                    assert(rest.push(e)[i] == rest[i]);
                }
            }
        }
    }
}

/// The checksum of `b[from..]`.
fn checksum_from(b: &Vec<u8>, from: usize) -> (r: u64)
    requires
        from <= b.len(),
    ensures
        r == checksum(b@.subrange(from as int, b.len() as int)),
{
    let mut c: u64 = 0;
    let mut i: usize = from;
    assert(b@.subrange(from as int, from as int) =~= Seq::<u8>::empty());
    while i < b.len()
        invariant
            from <= i <= b.len(),
            c == checksum(b@.subrange(from as int, i as int)),
        decreases b.len() - i,
    {
        assert(b@.subrange(from as int, i + 1) =~= b@.subrange(from as int, i as int).push(b@[i as int]));
        c = checksum_add(c, b[i], Ghost(b@.subrange(from as int, i as int)));
        i += 1;
    }
    c
}

fn write_u64(out: &mut Vec<u8>, x: u64)
    ensures
        final(out)@ == old(out)@ + le(x),
{
    let mut b = u64_to_le_bytes(x);
    out.append(&mut b);
}

fn write_bytes(out: &mut Vec<u8>, b: &Vec<u8>)
    ensures
        final(out)@ == old(out)@ + le(b.len() as u64) + b@,
{
    write_u64(out, b.len() as u64);
    let ghost mid = out@;
    let mut i: usize = 0;
    while i < b.len()
        invariant
            i <= b.len(),
            out@ == mid + b@.take(i as int),
        decreases b.len() - i,
    {
        out.push(b[i]);
        i += 1;
        assert(out@ =~= mid + b@.take(i as int));
    }
    assert(b@.take(b.len() as int) =~= b@);
}

fn encode_cell(out: &mut Vec<u8>, c: &Datacell)
    ensures
        final(out)@ == old(out)@ + enc_cell(c.model()),
    decreases c,
{
    match c {
        Datacell::Null => {
            out.push(DSCR_NULL);
        },
        Datacell::Bool(b) => {
            out.push(DSCR_BOOL);
            write_u64(out, if *b { 1 } else { 0 });
        },
        Datacell::UnsignedInt(x) => {
            out.push(DSCR_UINT);
            write_u64(out, *x);
        },
        Datacell::SignedInt(x) => {
            out.push(DSCR_SINT);
            write_u64(out, *x as u64);
        },
        Datacell::Float(x) => {
            out.push(DSCR_FLOAT);
            write_u64(out, *x);
        },
        Datacell::Bin(b) => {
            out.push(DSCR_BIN);
            write_bytes(out, b);
        },
        Datacell::Str(b) => {
            out.push(DSCR_STR);
            write_bytes(out, b);
        },
        Datacell::List(v) => {
            out.push(DSCR_LIST);
            write_u64(out, v.len() as u64);
            encode_cells(out, v);
            proof {
                lemma_list_model(*v);
            }
        },
    }
    assert(final(out)@ =~= old(out)@ + enc_cell(c.model()));
}

fn encode_cells(out: &mut Vec<u8>, v: &Vec<Datacell>)
    ensures
        final(out)@ == old(out)@ + enc_cells(cells_model(v@)),
    decreases v,
{
    let ghost start = out@;
    let mut i: usize = 0;
    while i < v.len()
        invariant
            i <= v.len(),
            out@ == start + enc_cells(cells_model(v@).take(i as int)),
        decreases v.len() - i,
    {
        let ghost before = out@;
        encode_cell(out, &v[i]);
        proof {
            let m = cells_model(v@);
            assert(m.take(i + 1) =~= m.take(i as int).push(m[i as int]));
            assert(cell_encs(m.take(i + 1)) =~= cell_encs(m.take(i as int)).push(enc_cell(m[i as int])));
            cell_encs(m.take(i as int)).lemma_flatten_push(enc_cell(m[i as int]));
        }
        i += 1;
        assert(out@ =~= start + enc_cells(cells_model(v@).take(i as int)));
    }
    assert(cells_model(v@).take(v.len() as int) =~= cells_model(v@));
}

fn encode_key(out: &mut Vec<u8>, k: &PrimaryIndexKey)
    ensures
        final(out)@ == old(out)@ + enc_key(k.model()),
{
    match k {
        PrimaryIndexKey::UnsignedInt(x) => write_u64(out, *x),
        PrimaryIndexKey::SignedInt(x) => write_u64(out, *x as u64),
        PrimaryIndexKey::Bin(b) => write_bytes(out, b),
        PrimaryIndexKey::Str(b) => write_bytes(out, b),
    }
    assert(final(out)@ =~= old(out)@ + enc_key(k.model()));
}

fn key_type(k: &PrimaryIndexKey) -> (r: u8)
    ensures
        r == crate::journal::key_tag(k.model()),
{
    match k {
        PrimaryIndexKey::UnsignedInt(_) => KEY_UINT,
        PrimaryIndexKey::SignedInt(_) => KEY_SINT,
        PrimaryIndexKey::Bin(_) => KEY_BIN,
        PrimaryIndexKey::Str(_) => KEY_STR,
    }
}

fn encode_event(out: &mut Vec<u8>, rows: &Vec<Row>, d: DataDelta)
    requires
        d.row < rows.len(),
    ensures
        final(out)@ == old(out)@ + enc_event(delta_event(rows@, d)),
{
    let row = &rows[d.row];
    out.push(key_type(&row.pk));
    write_u64(out, d.txn_id);
    let kind = match d.kind {
        DataDeltaKind::Delete => KIND_DELETE,
        DataDeltaKind::Insert => KIND_INSERT,
        DataDeltaKind::Update => KIND_UPDATE,
    };
    out.push(kind);
    encode_key(out, &row.pk);
    match d.kind {
        DataDeltaKind::Delete => {},
        _ => {
            write_u64(out, row.fields.len() as u64);
            encode_cells(out, &row.fields);
        },
    }
    assert(final(out)@ =~= old(out)@ + enc_event(delta_event(rows@, d)));
}

/// Appends the batch for a snapshot of deltas.
fn encode_batch(out: &mut Vec<u8>, schema_version: u64, rows: &Vec<Row>, deltas: &Vec<DataDelta>)
    requires
        deltas_refer(rows@, deltas@),
    ensures
        ({
            let b = BatchModel { events: persisted_events(rows@, deltas@), schema_version };
            final(out)@ == old(out)@ + enc_batch(b, b.events.len() as u64)
        }),
{
    let ghost evs = persisted_events(rows@, deltas@);
    let mut count: u64 = 0;
    let mut i: usize = 0;
    while i < deltas.len()
        invariant
            i <= deltas.len(),
            deltas_refer(rows@, deltas@),
            count == persisted_events(rows@, deltas@.take(i as int)).len(),
        decreases deltas.len() - i,
    {
        proof {
            assert(deltas@.take(i + 1).drop_last() =~= deltas@.take(i as int));
            lemma_persisted_len(rows@, deltas@.take(i as int));
        }
        let d = deltas[i];
        assert(deltas@[i as int].row < rows.len());
        if d.txn_id >= rows[d.row].txn_revised {
            count = count + 1;
        }
        i += 1;
    }
    assert(deltas@.take(deltas.len() as int) =~= deltas@);
    let start = out.len();
    let ghost base = out@;
    out.push(MARKER_ACTUAL_BATCH_EVENT);
    write_u64(out, count);
    write_u64(out, schema_version);
    let ghost head = out@;
    let mut i: usize = 0;
    proof {
        assert(persisted_events(rows@, deltas@.take(0)) =~= Seq::<EventModel>::empty());
        assert(event_encs(Seq::<EventModel>::empty()) =~= Seq::<Seq<u8>>::empty());
        assert(out@ =~= head + enc_events(persisted_events(rows@, deltas@.take(0))));
    }
    while i < deltas.len()
        invariant
            i <= deltas.len(),
            deltas_refer(rows@, deltas@),
            out@ == head + enc_events(persisted_events(rows@, deltas@.take(i as int))),
        decreases deltas.len() - i,
    {
        let d = deltas[i];
        assert(deltas@[i as int].row < rows.len());
        proof {
            assert(deltas@.take(i + 1).drop_last() =~= deltas@.take(i as int));
            assert(deltas@.take(i + 1).last() == d);
        }
        if d.txn_id >= rows[d.row].txn_revised {
            encode_event(out, rows, d);
            proof {
                lemma_events_push(persisted_events(rows@, deltas@.take(i as int)), delta_event(rows@, d));
            }
        }
        i += 1;
    }
    out.push(MARKER_END_OF_BATCH);
    write_u64(out, count);
    let body_end = out.len();
    let c = checksum_from(out, start);
    let ghost body_all = out@;
    proof {
        let b = BatchModel { events: evs, schema_version };
        assert(count == evs.len());
        assert(out@.subrange(start as int, body_end as int) =~= enc_batch_body(b, count));
        assert(body_all =~= base + enc_batch_body(b, count));
    }
    write_u64(out, c);
    proof {
        let b = BatchModel { events: evs, schema_version };
        assert(out@ =~= base + enc_batch(b, b.events.len() as u64));
    }
}

/// Writes batches of row changes to the bytes of a journal.
pub struct DataBatchPersistDriver {
    file: Vec<u8>,
}

impl DataBatchPersistDriver {
    pub closed spec fn bytes(&self) -> Seq<u8> {
        self.file@
    }

    /// Starts writing at the end of `file`; a journal that is not fresh is
    /// marked as reopened first.
    pub fn new(file: Vec<u8>, fresh: bool) -> (r: Self)
        ensures
            r.bytes() == if fresh {
                file@
            } else {
                file@.push(MARKER_BATCH_REOPEN)
            },
    {
        let mut file = file;
        if !fresh {
            file.push(MARKER_BATCH_REOPEN);
        }
        DataBatchPersistDriver { file }
    }

    /// Appends one batch for a snapshot of queued deltas: the deltas whose
    /// rows were not revised by a later transaction, with their rows' current
    /// cells, in queue order. Text in keys and cells must be valid UTF-8, so
    /// that everything written can be read back.
    pub fn write_new_batch(&mut self, schema_version: u64, rows: &Vec<Row>, deltas: &Vec<DataDelta>)
        requires
            deltas_refer(rows@, deltas@),
            rows_wf(rows@),
        ensures
            ({
                let b = BatchModel { events: persisted_events(rows@, deltas@), schema_version };
                final(self).bytes() == old(self).bytes() + enc_batch(b, b.events.len() as u64)
            }),
    {
        encode_batch(&mut self.file, schema_version, rows, deltas);
    }

    /// Marks the journal as closed.
    pub fn close(&mut self)
        ensures
            final(self).bytes() == old(self).bytes().push(MARKER_BATCH_CLOSED),
    {
        self.file.push(MARKER_BATCH_CLOSED);
    }

    /// Gives the journal's bytes back.
    pub fn into_file(self) -> (r: Vec<u8>)
        ensures
            r@ == self.bytes(),
    {
        self.file
    }
}

/// Persisting a snapshot of deltas into a fresh journal and closing it leaves
/// a journal that reads back as one batch: the events of the deltas whose rows
/// were not overwritten later, with their keys, kinds and cells, in queue
/// order.
pub proof fn lemma_persist_restore_round_trip(rows: Seq<Row>, ds: Seq<DataDelta>, schema_version: u64)
    requires
        rows_wf(rows),
        deltas_refer(rows, ds),
        ds.len() <= u64::MAX,
    ensures
        ({
            let b = BatchModel { events: persisted_events(rows, ds), schema_version };
            written_for(enc_batch(b, b.events.len() as u64) + seq![MARKER_BATCH_CLOSED], seq![b])
        }),
{
    let b = BatchModel { events: persisted_events(rows, ds), schema_version };
    lemma_persisted_wf(rows, ds);
    lemma_persisted_len(rows, ds);
    let encs = crate::journal::batch_encs(seq![b]);
    assert(encs =~= seq![enc_batch(b, b.events.len() as u64)]);
    encs.lemma_flatten_singleton();
    assert(batch_wf(b));
    assert(journal_wf(seq![b]));
}

/// The versions of a table and its queue of row changes awaiting persistence.
pub struct DeltaState {
    pub schema_version: u64,
    pub data_version: u64,
    pub queue: Vec<DataDelta>,
}

impl DeltaState {
    pub open spec fn queued(&self) -> Seq<DataDelta> {
        self.queue@
    }

    pub fn new(schema_version: u64) -> (r: Self)
        ensures
            r.schema_version == schema_version,
            r.data_version == 0,
            r.queued() == Seq::<DataDelta>::empty(),
    {
        DeltaState { schema_version, data_version: 0, queue: Vec::new() }
    }

    /// Records a change of the row at index `row`: the transaction version
    /// advances by one and stamps the delta with the current schema version.
    pub fn append_new_data_delta(&mut self, row: usize, kind: DataDeltaKind) -> (r: DataDelta)
        requires
            old(self).data_version < u64::MAX,
        ensures
            r == (DataDelta {
                schema_version: old(self).schema_version,
                txn_id: (old(self).data_version + 1) as u64,
                row,
                kind,
            }),
            final(self).data_version == old(self).data_version + 1,
            final(self).schema_version == old(self).schema_version,
            final(self).queued() == old(self).queued().push(r),
    {
        self.data_version = self.data_version + 1;
        let d = DataDelta { schema_version: self.schema_version, txn_id: self.data_version, row, kind };
        self.queue.push(d);
        d
    }

    /// Takes every queued delta for persistence, in queue order.
    pub fn drain(&mut self) -> (r: Vec<DataDelta>)
        ensures
            r@ == old(self).queued(),
            final(self).queued() == Seq::<DataDelta>::empty(),
            final(self).schema_version == old(self).schema_version,
            final(self).data_version == old(self).data_version,
    {
        let mut taken: Vec<DataDelta> = Vec::new();
        std::mem::swap(&mut taken, &mut self.queue);
        taken
    }
}

} // verus!
