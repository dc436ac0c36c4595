//! Reading the batch journal back.
use vstd::prelude::*;
use vstd::utf8::valid_utf8;
use vstd::bytes::{spec_u64_from_le_bytes, u64_from_le_bytes};
use crate::cell::{
    CellModel, Datacell, KeyModel, PrimaryIndexKey, cell_wf, cells_model, is_utf8, key_wf,
    lemma_list_model,
};
use crate::error::StorageError;
use crate::journal::{
    BatchModel, DSCR_BIN, DSCR_BOOL, DSCR_FLOAT, DSCR_LIST, DSCR_NULL, DSCR_SINT, DSCR_STR,
    DSCR_UINT, EventKindModel, EventModel, KEY_SINT, KEY_STR, KEY_UINT, KIND_DELETE, KIND_INSERT,
    KIND_UPDATE, MARKER_ACTUAL_BATCH_EVENT, MARKER_BATCH_CLOSED, MARKER_BATCH_REOPEN,
    MARKER_END_OF_BATCH, MARKER_RECOVERY_EVENT, RECOVERY_THRESHOLD, batch_encs, batch_head,
    batch_wf, cell_encs, checksum, checksum_add, enc_batch, enc_batch_body, enc_cell, enc_cells,
    enc_event, enc_events, enc_journal, enc_key, enc_row, event_encs, event_wf, journal_wf, key_tag,
    kind_byte, le,
};

verus! {

/// `e` stands in `d` at position `p`.
pub open spec fn encodes_at(d: Seq<u8>, p: int, e: Seq<u8>) -> bool {
    0 <= p && p + e.len() <= d.len() && d.subrange(p, p + e.len()) == e
}

proof fn lemma_enc_cells_def(v: Seq<CellModel>)
    ensures
        enc_cells(v) == cell_encs(v).flatten(),
        forall|i: int| 0 <= i < v.len() ==> #[trigger] cell_encs(v)[i] == enc_cell(v[i]),
        cell_encs(v).len() == v.len(),
{
}

proof fn lemma_enc_cells_push(v: Seq<CellModel>, c: CellModel)
    ensures
        enc_cells(v.push(c)) == enc_cells(v) + enc_cell(c),
{
    lemma_enc_cells_def(v);
    lemma_enc_cells_def(v.push(c));
    assert(cell_encs(v.push(c)) =~= cell_encs(v).push(enc_cell(c)));
    cell_encs(v).lemma_flatten_push(enc_cell(c));
}

proof fn lemma_enc_cells_split(v: Seq<CellModel>, k: int)
    requires
        0 <= k <= v.len(),
    ensures
        enc_cells(v) == enc_cells(v.take(k)) + enc_cells(v.skip(k)),
{
    lemma_enc_cells_def(v);
    lemma_enc_cells_def(v.take(k));
    lemma_enc_cells_def(v.skip(k));
    assert(cell_encs(v) =~= cell_encs(v.take(k)) + cell_encs(v.skip(k)));
    vstd::seq_lib::lemma_flatten_concat(cell_encs(v.take(k)), cell_encs(v.skip(k)));
}

proof fn lemma_enc_cells_first(v: Seq<CellModel>)
    requires
        v.len() > 0,
    ensures
        enc_cells(v) == enc_cell(v[0]) + enc_cells(v.skip(1)),
{
    lemma_enc_cells_def(v);
    lemma_enc_cells_def(v.skip(1));
    assert(cell_encs(v).drop_first() =~= cell_encs(v.skip(1)));
}


pub open spec fn dscr_of(m: CellModel) -> u8 {
    match m {
        CellModel::Null => DSCR_NULL,
        CellModel::Bool(_) => DSCR_BOOL,
        CellModel::UnsignedInt(_) => DSCR_UINT,
        CellModel::SignedInt(_) => DSCR_SINT,
        CellModel::Float(_) => DSCR_FLOAT,
        CellModel::Bin(_) => DSCR_BIN,
        CellModel::Str(_) => DSCR_STR,
        CellModel::List(_) => DSCR_LIST,
    }
}

proof fn lemma_le_facts()
    ensures
        forall|x: u64| #[trigger] le(x).len() == 8 && spec_u64_from_le_bytes(le(x)) == x,
        forall|s: Seq<u8>| s.len() == 8 ==> #[trigger] le(spec_u64_from_le_bytes(s)) == s,
{
    vstd::bytes::lemma_auto_spec_u64_to_from_le_bytes();
}

proof fn lemma_cell_head(m: CellModel)
    ensures
        enc_cell(m).len() >= 1,
        enc_cell(m)[0] == dscr_of(m),
{
    lemma_le_facts();
}

/// A stretch of `d` read through an encoding that stands at `p`.
proof fn lemma_sub(d: Seq<u8>, p: int, e: Seq<u8>, a: int, b: int)
    requires
        encodes_at(d, p, e),
        0 <= a <= b <= e.len(),
    ensures
        d.subrange(p + a, p + b) == e.subrange(a, b),
{
    assert(d.subrange(p + a, p + b) =~= d.subrange(p, p + e.len()).subrange(a, b));
}

proof fn lemma_join(d: Seq<u8>, a: int, b: int, c: int)
    requires
        0 <= a <= b <= c <= d.len(),
    ensures
        d.subrange(a, c) == d.subrange(a, b) + d.subrange(b, c),
{
    assert(d.subrange(a, c) =~= d.subrange(a, b) + d.subrange(b, c));
}

proof fn lemma_cells_model_push(v: Seq<Datacell>, c: Datacell)
    ensures
        cells_model(v.push(c)) == cells_model(v).push(c.model()),
{
    assert(cells_model(v.push(c)) =~= cells_model(v).push(c.model()));
}

pub(crate) proof fn lemma_events_push(v: Seq<EventModel>, e: EventModel)
    ensures
        enc_events(v.push(e)) == enc_events(v) + enc_event(e),
{
    assert(event_encs(v.push(e)) =~= event_encs(v).push(enc_event(e)));
    event_encs(v).lemma_flatten_push(enc_event(e));
}

proof fn lemma_events_first(v: Seq<EventModel>)
    requires
        v.len() > 0,
    ensures
        enc_events(v) == enc_event(v[0]) + enc_events(v.skip(1)),
{
    assert(event_encs(v).drop_first() =~= event_encs(v.skip(1)));
}

proof fn lemma_events_model_push(v: Seq<DecodedBatchEvent>, e: DecodedBatchEvent)
    ensures
        events_model(v.push(e)) == events_model(v).push(e.model()),
{
    assert(events_model(v.push(e)) =~= events_model(v).push(e.model()));
}

proof fn lemma_event_head(e: EventModel)
    ensures
        enc_event(e).len() >= 10,
        enc_event(e)[0] == key_tag(e.pk),
        key_tag(e.pk) <= KEY_STR,
{
    lemma_le_facts();
}

/// The declared event count of the batch that starts at `p`.
pub open spec fn declared_at(d: Seq<u8>, p: int) -> u64 {
    spec_u64_from_le_bytes(d.subrange(p + 1, p + 9))
}

/// The head of `b` (marker, counts, events) spans `d[p..q]`.
pub open spec fn head_at(d: Seq<u8>, p: int, q: int, b: BatchModel) -> bool {
    &&& 0 <= p && p + 9 <= q <= d.len()
    &&& batch_wf(b)
    &&& d.subrange(p, q) == batch_head(b, declared_at(d, p))
}


pub open spec fn summary_tail(finished_early: bool, c: u64) -> Seq<u8> {
    if finished_early {
        le(c)
    } else {
        seq![MARKER_END_OF_BATCH] + le(c)
    }
}

pub open spec fn batches_model(v: Seq<NormalBatch>) -> Seq<BatchModel> {
    Seq::new(v.len(), |i: int| v[i].model())
}

/// Where the `k`-th batch of a journal written in one session starts.
pub open spec fn journal_offset(bs: Seq<BatchModel>, k: int) -> int {
    batch_encs(bs).take(k).flatten().len() as int
}


proof fn lemma_journal_at(bs: Seq<BatchModel>, k: int)
    requires
        0 <= k <= bs.len(),
    ensures
        journal_offset(bs, k) < enc_journal(bs).len(),
        k < bs.len() ==> encodes_at(
            enc_journal(bs),
            journal_offset(bs, k),
            enc_batch(bs[k], bs[k].events.len() as u64),
        ) && journal_offset(bs, k + 1) == journal_offset(bs, k) + enc_batch(
            bs[k],
            bs[k].events.len() as u64,
        ).len(),
        k == bs.len() ==> journal_offset(bs, k) == enc_journal(bs).len() - 1
            && enc_journal(bs)[journal_offset(bs, k)] == MARKER_BATCH_CLOSED,
{
    let encs = batch_encs(bs);
    let d = enc_journal(bs);
    assert(encs =~= encs.take(k) + encs.skip(k));
    vstd::seq_lib::lemma_flatten_concat(encs.take(k), encs.skip(k));
    let a = encs.take(k).flatten();
    if k < bs.len() {
        let e = encs[k];
        assert(encs.skip(k).first() == e);
        assert(encs.skip(k).drop_first() =~= encs.skip(k + 1));
        assert(encs.skip(k).flatten() == e + encs.skip(k + 1).flatten());
        assert(d.subrange(a.len() as int, (a.len() + e.len()) as int) =~= e);
        assert(encs.take(k + 1) =~= encs.take(k).push(e));
        encs.take(k).lemma_flatten_push(e);
    } else {
        assert(encs.skip(k) =~= Seq::<Seq<u8>>::empty());
        assert(encs.take(k) =~= encs);
    }
}

/// The little-endian word at `p`.
pub open spec fn word_at(d: Seq<u8>, p: int) -> u64 {
    spec_u64_from_le_bytes(d.subrange(p, p + 8))
}

/// What decoding a cell at `p` gives, and where the cursor stops, on
/// success and on failure alike.
pub open spec fn read_cell_at(d: Seq<u8>, p: int) -> (Result<CellModel, StorageError>, int)
    decreases d.len() - p, 0int,
{
    if p < 0 || p >= d.len() {
        (Err(StorageError::UnexpectedEof), p)
    } else {
        let tag = d[p];
        let q = p + 1;
        if tag == DSCR_NULL {
            (Ok(CellModel::Null), q)
        } else if tag == DSCR_BOOL || tag == DSCR_UINT || tag == DSCR_SINT || tag == DSCR_FLOAT {
            if q + 8 > d.len() {
                (Err(StorageError::UnexpectedEof), q)
            } else {
                let w = word_at(d, q);
                if tag == DSCR_BOOL {
                    if w > 1 {
                        (Err(StorageError::DataBatchRestoreCorruptedEntry), q + 8)
                    } else {
                        (Ok(CellModel::Bool(w == 1)), q + 8)
                    }
                } else if tag == DSCR_UINT {
                    (Ok(CellModel::UnsignedInt(w)), q + 8)
                } else if tag == DSCR_SINT {
                    (Ok(CellModel::SignedInt(w as i64)), q + 8)
                } else {
                    (Ok(CellModel::Float(w)), q + 8)
                }
            }
        } else if tag == DSCR_BIN || tag == DSCR_STR || tag == DSCR_LIST {
            if q + 8 > d.len() {
                (Err(StorageError::UnexpectedEof), q)
            } else {
                let n = word_at(d, q);
                if tag == DSCR_LIST {
                    let r = read_cells_at(d, q + 8, n as int, Seq::empty());
                    match r.0 {
                        Ok(v) => (Ok(CellModel::List(v)), r.1),
                        Err(e) => (Err(e), r.1),
                    }
                } else if q + 8 + n > d.len() {
                    (Err(StorageError::UnexpectedEof), q + 8)
                } else {
                    let b = d.subrange(q + 8, q + 8 + n);
                    if tag == DSCR_STR && !valid_utf8(b) {
                        (Err(StorageError::DataBatchRestoreCorruptedEntry), q + 8 + n)
                    } else if tag == DSCR_STR {
                        (Ok(CellModel::Str(b)), q + 8 + n)
                    } else {
                        (Ok(CellModel::Bin(b)), q + 8 + n)
                    }
                }
            }
        } else {
            (Err(StorageError::DataBatchRestoreCorruptedEntry), q)
        }
    }
}

/// Decoding `rem` more cells from `p` after the cells `acc`: it stops with
/// `CorruptedEntry` where the stream ends first, and hands on a cell's error.
pub open spec fn read_cells_at(d: Seq<u8>, p: int, rem: int, acc: Seq<CellModel>) -> (
    Result<Seq<CellModel>, StorageError>,
    int,
)
    decreases d.len() - p, 1int,
{
    if rem <= 0 {
        (Ok(acc), p)
    } else if p < 0 || p >= d.len() {
        (Err(StorageError::DataBatchRestoreCorruptedEntry), p)
    } else {
        let r = read_cell_at(d, p);
        match r.0 {
            Err(e) => (Err(e), r.1),
            Ok(c) => if p < r.1 <= d.len() {
                read_cells_at(d, r.1, rem - 1, acc.push(c))
            } else {
                (Err(StorageError::DataBatchRestoreCorruptedEntry), r.1)
            },
        }
    }
}

/// Decoding a key of type `tag` at `p`.
pub open spec fn read_key_at(d: Seq<u8>, p: int, tag: u8) -> (Result<KeyModel, StorageError>, int) {
    if tag > KEY_STR {
        (Err(StorageError::DataBatchRestoreCorruptedEntry), p)
    } else if p + 8 > d.len() {
        (Err(StorageError::UnexpectedEof), p)
    } else {
        let w = word_at(d, p);
        if tag == KEY_UINT {
            (Ok(KeyModel::UnsignedInt(w)), p + 8)
        } else if tag == KEY_SINT {
            (Ok(KeyModel::SignedInt(w as i64)), p + 8)
        } else if p + 8 + w > d.len() {
            (Err(StorageError::UnexpectedEof), p + 8)
        } else {
            let b = d.subrange(p + 8, p + 8 + w);
            if tag == KEY_STR && !valid_utf8(b) {
                (Err(StorageError::DataBatchRestoreCorruptedEntry), p + 8 + w)
            } else if tag == KEY_STR {
                (Ok(KeyModel::Str(b)), p + 8 + w)
            } else {
                (Ok(KeyModel::Bin(b)), p + 8 + w)
            }
        }
    }
}

/// Decoding the rest of an event at `p`, its key tag `tag` just read.
pub open spec fn read_event_at(d: Seq<u8>, p: int, tag: u8) -> (Result<EventModel, StorageError>, int) {
    if tag > KEY_STR {
        (Err(StorageError::DataBatchRestoreCorruptedEntry), p)
    } else if p + 8 > d.len() {
        (Err(StorageError::UnexpectedEof), p)
    } else if p + 8 >= d.len() {
        (Err(StorageError::UnexpectedEof), p + 8)
    } else {
        let txn_id = word_at(d, p);
        let kind = d[p + 8];
        if kind > KIND_UPDATE {
            (Err(StorageError::DataBatchRestoreCorruptedBatch), p + 9)
        } else {
            let kr = read_key_at(d, p + 9, tag);
            match kr.0 {
                Err(e) => (Err(e), kr.1),
                Ok(pk) => {
                    let q = kr.1;
                    if kind == KIND_DELETE {
                        (Ok(EventModel { txn_id, pk, kind: EventKindModel::Delete }), q)
                    } else if q + 8 > d.len() {
                        (Err(StorageError::UnexpectedEof), q)
                    } else {
                        let cr = read_cells_at(d, q + 8, word_at(d, q) as int, Seq::empty());
                        match cr.0 {
                            Err(e) => (Err(e), cr.1),
                            Ok(v) => (
                                Ok(
                                    EventModel {
                                        txn_id,
                                        pk,
                                        kind: if kind == KIND_INSERT {
                                            EventKindModel::Insert(v)
                                        } else {
                                            EventKindModel::Update(v)
                                        },
                                    },
                                ),
                                cr.1,
                            ),
                        }
                    }
                },
            }
        }
    }
}

/// What one read at a batch boundary yields.
pub enum BatchRead {
    RecoveredFromerror,
    Normal(BatchModel),
    FinishedEarly(BatchModel),
    BatchClosed,
}

/// Decoding up to `rem` more events from `p` after `acc`: an end marker
/// where an event would start ends the batch early.
pub open spec fn read_events_at(
    d: Seq<u8>,
    p: int,
    rem: int,
    schema_version: u64,
    acc: Seq<EventModel>,
) -> (Result<BatchRead, StorageError>, int)
    decreases d.len() - p,
{
    if rem <= 0 || p < 0 || p >= d.len() {
        (Ok(BatchRead::Normal(BatchModel { events: acc, schema_version })), p)
    } else if d[p] == MARKER_END_OF_BATCH {
        (Ok(BatchRead::FinishedEarly(BatchModel { events: acc, schema_version })), p + 1)
    } else {
        let er = read_event_at(d, p + 1, d[p]);
        match er.0 {
            Err(e) => (Err(e), er.1),
            Ok(e) => if p < er.1 <= d.len() {
                read_events_at(d, er.1, rem - 1, schema_version, acc.push(e))
            } else {
                (Err(StorageError::DataBatchRestoreCorruptedBatch), er.1)
            },
        }
    }
}

/// Decoding what stands at a batch boundary `p`.
pub open spec fn read_batch_at(d: Seq<u8>, p: int) -> (Result<BatchRead, StorageError>, int) {
    if p < 0 || p >= d.len() {
        (Err(StorageError::UnexpectedEof), p)
    } else if d[p] == MARKER_RECOVERY_EVENT {
        (Ok(BatchRead::RecoveredFromerror), p + 1)
    } else if d[p] == MARKER_BATCH_CLOSED {
        (Ok(BatchRead::BatchClosed), p + 1)
    } else if d[p] != MARKER_ACTUAL_BATCH_EVENT {
        (Err(StorageError::DataBatchRestoreCorruptedBatch), p + 1)
    } else if p + 9 > d.len() {
        (Err(StorageError::UnexpectedEof), p + 1)
    } else if p + 17 > d.len() {
        (Err(StorageError::UnexpectedEof), p + 9)
    } else {
        read_events_at(d, p + 17, word_at(d, p + 1) as int, word_at(d, p + 9), Seq::empty())
    }
}

/// Reading a batch summary at `p` for a batch whose checksum started at `st`:
/// the end marker (unless the batch finished early), the committed count,
/// and the stored checksum, which must equal the checksum of `d[st..]` up to it.
pub open spec fn read_summary_at(d: Seq<u8>, st: int, p: int, finished_early: bool) -> (
    Result<u64, StorageError>,
    int,
) {
    let c = if finished_early {
        p
    } else {
        p + 1
    };
    if !finished_early && (p < 0 || p >= d.len()) {
        (Err(StorageError::UnexpectedEof), p)
    } else if !finished_early && d[p] != MARKER_END_OF_BATCH {
        (Err(StorageError::DataBatchRestoreCorruptedBatch), p + 1)
    } else if c + 8 > d.len() {
        (Err(StorageError::UnexpectedEof), c)
    } else if c + 16 > d.len() {
        (Err(StorageError::UnexpectedEof), c + 8)
    } else if word_at(d, c + 8) != checksum(d.subrange(st, c + 8)) {
        (Err(StorageError::DataBatchRestoreCorruptedBatch), c + 16)
    } else {
        (Ok(word_at(d, c)), c + 16)
    }
}

/// Scanning at most `budget` bytes from `p` for a recovery marker: whether
/// one was found, and the position after the last byte scanned.
pub open spec fn recover_at(d: Seq<u8>, p: int, budget: int) -> (bool, int)
    decreases budget,
{
    if budget <= 0 || p < 0 || p >= d.len() {
        (false, p)
    } else if d[p] == MARKER_RECOVERY_EVENT {
        (true, p + 1)
    } else {
        recover_at(d, p + 1, budget - 1)
    }
}

/// After a close marker: the end of the stream confirms the close, a reopen
/// marker continues the journal, anything else is a corrupted file.
pub open spec fn reopen_at(d: Seq<u8>, p: int) -> (Result<bool, StorageError>, int) {
    if p >= d.len() {
        (Ok(true), p)
    } else if d[p] == MARKER_BATCH_REOPEN {
        (Ok(false), p + 1)
    } else {
        (Err(StorageError::DataBatchRestoreCorruptedBatchFile), p + 1)
    }
}

/// Resuming after a failed batch: a recovery marker within the threshold
/// resumes reading after it, else the read fails with `CorruptedBatch`.
pub open spec fn resume_at(d: Seq<u8>, p: int, from: int, acc: Seq<BatchModel>) -> Result<
    Seq<BatchModel>,
    StorageError,
>
    decreases d.len() - p, 0int,
{
    let rc = recover_at(d, from, RECOVERY_THRESHOLD as int);
    if !rc.0 {
        Err(StorageError::DataBatchRestoreCorruptedBatch)
    } else if p < rc.1 <= d.len() {
        restore_from(d, rc.1, acc)
    } else {
        Err(StorageError::DataBatchRestoreCorruptedBatchFile)
    }
}

/// The batches that reading the journal `d` from `p` returns after `acc`:
/// marker dispatch, recovery within the threshold, close and reopen, and a
/// confirmed close at the end of the stream as the only successful end.
pub open spec fn restore_from(d: Seq<u8>, p: int, acc: Seq<BatchModel>) -> Result<
    Seq<BatchModel>,
    StorageError,
>
    decreases d.len() - p, 2int,
{
    if p < 0 || p >= d.len() {
        Err(StorageError::DataBatchRestoreCorruptedBatchFile)
    } else {
        let br = read_batch_at(d, p);
        let q = br.1;
        if !(p < q <= d.len()) {
            Err(StorageError::DataBatchRestoreCorruptedBatchFile)
        } else {
            match br.0 {
                Err(_) => resume_at(d, p, q, acc),
                Ok(BatchRead::RecoveredFromerror) => restore_from(d, q, acc),
                Ok(BatchRead::BatchClosed) => {
                    let rr = reopen_at(d, q);
                    match rr.0 {
                        Err(e) => Err(e),
                        Ok(true) => Ok(acc),
                        Ok(false) => if p < rr.1 <= d.len() {
                            restore_from(d, rr.1, acc)
                        } else {
                            Err(StorageError::DataBatchRestoreCorruptedBatchFile)
                        },
                    }
                },
                Ok(BatchRead::Normal(b)) => after_batch(d, p, q, b, false, acc),
                Ok(BatchRead::FinishedEarly(b)) => after_batch(d, p, q, b, true, acc),
            }
        }
    }
}

/// After the events of batch `b` (started at `p`, events ending at `q`):
/// the summary must read and its count must match, else recovery runs.
pub open spec fn after_batch(
    d: Seq<u8>,
    p: int,
    q: int,
    b: BatchModel,
    finished_early: bool,
    acc: Seq<BatchModel>,
) -> Result<Seq<BatchModel>, StorageError>
    decreases d.len() - p, 1int,
{
    let sr = read_summary_at(d, p, q, finished_early);
    match sr.0 {
        Err(_) => resume_at(d, p, sr.1, acc),
        Ok(c) => if b.events.len() != c as int {
            resume_at(d, p, sr.1, acc)
        } else if p < sr.1 <= d.len() {
            restore_from(d, sr.1, acc.push(b))
        } else {
            Err(StorageError::DataBatchRestoreCorruptedBatchFile)
        },
    }
}

proof fn lemma_recover_at(d: Seq<u8>, p: int, budget: int)
    requires
        0 <= p,
    ensures
        recover_at(d, p, budget).0 <==> exists|i: int|
            p <= i < p + budget && i < d.len() && d[i] == MARKER_RECOVERY_EVENT,
        recover_at(d, p, budget).0 ==> ({
            let e = recover_at(d, p, budget).1;
            p < e && d[e - 1] == MARKER_RECOVERY_EVENT && forall|i: int|
                p <= i < e - 1 ==> d[i] != MARKER_RECOVERY_EVENT
        }),
        !recover_at(d, p, budget).0 ==> recover_at(d, p, budget).1 <= p + (if budget > 0 {
            budget
        } else {
            0
        }),
    decreases budget,
{
    if budget > 0 && p < d.len() && d[p] != MARKER_RECOVERY_EVENT {
        lemma_recover_at(d, p + 1, budget - 1);
        if recover_at(d, p, budget).0 {
            let i = choose|i: int| p + 1 <= i < p + budget && i < d.len() && d[i] == MARKER_RECOVERY_EVENT;
        } else {
            assert forall|i: int| p <= i < p + budget && i < d.len() implies d[i] != MARKER_RECOVERY_EVENT by {
                if i > p {
                    assert(!(p + 1 <= i < p + 1 + (budget - 1) && i < d.len() && d[i] == MARKER_RECOVERY_EVENT));
                }
            }
        }
    }
}

/// The kinds of unit that one read at a batch boundary yields.
pub enum Batch {
    RecoveredFromerror,
    Normal(NormalBatch),
    FinishedEarly(NormalBatch),
    BatchClosed,
}

/// What an event changed.
#[derive(Debug, PartialEq)]
pub enum DecodedBatchEventKind {
    Delete,
    Insert(Vec<Datacell>),
    Update(Vec<Datacell>),
}

/// One decoded event.
#[derive(Debug, PartialEq)]
pub struct DecodedBatchEvent {
    pub txn_id: u64,
    pub pk: PrimaryIndexKey,
    pub kind: DecodedBatchEventKind,
}

/// The events of one batch and the schema version they were written under.
#[derive(Debug, PartialEq)]
pub struct NormalBatch {
    pub events: Vec<DecodedBatchEvent>,
    pub schema_version: u64,
}

impl Batch {
    pub open spec fn model(&self) -> BatchRead {
        match self {
            Batch::RecoveredFromerror => BatchRead::RecoveredFromerror,
            Batch::Normal(b) => BatchRead::Normal(b.model()),
            Batch::FinishedEarly(b) => BatchRead::FinishedEarly(b.model()),
            Batch::BatchClosed => BatchRead::BatchClosed,
        }
    }
}

impl DecodedBatchEventKind {
    pub open spec fn model(&self) -> EventKindModel {
        match self {
            DecodedBatchEventKind::Delete => EventKindModel::Delete,
            DecodedBatchEventKind::Insert(v) => EventKindModel::Insert(cells_model(v@)),
            DecodedBatchEventKind::Update(v) => EventKindModel::Update(cells_model(v@)),
        }
    }
}

impl DecodedBatchEvent {
    pub open spec fn model(&self) -> EventModel {
        EventModel { txn_id: self.txn_id, pk: self.pk.model(), kind: self.kind.model() }
    }

    pub fn new(txn_id: u64, pk: PrimaryIndexKey, kind: DecodedBatchEventKind) -> (r: Self)
        ensures
            r.txn_id == txn_id,
            r.pk == pk,
            r.kind == kind,
    {
        DecodedBatchEvent { txn_id, pk, kind }
    }
}

pub open spec fn events_model(v: Seq<DecodedBatchEvent>) -> Seq<EventModel> {
    Seq::new(v.len(), |i: int| v[i].model())
}

impl NormalBatch {
    pub open spec fn model(&self) -> BatchModel {
        BatchModel { events: events_model(self.events@), schema_version: self.schema_version }
    }

    pub fn new(events: Vec<DecodedBatchEvent>, schema_version: u64) -> (r: Self)
        ensures
            r.events == events,
            r.schema_version == schema_version,
    {
        NormalBatch { events, schema_version }
    }
}

/// Reads batches from the bytes of a journal, keeping the running checksum
/// of what it read since the start of the current batch.
pub struct DataBatchRestoreDriver {
    data: Vec<u8>,
    pos: usize,
    start: Ghost<int>,
    checksum: u64,
}

impl DataBatchRestoreDriver {
    pub closed spec fn wf(&self) -> bool {
        &&& self.pos <= self.data.len()
        &&& 0 <= self.start@ <= self.pos
        &&& self.checksum == checksum(self.data@.subrange(self.start@, self.pos as int))
    }

    pub closed spec fn bytes(&self) -> Seq<u8> {
        self.data@
    }

    pub closed spec fn position(&self) -> int {
        self.pos as int
    }

    /// Same stream, same checksum start, still well formed.
    pub closed spec fn follows(&self, old: &Self) -> bool {
        &&& self.wf()
        &&& self.data == old.data
        &&& self.start == old.start
        &&& old.pos <= self.pos
    }

    pub fn new(data: Vec<u8>) -> (r: Self)
        ensures
            r.wf(),
            r.bytes() == data@,
            r.position() == 0,
    {
        let r = DataBatchRestoreDriver { data, pos: 0, start: Ghost(0), checksum: 0 };
        assert(r.data@.subrange(0, 0) =~= Seq::<u8>::empty());
        r
    }

    /// Gives the journal's bytes back.
    pub fn into_file(self) -> (r: Vec<u8>)
        ensures
            r@ == self.bytes(),
    {
        self.data
    }

    fn is_eof(&self) -> (r: bool)
        ensures
            r == (self.pos >= self.data.len()),
    {
        self.pos >= self.data.len()
    }

    fn reset_checksum(&mut self)
        requires
            old(self).wf(),
        ensures
            final(self).wf(),
            final(self).data == old(self).data,
            final(self).pos == old(self).pos,
            final(self).start@ == old(self).pos,
    {
        self.start = Ghost(self.pos as int);
        self.checksum = 0;
        assert(self.data@.subrange(self.pos as int, self.pos as int) =~= Seq::<u8>::empty());
    }

    fn read_byte(&mut self) -> (r: Result<u8, StorageError>)
        requires
            old(self).wf(),
        ensures
            final(self).follows(old(self)),
            old(self).pos < old(self).data.len() ==> r == Ok::<u8, StorageError>(
                old(self).data@[old(self).pos as int],
            ) && final(self).pos == old(self).pos + 1,
            old(self).pos >= old(self).data.len() ==> r == Err::<u8, StorageError>(
                StorageError::UnexpectedEof,
            ) && final(self).pos == old(self).pos,
    {
        if self.pos >= self.data.len() {
            return Err(StorageError::UnexpectedEof);
        }
        let b = self.data[self.pos];
        let ghost seen = self.data@.subrange(self.start@, self.pos as int);
        assert(self.data@.subrange(self.start@, self.pos + 1) =~= seen.push(b));
        self.checksum = checksum_add(self.checksum, b, Ghost(seen));
        self.pos = self.pos + 1;
        Ok(b)
    }

    fn read_u64(&mut self) -> (r: Result<u64, StorageError>)
        requires
            old(self).wf(),
        ensures
            final(self).follows(old(self)),
            old(self).pos + 8 <= old(self).data.len() ==> r == Ok::<u64, StorageError>(
                spec_u64_from_le_bytes(old(self).data@.subrange(old(self).pos as int, old(self).pos + 8)),
            ) && final(self).pos == old(self).pos + 8,
            old(self).pos + 8 > old(self).data.len() ==> r == Err::<u64, StorageError>(
                StorageError::UnexpectedEof,
            ) && final(self).pos == old(self).pos,
    {
        if self.data.len() - self.pos < 8 {
            return Err(StorageError::UnexpectedEof);
        }
        let ghost at = self.pos as int;
        let mut buf: Vec<u8> = Vec::new();
        let mut i: usize = 0;
        while i < 8
            invariant
                self.follows(old(self)),
                at == old(self).pos,
                at + 8 <= self.data.len(),
                i <= 8,
                self.pos == at + i,
                buf@ == self.data@.subrange(at, at + i),
            decreases 8 - i,
        {
            let b = self.read_byte()?;
            buf.push(b);
            i += 1;
            assert(buf@ =~= self.data@.subrange(at, at + i));
        }
        Ok(u64_from_le_bytes(buf.as_slice()))
    }

    fn read_bytes(&mut self, n: u64) -> (r: Result<Vec<u8>, StorageError>)
        requires
            old(self).wf(),
        ensures
            final(self).follows(old(self)),
            old(self).pos + n <= old(self).data.len() ==> r is Ok && r->Ok_0@ == old(
                self,
            ).data@.subrange(old(self).pos as int, old(self).pos + n) && final(self).pos == old(
                self,
            ).pos + n,
            old(self).pos + n > old(self).data.len() ==> r == Err::<Vec<u8>, StorageError>(
                StorageError::UnexpectedEof,
            ) && final(self).pos == old(self).pos,
    {
        if n as u128 > (self.data.len() - self.pos) as u128 {
            return Err(StorageError::UnexpectedEof);
        }
        let ghost at = self.pos as int;
        let mut buf: Vec<u8> = Vec::new();
        let mut i: u64 = 0;
        while i < n
            invariant
                self.follows(old(self)),
                at == old(self).pos,
                at + n <= self.data.len(),
                i <= n,
                self.pos == at + i,
                buf@ == self.data@.subrange(at, at + i),
            decreases n - i,
        {
            let b = self.read_byte()?;
            buf.push(b);
            i += 1;
            assert(buf@ =~= self.data@.subrange(at, at + i));
        }
        Ok(buf)
    }
}

impl DataBatchRestoreDriver {
    #[verifier::rlimit(100)]
    #[verifier::spinoff_prover]
    fn decode_cell(&mut self) -> (r: Result<Datacell, StorageError>)
        requires
            old(self).wf(),
        ensures
            final(self).follows(old(self)),
            r is Ok ==> old(self).pos < final(self).pos && cell_wf(r->Ok_0.model())
                && final(self).data@.subrange(old(self).pos as int, final(self).pos as int)
                == enc_cell(r->Ok_0.model()),
            forall|m: CellModel|
                cell_wf(m) && #[trigger] encodes_at(old(self).data@, old(self).pos as int, enc_cell(m))
                    ==> r is Ok && r->Ok_0.model() == m,
            final(self).pos == read_cell_at(old(self).data@, old(self).pos as int).1,
            match read_cell_at(old(self).data@, old(self).pos as int).0 {
                Ok(m) => r is Ok && r->Ok_0.model() == m,
                Err(e) => r == Err::<Datacell, StorageError>(e),
            },
        decreases old(self).data@.len() - old(self).pos, 0int,
    {
        let ghost d = self.data@;
        let ghost at = self.pos as int;
        proof {
            lemma_le_facts();
            assert forall|m: CellModel| cell_wf(m) && #[trigger] encodes_at(d, at, enc_cell(m)) implies d[at]
                == dscr_of(m) by {
                lemma_cell_head(m);
                lemma_sub(d, at, enc_cell(m), 0, 1);
                assert(d.subrange(at, at + 1)[0] == d[at]);
            }
        }
        let tag = match self.read_byte() {
            Ok(t) => t,
            Err(e) => {
                proof {
                    assert forall|m: CellModel| cell_wf(m) && #[trigger] encodes_at(d, at, enc_cell(m)) implies false by {
                        lemma_cell_head(m);
                    }
                }
                return Err(e);
            },
        };
        assert(d.subrange(at, at + 1) =~= seq![tag]);
        if tag == DSCR_NULL {
            return Ok(Datacell::Null);
        } else if tag == DSCR_BOOL || tag == DSCR_UINT || tag == DSCR_SINT || tag == DSCR_FLOAT {
            let w = match self.read_u64() {
                Ok(w) => w,
                Err(e) => {
                    proof {
                        assert forall|m: CellModel| cell_wf(m) && #[trigger] encodes_at(d, at, enc_cell(m)) implies false by {
                            assert(d[at] == dscr_of(m));
                        }
                    }
                    return Err(e);
                },
            };
            proof {
                lemma_join(d, at, at + 1, at + 9);
                assert forall|m: CellModel| cell_wf(m) && #[trigger] encodes_at(d, at, enc_cell(m)) implies
                    d.subrange(at + 1, at + 9) == enc_cell(m).subrange(1, 9) by {
                    assert(d[at] == dscr_of(m));
                    lemma_sub(d, at, enc_cell(m), 1, 9);
                }
            }
            if tag == DSCR_BOOL {
                if w > 1 {
                    proof {
                        assert forall|m: CellModel| cell_wf(m) && #[trigger] encodes_at(d, at, enc_cell(m)) implies false by {
                            assert(d[at] == dscr_of(m));
                            let b = m->Bool_0;
                            assert(enc_cell(m).subrange(1, 9) =~= le(if b { 1 } else { 0 }));
                        }
                    }
                    return Err(StorageError::DataBatchRestoreCorruptedEntry);
                }
                let c = Datacell::Bool(w == 1);
                proof {
                    assert(le(if w == 1 { 1u64 } else { 0u64 }) == le(w));
                    assert(enc_cell(c.model()) =~= seq![tag] + le(w));
                    assert forall|m: CellModel| cell_wf(m) && #[trigger] encodes_at(d, at, enc_cell(m)) implies c.model() == m by {
                        assert(d[at] == dscr_of(m));
                        let b = m->Bool_0;
                        assert(enc_cell(m).subrange(1, 9) =~= le(if b { 1 } else { 0 }));
                    }
                }
                return Ok(c);
            }
            let c = if tag == DSCR_UINT {
                Datacell::UnsignedInt(w)
            } else if tag == DSCR_SINT {
                Datacell::SignedInt(w as i64)
            } else {
                Datacell::Float(w)
            };
            proof {
                assert(((w as i64) as u64) == w) by (bit_vector);
                assert(enc_cell(c.model()) =~= seq![tag] + le(w));
                assert forall|m: CellModel| cell_wf(m) && #[trigger] encodes_at(d, at, enc_cell(m)) implies c.model() == m by {
                    assert(d[at] == dscr_of(m));
                    if tag == DSCR_SINT {
                        let x = m->SignedInt_0;
                        assert(enc_cell(m).subrange(1, 9) =~= le(x as u64));
                        assert(((x as u64) as i64) == x) by (bit_vector);
                    } else if tag == DSCR_UINT {
                        assert(enc_cell(m).subrange(1, 9) =~= le(m->UnsignedInt_0));
                    } else {
                        assert(enc_cell(m).subrange(1, 9) =~= le(m->Float_0));
                    }
                }
            }
            return Ok(c);
        } else if tag == DSCR_BIN || tag == DSCR_STR || tag == DSCR_LIST {
            let n = match self.read_u64() {
                Ok(n) => n,
                Err(e) => {
                    proof {
                        assert forall|m: CellModel| cell_wf(m) && #[trigger] encodes_at(d, at, enc_cell(m)) implies false by {
                            assert(d[at] == dscr_of(m));
                        }
                    }
                    return Err(e);
                },
            };
            proof {
                lemma_join(d, at, at + 1, at + 9);
                assert forall|m: CellModel| cell_wf(m) && #[trigger] encodes_at(d, at, enc_cell(m)) implies
                    n == (match m {
                        CellModel::Bin(b) => b.len(),
                        CellModel::Str(b) => b.len(),
                        CellModel::List(v) => v.len(),
                        _ => 0,
                    }) by {
                    assert(d[at] == dscr_of(m));
                    lemma_sub(d, at, enc_cell(m), 1, 9);
                    match m {
                        CellModel::Bin(b) => {
                            assert(enc_cell(m).subrange(1, 9) =~= le(b.len() as u64));
                        },
                        CellModel::Str(b) => {
                            assert(enc_cell(m).subrange(1, 9) =~= le(b.len() as u64));
                        },
                        CellModel::List(v) => {
                            assert(enc_cell(m).subrange(1, 9) =~= le(v.len() as u64));
                        },
                        _ => {},
                    }
                }
            }
            if tag == DSCR_LIST {
                let ghost mid = self.pos as int;
                proof {
                    assert forall|m: CellModel| cell_wf(m) && #[trigger] encodes_at(d, at, enc_cell(m)) implies
                        encodes_at(d, mid, enc_cells(m->List_0)) by {
                        assert(d[at] == dscr_of(m));
                        let v = m->List_0;
                        let e = enc_cell(m);
                        assert(e == seq![DSCR_LIST] + le(v.len() as u64) + enc_cells(v));
                        lemma_sub(d, at, e, 9, e.len() as int);
                        assert(e.subrange(9, e.len() as int) =~= enc_cells(v));
                    }
                }
                let v = self.read_cells(n)?;
                let ghost cm = cells_model(v@);
                let c = Datacell::List(v);
                proof {
                    lemma_list_model(c->List_0);
                    lemma_join(d, at, mid, self.pos as int);
                    assert(enc_cell(c.model()) == seq![DSCR_LIST] + le(cm.len() as u64) + enc_cells(cm));
                    assert(d.subrange(at, mid) =~= seq![tag] + le(n));
                    assert forall|m: CellModel| cell_wf(m) && #[trigger] encodes_at(d, at, enc_cell(m)) implies c.model() == m by {
                        assert(d[at] == dscr_of(m));
                        assert(encodes_at(d, mid, enc_cells(m->List_0)));
                    }
                }
                return Ok(c);
            }
            let b = match self.read_bytes(n) {
                Ok(b) => b,
                Err(e) => {
                    proof {
                        assert forall|m: CellModel| cell_wf(m) && #[trigger] encodes_at(d, at, enc_cell(m)) implies false by {
                            assert(d[at] == dscr_of(m));
                        }
                    }
                    return Err(e);
                },
            };
            proof {
                lemma_join(d, at, at + 9, self.pos as int);
                lemma_join(d, at, at + 1, at + 9);
                assert forall|m: CellModel| cell_wf(m) && #[trigger] encodes_at(d, at, enc_cell(m)) implies
                    (match m {
                        CellModel::Bin(x) => x == b@,
                        CellModel::Str(x) => x == b@,
                        _ => true,
                    }) by {
                    assert(d[at] == dscr_of(m));
                    let e = enc_cell(m);
                    lemma_sub(d, at, e, 9, 9 + n);
                    match m {
                        CellModel::Bin(x) => {
                            assert(e.subrange(9, 9 + n) =~= x);
                        },
                        CellModel::Str(x) => {
                            assert(e.subrange(9, 9 + n) =~= x);
                        },
                        _ => {},
                    }
                }
            }
            if tag == DSCR_STR {
                if !is_utf8(b.as_slice()) {
                    return Err(StorageError::DataBatchRestoreCorruptedEntry);
                }
                let c = Datacell::Str(b);
                proof {
                    assert(enc_cell(c.model()) =~= seq![tag] + le(n) + c->Str_0@);
                }
                return Ok(c);
            }
            let c = Datacell::Bin(b);
            proof {
                assert(enc_cell(c.model()) =~= seq![tag] + le(n) + c->Bin_0@);
            }
            return Ok(c);
        }
        proof {
            assert forall|m: CellModel| cell_wf(m) && #[trigger] encodes_at(d, at, enc_cell(m)) implies false by {
                assert(d[at] == dscr_of(m));
            }
        }
        Err(StorageError::DataBatchRestoreCorruptedEntry)
    }

    fn read_cells(&mut self, n: u64) -> (r: Result<Vec<Datacell>, StorageError>)
        requires
            old(self).wf(),
        ensures
            final(self).follows(old(self)),
            r is Ok ==> r->Ok_0.len() == n && (forall|i: int|
                0 <= i < n ==> cell_wf(#[trigger] cells_model(r->Ok_0@)[i]))
                && final(self).data@.subrange(old(self).pos as int, final(self).pos as int)
                == enc_cells(cells_model(r->Ok_0@)),
            forall|ms: Seq<CellModel>|
                ms.len() == n && (forall|i: int| 0 <= i < n ==> cell_wf(#[trigger] ms[i]))
                    && #[trigger] encodes_at(old(self).data@, old(self).pos as int, enc_cells(ms))
                    ==> r is Ok && cells_model(r->Ok_0@) == ms,
            final(self).pos == read_cells_at(old(self).data@, old(self).pos as int, n as int, Seq::empty()).1,
            match read_cells_at(old(self).data@, old(self).pos as int, n as int, Seq::empty()).0 {
                Ok(v) => r is Ok && cells_model(r->Ok_0@) == v,
                Err(e) => r == Err::<Vec<Datacell>, StorageError>(e),
            },
        decreases old(self).data@.len() - old(self).pos, 1int,
    {
        let ghost d = self.data@;
        let ghost at = self.pos as int;
        let mut list: Vec<Datacell> = Vec::new();
        proof {
            assert(d.subrange(at, at) =~= Seq::<u8>::empty());
            lemma_enc_cells_def(cells_model(list@));
            assert(cell_encs(cells_model(list@)) =~= Seq::<Seq<u8>>::empty());
            assert forall|ms: Seq<CellModel>| ms.len() == n && (forall|i: int| 0 <= i < n ==> cell_wf(#[trigger] ms[i])) && #[trigger] encodes_at(d, at, enc_cells(ms)) implies
                cells_model(list@) == ms.take(0) by {
                assert(cells_model(list@) =~= ms.take(0));
            }
        }
        assert(cells_model(list@) =~= Seq::<CellModel>::empty());
        while !self.is_eof() && (list.len() as u64) != n
            invariant
                self.follows(old(self)),
                d == self.data@,
                at == old(self).pos,
                list.len() <= n,
                self.data@.subrange(at, self.pos as int) == enc_cells(cells_model(list@)),
                forall|i: int| 0 <= i < list.len() ==> cell_wf(#[trigger] cells_model(list@)[i]),
                read_cells_at(d, at, n as int, Seq::empty()) == read_cells_at(
                    d,
                    self.pos as int,
                    n - list.len(),
                    cells_model(list@),
                ),
                forall|ms: Seq<CellModel>|
                    ms.len() == n && (forall|i: int| 0 <= i < n ==> cell_wf(#[trigger] ms[i])) && #[trigger] encodes_at(d, at, enc_cells(ms)) ==> cells_model(list@)
                        == ms.take(list.len() as int),
            decreases d.len() - self.pos,
        {
            let ghost pk = self.pos as int;
            let ghost k = list.len() as int;
            proof {
                assert forall|ms: Seq<CellModel>| ms.len() == n && (forall|i: int| 0 <= i < n ==> cell_wf(#[trigger] ms[i])) && #[trigger] encodes_at(d, at, enc_cells(ms)) implies
                    encodes_at(d, pk, enc_cell(ms[k])) by {
                    lemma_enc_cells_split(ms, k);
                    lemma_enc_cells_first(ms.skip(k));
                    let e = enc_cells(ms);
                    let a = enc_cells(ms.take(k));
                    lemma_sub(d, at, e, 0, a.len() as int);
                    assert(e.subrange(0, a.len() as int) =~= a);
                    assert(pk == at + a.len());
                    let c = enc_cell(ms[k]);
                    assert(ms.skip(k)[0] == ms[k]);
                    lemma_sub(d, at, e, a.len() as int, (a.len() + c.len()) as int);
                    assert(e.subrange(a.len() as int, (a.len() + c.len()) as int) =~= c);
                }
            }
            let c = self.decode_cell()?;
            let ghost before = list@;
            list.push(c);
            proof {
                lemma_cells_model_push(before, c);
                lemma_enc_cells_push(cells_model(before), c.model());
                lemma_join(d, at, pk, self.pos as int);
                assert forall|ms: Seq<CellModel>| ms.len() == n && (forall|i: int| 0 <= i < n ==> cell_wf(#[trigger] ms[i])) && #[trigger] encodes_at(d, at, enc_cells(ms)) implies
                    cells_model(list@) == ms.take(list.len() as int) by {
                    assert(encodes_at(d, pk, enc_cell(ms[k])));
                    assert(ms.take(k + 1) =~= ms.take(k).push(ms[k]));
                }
                assert forall|i: int| 0 <= i < list.len() implies cell_wf(#[trigger] cells_model(list@)[i]) by {
                    if i < k {
                        assert(cells_model(list@)[i] == cells_model(before)[i]);
                    }
                }
            }
        }
        if list.len() as u64 != n {
            proof {
                assert forall|ms: Seq<CellModel>| ms.len() == n && (forall|i: int| 0 <= i < n ==> cell_wf(#[trigger] ms[i])) && #[trigger] encodes_at(d, at, enc_cells(ms)) implies false by {
                    let k = list.len() as int;
                    lemma_enc_cells_split(ms, k);
                    lemma_enc_cells_first(ms.skip(k));
                    lemma_cell_head(ms[k]);
                    let a = enc_cells(ms.take(k));
                    lemma_sub(d, at, enc_cells(ms), 0, a.len() as int);
                    assert(enc_cells(ms).subrange(0, a.len() as int) =~= a);
                }
            }
            return Err(StorageError::DataBatchRestoreCorruptedEntry);
        }
        proof {
            assert forall|ms: Seq<CellModel>| ms.len() == n && (forall|i: int| 0 <= i < n ==> cell_wf(#[trigger] ms[i])) && #[trigger] encodes_at(d, at, enc_cells(ms)) implies
                cells_model(list@) == ms by {
                assert(ms.take(n as int) =~= ms);
            }
        }
        Ok(list)
    }
}

impl DataBatchRestoreDriver {
    fn decode_primary_key(&mut self, pk_type: u8) -> (r: Result<PrimaryIndexKey, StorageError>)
        requires
            old(self).wf(),
        ensures
            final(self).follows(old(self)),
            r is Ok ==> key_tag(r->Ok_0.model()) == pk_type && key_wf(r->Ok_0.model())
                && final(self).data@.subrange(old(self).pos as int, final(self).pos as int)
                == enc_key(r->Ok_0.model()),
            forall|k: KeyModel|
                key_wf(k) && key_tag(k) == pk_type && #[trigger] encodes_at(
                    old(self).data@,
                    old(self).pos as int,
                    enc_key(k),
                ) ==> r is Ok && r->Ok_0.model() == k,
            final(self).pos == read_key_at(old(self).data@, old(self).pos as int, pk_type).1,
            match read_key_at(old(self).data@, old(self).pos as int, pk_type).0 {
                Ok(k) => r is Ok && r->Ok_0.model() == k,
                Err(e) => r == Err::<PrimaryIndexKey, StorageError>(e),
            },
    {
        let ghost d = self.data@;
        let ghost at = self.pos as int;
        proof {
            lemma_le_facts();
        }
        if pk_type > KEY_STR {
            return Err(StorageError::DataBatchRestoreCorruptedEntry);
        }
        let w = match self.read_u64() {
            Ok(w) => w,
            Err(e) => {
                proof {
                    assert forall|k: KeyModel| key_wf(k) && key_tag(k) == pk_type && #[trigger] encodes_at(d, at, enc_key(k)) implies false by {
                        assert(enc_key(k).len() >= 8);
                    }
                }
                return Err(e);
            },
        };
        proof {
            assert forall|k: KeyModel| key_wf(k) && key_tag(k) == pk_type && #[trigger] encodes_at(d, at, enc_key(k)) implies
                le(w) == enc_key(k).subrange(0, 8) by {
                lemma_sub(d, at, enc_key(k), 0, 8);
            }
        }
        if pk_type == KEY_UINT || pk_type == KEY_SINT {
            let k = if pk_type == KEY_UINT {
                PrimaryIndexKey::UnsignedInt(w)
            } else {
                PrimaryIndexKey::SignedInt(w as i64)
            };
            proof {
                assert(((w as i64) as u64) == w) by (bit_vector);
                assert forall|km: KeyModel| key_wf(km) && key_tag(km) == pk_type && #[trigger] encodes_at(d, at, enc_key(km)) implies
                    k.model() == km by {
                    assert(enc_key(km).subrange(0, 8) =~= enc_key(km));
                    if pk_type == KEY_SINT {
                        let x = km->SignedInt_0;
                        assert(((x as u64) as i64) == x) by (bit_vector);
                    }
                }
            }
            return Ok(k);
        }
        let b = match self.read_bytes(w) {
            Ok(b) => b,
            Err(e) => {
                proof {
                    assert forall|k: KeyModel| key_wf(k) && key_tag(k) == pk_type && #[trigger] encodes_at(d, at, enc_key(k)) implies false by {
                        let x = match k {
                            KeyModel::Bin(x) => x,
                            KeyModel::Str(x) => x,
                            _ => Seq::empty(),
                        };
                        assert(enc_key(k).subrange(0, 8) =~= le(x.len() as u64));
                    }
                }
                return Err(e);
            },
        };
        proof {
            lemma_join(d, at, at + 8, self.pos as int);
            assert forall|k: KeyModel| key_wf(k) && key_tag(k) == pk_type && #[trigger] encodes_at(d, at, enc_key(k)) implies
                (match k {
                    KeyModel::Bin(x) => x == b@,
                    KeyModel::Str(x) => x == b@,
                    _ => true,
                }) by {
                let x = match k {
                    KeyModel::Bin(x) => x,
                    KeyModel::Str(x) => x,
                    _ => Seq::empty(),
                };
                assert(enc_key(k).subrange(0, 8) =~= le(x.len() as u64));
                lemma_sub(d, at, enc_key(k), 8, 8 + w);
                assert(enc_key(k).subrange(8, 8 + w) =~= x);
            }
        }
        if pk_type == KEY_STR {
            if !is_utf8(b.as_slice()) {
                return Err(StorageError::DataBatchRestoreCorruptedEntry);
            }
            let k = PrimaryIndexKey::Str(b);
            proof {
                assert(enc_key(k.model()) =~= le(w) + k->Str_0@);
            }
            return Ok(k);
        }
        let k = PrimaryIndexKey::Bin(b);
        proof {
            assert(enc_key(k.model()) =~= le(w) + k->Bin_0@);
        }
        Ok(k)
    }

    /// Reads the rest of an event whose key tag was the byte before the cursor.
    #[verifier::rlimit(60)]
    #[verifier::spinoff_prover]
    fn read_event(&mut self, pk_type: u8) -> (r: Result<DecodedBatchEvent, StorageError>)
        requires
            old(self).wf(),
            old(self).pos >= 1,
            old(self).data@[old(self).pos - 1] == pk_type,
        ensures
            final(self).follows(old(self)),
            r is Ok ==> event_wf(r->Ok_0.model()) && final(self).data@.subrange(
                old(self).pos - 1,
                final(self).pos as int,
            ) == enc_event(r->Ok_0.model()),
            forall|e: EventModel|
                event_wf(e) && #[trigger] encodes_at(old(self).data@, old(self).pos - 1, enc_event(e))
                    ==> r is Ok && r->Ok_0.model() == e,
            final(self).pos == read_event_at(old(self).data@, old(self).pos as int, pk_type).1,
            match read_event_at(old(self).data@, old(self).pos as int, pk_type).0 {
                Ok(e) => r is Ok && r->Ok_0.model() == e,
                Err(e) => r == Err::<DecodedBatchEvent, StorageError>(e),
            },
    {
        let ghost d = self.data@;
        let ghost at = self.pos - 1;
        proof {
            lemma_le_facts();
            assert forall|e: EventModel| event_wf(e) && #[trigger] encodes_at(d, at, enc_event(e)) implies
                enc_event(e).len() >= 10 && key_tag(e.pk) == pk_type by {
                lemma_sub(d, at, enc_event(e), 0, 1);
                assert(d.subrange(at, at + 1)[0] == d[at]);
            }
        }
        if pk_type > KEY_STR {
            proof {
                assert forall|e: EventModel| event_wf(e) && #[trigger] encodes_at(d, at, enc_event(e)) implies false by {
                    lemma_event_head(e);
                }
            }
            return Err(StorageError::DataBatchRestoreCorruptedEntry);
        }
        let txn_id = match self.read_u64() {
            Ok(x) => x,
            Err(err) => {
                return Err(err);
            },
        };
        let kind = match self.read_byte() {
            Ok(x) => x,
            Err(err) => {
                return Err(err);
            },
        };
        let ghost pk_at = self.pos as int;
        proof {
            lemma_join(d, at, at + 1, at + 9);
            lemma_join(d, at, at + 9, at + 10);
            assert(d.subrange(at, at + 1) =~= seq![pk_type]);
            assert(d.subrange(at + 9, at + 10) =~= seq![kind]);
            assert forall|e: EventModel| event_wf(e) && #[trigger] encodes_at(d, at, enc_event(e)) implies
                e.txn_id == txn_id && kind_byte(e.kind) == kind && encodes_at(d, pk_at, enc_key(e.pk)) by {
                let x = enc_event(e);
                let rest = match e.kind {
                    EventKindModel::Delete => Seq::empty(),
                    EventKindModel::Insert(v) => enc_row(v),
                    EventKindModel::Update(v) => enc_row(v),
                };
                assert(x == seq![pk_type] + le(e.txn_id) + seq![kind_byte(e.kind)] + enc_key(e.pk) + rest);
                lemma_sub(d, at, x, 1, 9);
                assert(x.subrange(1, 9) =~= le(e.txn_id));
                lemma_sub(d, at, x, 9, 10);
                assert(x.subrange(9, 10) =~= seq![kind_byte(e.kind)]);
                assert(spec_u64_from_le_bytes(le(e.txn_id)) == e.txn_id);
                assert(e.txn_id == txn_id);
                assert(x[9] == kind_byte(e.kind));
                assert(d.subrange(at, at + x.len())[9] == d[at + 9]);
                assert(kind_byte(e.kind) == kind);
                let kl = enc_key(e.pk).len() as int;
                lemma_sub(d, at, x, 10, 10 + kl);
                assert(x.subrange(10, 10 + kl) =~= enc_key(e.pk));
                assert(encodes_at(d, pk_at, enc_key(e.pk)));
            }
        }
        if kind > KIND_UPDATE {
            return Err(StorageError::DataBatchRestoreCorruptedBatch);
        }
        let pk = self.decode_primary_key(pk_type)?;
        let ghost row_at = self.pos as int;
        proof {
            lemma_join(d, at, pk_at, row_at);
            assert forall|e: EventModel| event_wf(e) && #[trigger] encodes_at(d, at, enc_event(e)) implies
                e.pk == pk.model() by {
                assert(encodes_at(d, pk_at, enc_key(e.pk)));
            }
        }
        if kind == KIND_DELETE {
            let ev = DecodedBatchEvent { txn_id, pk, kind: DecodedBatchEventKind::Delete };
            proof {
                assert(enc_event(ev.model()) =~= seq![pk_type] + le(txn_id) + seq![kind] + enc_key(ev.pk.model()));
                assert(d.subrange(at, pk_at) =~= seq![pk_type] + le(txn_id) + seq![kind]);
            }
            return Ok(ev);
        }
        let n = match self.read_u64() {
            Ok(n) => n,
            Err(err) => {
                proof {
                    assert forall|e: EventModel| event_wf(e) && #[trigger] encodes_at(d, at, enc_event(e)) implies false by {
                        let x = enc_event(e);
                        let kl = enc_key(e.pk).len() as int;
                        let v = match e.kind {
                            EventKindModel::Insert(v) => v,
                            EventKindModel::Update(v) => v,
                            _ => Seq::empty(),
                        };
                        assert(x == seq![pk_type] + le(txn_id) + seq![kind] + enc_key(e.pk) + enc_row(v));
                        assert(x.len() >= 10 + kl + 8);
                    }
                }
                return Err(err);
            },
        };
        let ghost cells_at = self.pos as int;
        proof {
            lemma_join(d, at, row_at, cells_at);
            assert forall|e: EventModel| event_wf(e) && #[trigger] encodes_at(d, at, enc_event(e)) implies
                (match e.kind {
                    EventKindModel::Insert(v) => v.len() == n && encodes_at(d, cells_at, enc_cells(v)),
                    EventKindModel::Update(v) => v.len() == n && encodes_at(d, cells_at, enc_cells(v)),
                    _ => false,
                }) by {
                let x = enc_event(e);
                let kl = enc_key(e.pk).len() as int;
                let v = match e.kind {
                    EventKindModel::Insert(v) => v,
                    EventKindModel::Update(v) => v,
                    _ => Seq::empty(),
                };
                assert(x == seq![pk_type] + le(txn_id) + seq![kind] + enc_key(e.pk) + enc_row(v));
                assert(row_at == at + 10 + kl);
                lemma_sub(d, at, x, 10 + kl, 18 + kl);
                assert(x.subrange(10 + kl, 18 + kl) =~= le(v.len() as u64));
                lemma_sub(d, at, x, 18 + kl, x.len() as int);
                assert(x.subrange(18 + kl, x.len() as int) =~= enc_cells(v));
            }
        }
        let row = match self.read_cells(n) {
            Ok(row) => row,
            Err(err) => {
                proof {
                    assert forall|e: EventModel| event_wf(e) && #[trigger] encodes_at(d, at, enc_event(e)) implies false by {
                        match e.kind {
                            EventKindModel::Insert(v) => {
                                assert(v.len() == n);
                                assert(forall|i: int| 0 <= i < n ==> cell_wf(#[trigger] v[i]));
                                assert(encodes_at(d, cells_at, enc_cells(v)));
                            },
                            EventKindModel::Update(v) => {
                                assert(v.len() == n);
                                assert(forall|i: int| 0 <= i < n ==> cell_wf(#[trigger] v[i]));
                                assert(encodes_at(d, cells_at, enc_cells(v)));
                            },
                            _ => {},
                        }
                    }
                }
                return Err(err);
            },
        };
        let ghost rm = cells_model(row@);
        let ev = if kind == KIND_INSERT {
            DecodedBatchEvent { txn_id, pk, kind: DecodedBatchEventKind::Insert(row) }
        } else {
            DecodedBatchEvent { txn_id, pk, kind: DecodedBatchEventKind::Update(row) }
        };
        proof {
            lemma_join(d, at, cells_at, self.pos as int);
            assert(d.subrange(at, pk_at) =~= seq![pk_type] + le(txn_id) + seq![kind]);
            assert(d.subrange(row_at, cells_at) == le(n));
            assert(enc_event(ev.model()) =~= seq![pk_type] + le(txn_id) + seq![kind] + enc_key(ev.pk.model()) + (le(n) + enc_cells(rm)));
            assert forall|e: EventModel| event_wf(e) && #[trigger] encodes_at(d, at, enc_event(e)) implies
                ev.model() == e by {
                match e.kind {
                    EventKindModel::Insert(v) => {
                        assert(encodes_at(d, cells_at, enc_cells(v)));
                    },
                    EventKindModel::Update(v) => {
                        assert(encodes_at(d, cells_at, enc_cells(v)));
                    },
                    _ => {},
                }
            }
        }
        Ok(ev)
    }
}

impl DataBatchRestoreDriver {
    fn read_batch(&mut self) -> (r: Result<Batch, StorageError>)
        requires
            old(self).wf(),
        ensures
            final(self).wf(),
            final(self).data == old(self).data,
            final(self).start@ == old(self).pos,
            old(self).pos <= final(self).pos,
            old(self).pos < old(self).data.len() ==> old(self).pos < final(self).pos,
            r is Ok && r->Ok_0 is RecoveredFromerror ==> final(self).pos == old(self).pos + 1
                && old(self).data@[old(self).pos as int] == MARKER_RECOVERY_EVENT,
            r is Ok && r->Ok_0 is BatchClosed ==> final(self).pos == old(self).pos + 1
                && old(self).data@[old(self).pos as int] == MARKER_BATCH_CLOSED,
            r is Ok && r->Ok_0 is Normal ==> head_at(
                old(self).data@,
                old(self).pos as int,
                final(self).pos as int,
                r->Ok_0->Normal_0.model(),
            ),
            r is Ok && r->Ok_0 is FinishedEarly ==> head_at(
                old(self).data@,
                old(self).pos as int,
                final(self).pos - 1,
                r->Ok_0->FinishedEarly_0.model(),
            ) && old(self).data@[final(self).pos - 1] == MARKER_END_OF_BATCH,
            old(self).pos < old(self).data.len() && old(self).data@[old(self).pos as int]
                == MARKER_BATCH_CLOSED ==> r is Ok && r->Ok_0 is BatchClosed,
            forall|b: BatchModel, dcl: u64|
                batch_wf(b) && b.events.len() <= dcl && #[trigger] encodes_at(
                    old(self).data@,
                    old(self).pos as int,
                    enc_batch(b, dcl),
                ) ==> r is Ok && if b.events.len() == dcl {
                    r->Ok_0 is Normal && r->Ok_0->Normal_0.model() == b && final(self).pos
                        == old(self).pos + batch_head(b, dcl).len()
                } else {
                    r->Ok_0 is FinishedEarly && r->Ok_0->FinishedEarly_0.model() == b
                        && final(self).pos == old(self).pos + batch_head(b, dcl).len() + 1
                },
            final(self).pos == read_batch_at(old(self).data@, old(self).pos as int).1,
            match read_batch_at(old(self).data@, old(self).pos as int).0 {
                Ok(br) => r is Ok && r->Ok_0.model() == br,
                Err(e) => r == Err::<Batch, StorageError>(e),
            },
    {
        let ghost d = self.data@;
        let ghost at = self.pos as int;
        self.reset_checksum();
        proof {
            lemma_le_facts();
            assert forall|b: BatchModel, dcl: u64|
                batch_wf(b) && b.events.len() <= dcl && #[trigger] encodes_at(d, at, enc_batch(b, dcl)) implies
                d[at] == MARKER_ACTUAL_BATCH_EVENT && d.subrange(at + 1, at + 9) == le(dcl)
                && d.subrange(at + 9, at + 17) == le(b.schema_version)
                && encodes_at(d, at + 17, enc_events(b.events) + seq![MARKER_END_OF_BATCH]) by {
                let x = enc_batch(b, dcl);
                let ev = enc_events(b.events);
                assert(x == seq![MARKER_ACTUAL_BATCH_EVENT] + le(dcl) + le(b.schema_version) + ev + seq![MARKER_END_OF_BATCH] + le(b.events.len() as u64) + le(checksum(enc_batch_body(b, dcl))));
                lemma_sub(d, at, x, 0, 1);
                assert(d.subrange(at, at + 1)[0] == d[at]);
                lemma_sub(d, at, x, 1, 9);
                assert(x.subrange(1, 9) =~= le(dcl));
                lemma_sub(d, at, x, 9, 17);
                assert(x.subrange(9, 17) =~= le(b.schema_version));
                lemma_sub(d, at, x, 17, (18 + ev.len()) as int);
                assert(x.subrange(17, (18 + ev.len()) as int) =~= ev + seq![MARKER_END_OF_BATCH]);
            }
        }
        let marker = self.read_byte()?;
        if marker == MARKER_RECOVERY_EVENT {
            return Ok(Batch::RecoveredFromerror);
        } else if marker == MARKER_BATCH_CLOSED {
            return Ok(Batch::BatchClosed);
        } else if marker != MARKER_ACTUAL_BATCH_EVENT {
            return Err(StorageError::DataBatchRestoreCorruptedBatch);
        }
        let declared = match self.read_u64() {
            Ok(x) => x,
            Err(e) => {
                return Err(e);
            },
        };
        let schema_version = match self.read_u64() {
            Ok(x) => x,
            Err(e) => {
                return Err(e);
            },
        };
        proof {
            lemma_join(d, at, at + 1, at + 9);
            lemma_join(d, at, at + 9, at + 17);
            assert(d.subrange(at, at + 1) =~= seq![MARKER_ACTUAL_BATCH_EVENT]);
            assert forall|b: BatchModel, dcl: u64|
                batch_wf(b) && b.events.len() <= dcl && #[trigger] encodes_at(d, at, enc_batch(b, dcl)) implies
                dcl == declared && b.schema_version == schema_version by {
                assert(spec_u64_from_le_bytes(le(dcl)) == dcl);
                assert(spec_u64_from_le_bytes(le(b.schema_version)) == b.schema_version);
            }
        }
        self.read_batch_events(declared, schema_version, Ghost(at))
    }
}

impl DataBatchRestoreDriver {
    #[verifier::rlimit(100)]
    #[verifier::spinoff_prover]
    fn read_batch_events(&mut self, declared: u64, schema_version: u64, Ghost(at): Ghost<int>) -> (r: Result<Batch, StorageError>)
        requires
            old(self).wf(),
            old(self).start@ == at,
            old(self).pos == at + 17,
            declared == declared_at(old(self).data@, at),
            old(self).data@.subrange(at, at + 17) == seq![MARKER_ACTUAL_BATCH_EVENT] + le(declared) + le(schema_version),
            forall|b: BatchModel, dcl: u64|
                batch_wf(b) && b.events.len() <= dcl && #[trigger] encodes_at(old(self).data@, at, enc_batch(b, dcl)) ==>
                dcl == declared && b.schema_version == schema_version
                && encodes_at(old(self).data@, at + 17, enc_events(b.events) + seq![MARKER_END_OF_BATCH]),
        ensures
            final(self).wf(),
            final(self).data == old(self).data,
            final(self).start@ == at,
            old(self).pos <= final(self).pos,
            r is Ok ==> r->Ok_0 is Normal || r->Ok_0 is FinishedEarly,
            r is Ok && r->Ok_0 is Normal ==> head_at(
                old(self).data@,
                at,
                final(self).pos as int,
                r->Ok_0->Normal_0.model(),
            ),
            r is Ok && r->Ok_0 is FinishedEarly ==> head_at(
                old(self).data@,
                at,
                final(self).pos - 1,
                r->Ok_0->FinishedEarly_0.model(),
            ) && old(self).data@[final(self).pos - 1] == MARKER_END_OF_BATCH,
            forall|b: BatchModel, dcl: u64|
                batch_wf(b) && b.events.len() <= dcl && #[trigger] encodes_at(
                    old(self).data@,
                    at,
                    enc_batch(b, dcl),
                ) ==> r is Ok && if b.events.len() == dcl {
                    r->Ok_0 is Normal && r->Ok_0->Normal_0.model() == b && final(self).pos
                        == at + batch_head(b, dcl).len()
                } else {
                    r->Ok_0 is FinishedEarly && r->Ok_0->FinishedEarly_0.model() == b
                        && final(self).pos == at + batch_head(b, dcl).len() + 1
                },
            final(self).pos == read_events_at(old(self).data@, at + 17, declared as int, schema_version, Seq::empty()).1,
            match read_events_at(old(self).data@, at + 17, declared as int, schema_version, Seq::empty()).0 {
                Ok(br) => r is Ok && r->Ok_0.model() == br,
                Err(e) => r == Err::<Batch, StorageError>(e),
            },
    {
        let ghost d = self.data@;
        proof {
            lemma_le_facts();
        }
        let mut events: Vec<DecodedBatchEvent> = Vec::new();
        let mut processed: u64 = 0;
        proof {
            assert(events_model(events@) =~= Seq::<EventModel>::empty());
            assert(event_encs(events_model(events@)) =~= Seq::<Seq<u8>>::empty());
            assert(d.subrange(at, at + 17) == seq![MARKER_ACTUAL_BATCH_EVENT] + le(declared) + le(schema_version) + enc_events(events_model(events@)));
            assert forall|b: BatchModel, dcl: u64|
                batch_wf(b) && b.events.len() <= dcl && #[trigger] encodes_at(d, at, enc_batch(b, dcl)) implies
                events_model(events@) == b.events.take(0) && encodes_at(d, at + 17, enc_events(b.events.skip(0)) + seq![MARKER_END_OF_BATCH]) by {
                assert(events_model(events@) =~= b.events.take(0));
                assert(b.events.skip(0) =~= b.events);
            }
        }
        while processed != declared && !self.is_eof()
            invariant
                self.wf(),
                self.data == old(self).data,
                self.data@ == d,
                self.start@ == at,
                read_events_at(d, at + 17, declared as int, schema_version, Seq::empty())
                    == read_events_at(
                    d,
                    self.pos as int,
                    declared - processed,
                    schema_version,
                    events_model(events@),
                ),
                old(self).pos == at + 17,
                at + 17 <= self.pos,
                processed == events.len(),
                processed <= declared,
                declared == declared_at(d, at),
                d.subrange(at, self.pos as int) == seq![MARKER_ACTUAL_BATCH_EVENT] + le(declared) + le(
                    schema_version,
                ) + enc_events(events_model(events@)),
                forall|i: int| 0 <= i < events.len() ==> event_wf(#[trigger] events_model(events@)[i]),
                forall|b: BatchModel, dcl: u64|
                    batch_wf(b) && b.events.len() <= dcl && #[trigger] encodes_at(d, at, enc_batch(b, dcl))
                        ==> dcl == declared && b.schema_version == schema_version && events.len() <= b.events.len()
                        && events_model(events@) == b.events.take(events.len() as int) && encodes_at(
                        d,
                        self.pos as int,
                        enc_events(b.events.skip(events.len() as int)) + seq![MARKER_END_OF_BATCH],
                    ),
            decreases d.len() - self.pos,
        {
            let ghost pk = self.pos as int;
            let ghost k = events.len() as int;
            let t = self.read_byte()?;
            if t == MARKER_END_OF_BATCH {
                let batch = NormalBatch { events, schema_version };
                proof {
                    lemma_join(d, at, pk, pk + 1);
                    assert forall|b: BatchModel, dcl: u64|
                        batch_wf(b) && b.events.len() <= dcl && #[trigger] encodes_at(d, at, enc_batch(b, dcl)) implies
                        b.events.len() == k && batch.model() == b by {
                        if b.events.len() > k {
                            let rest = b.events.skip(k);
                            lemma_events_first(rest);
                            lemma_event_head(rest[0]);
                            let x = enc_events(rest) + seq![MARKER_END_OF_BATCH];
                            lemma_sub(d, pk, x, 0, 1);
                            assert(d.subrange(pk, pk + 1)[0] == d[pk]);
                            assert(x[0] == enc_event(rest[0])[0]);
                        }
                        assert(b.events.take(k) =~= b.events);
                    }
                    assert(batch_wf(batch.model()));
                }
                return Ok(Batch::FinishedEarly(batch));
            }
            proof {
                assert forall|b: BatchModel, dcl: u64|
                    batch_wf(b) && b.events.len() <= dcl && #[trigger] encodes_at(d, at, enc_batch(b, dcl)) implies
                    k < b.events.len() && encodes_at(d, pk, enc_event(b.events[k])) by {
                    let rest = b.events.skip(k);
                    let x = enc_events(rest) + seq![MARKER_END_OF_BATCH];
                    if b.events.len() == k {
                        assert(rest.len() == 0);
                        assert(event_encs(rest) =~= Seq::<Seq<u8>>::empty());
                        assert(x =~= seq![MARKER_END_OF_BATCH]);
                        lemma_sub(d, pk, x, 0, 1);
                        assert(d.subrange(pk, pk + 1)[0] == d[pk]);
                    }
                    lemma_events_first(rest);
                    let y = enc_event(rest[0]);
                    lemma_sub(d, pk, x, 0, y.len() as int);
                    assert(x.subrange(0, y.len() as int) =~= y);
                }
            }
            let ghost ep = self.pos as int;
            assert(ep - 1 == pk);
            let e = match self.read_event(t) {
                Ok(e) => e,
                Err(err) => {
                    proof {
                        assert forall|b: BatchModel, dcl: u64|
                            batch_wf(b) && b.events.len() <= dcl && #[trigger] encodes_at(d, at, enc_batch(b, dcl)) implies false by {
                            assert(encodes_at(d, pk, enc_event(b.events[k])));
                            assert(event_wf(b.events[k]));
                            assert(encodes_at(d, ep - 1, enc_event(b.events[k])));
                        }
                    }
                    return Err(err);
                },
            };
            let ghost before = events@;
            events.push(e);
            processed = processed + 1;
            proof {
                lemma_events_model_push(before, e);
                lemma_events_push(events_model(before), e.model());
                lemma_join(d, at, pk, self.pos as int);
                assert forall|i: int| 0 <= i < events.len() implies event_wf(#[trigger] events_model(events@)[i]) by {
                    if i < k {
                        assert(events_model(events@)[i] == events_model(before)[i]);
                    }
                }
                assert forall|b: BatchModel, dcl: u64|
                    batch_wf(b) && b.events.len() <= dcl && #[trigger] encodes_at(d, at, enc_batch(b, dcl)) implies
                    events.len() <= b.events.len() && events_model(events@) == b.events.take(events.len() as int) && encodes_at(
                        d,
                        self.pos as int,
                        enc_events(b.events.skip(events.len() as int)) + seq![MARKER_END_OF_BATCH],
                    ) by {
                    assert(encodes_at(d, pk, enc_event(b.events[k])));
                    assert(b.events.take(k + 1) =~= b.events.take(k).push(b.events[k]));
                    let rest = b.events.skip(k);
                    lemma_events_first(rest);
                    assert(rest.skip(1) =~= b.events.skip(k + 1));
                    let x = enc_events(rest) + seq![MARKER_END_OF_BATCH];
                    let y = enc_event(b.events[k]);
                    lemma_sub(d, pk, x, y.len() as int, x.len() as int);
                    assert(x.subrange(y.len() as int, x.len() as int) =~= enc_events(b.events.skip(k + 1)) + seq![MARKER_END_OF_BATCH]);
                }
            }
        }
        let batch = NormalBatch { events, schema_version };
        proof {
            assert forall|b: BatchModel, dcl: u64|
                batch_wf(b) && b.events.len() <= dcl && #[trigger] encodes_at(d, at, enc_batch(b, dcl)) implies
                b.events.len() == dcl && batch.model() == b by {
                let k = processed as int;
                if processed != declared {
                    let x = enc_events(b.events.skip(k)) + seq![MARKER_END_OF_BATCH];
                    assert(x.len() >= 1);
                }
                assert(b.events.take(k) =~= b.events);
            }
            assert(le(declared) == d.subrange(at + 1, at + 9));
            assert(batch_wf(batch.model()));
        }
        Ok(Batch::Normal(batch))
    }
}

impl DataBatchRestoreDriver {
    /// Reads a stored checksum; it is not itself part of any checksum.
    fn read_stored_u64(&mut self) -> (r: Result<u64, StorageError>)
        requires
            old(self).wf(),
        ensures
            final(self).wf(),
            final(self).data == old(self).data,
            old(self).pos <= final(self).pos,
            old(self).pos + 8 <= old(self).data.len() ==> r == Ok::<u64, StorageError>(
                spec_u64_from_le_bytes(old(self).data@.subrange(old(self).pos as int, old(self).pos + 8)),
            ) && final(self).pos == old(self).pos + 8,
            old(self).pos + 8 > old(self).data.len() ==> r == Err::<u64, StorageError>(
                StorageError::UnexpectedEof,
            ) && final(self).pos == old(self).pos,
    {
        if self.data.len() - self.pos < 8 {
            return Err(StorageError::UnexpectedEof);
        }
        let ghost at = self.pos as int;
        let mut buf: Vec<u8> = Vec::new();
        let mut i: usize = 0;
        while i < 8
            invariant
                self.wf(),
                self.data == old(self).data,
                self.pos == at,
                at == old(self).pos,
                at + 8 <= self.data.len(),
                i <= 8,
                buf@ == self.data@.subrange(at, at + i),
            decreases 8 - i,
        {
            buf.push(self.data[self.pos + i]);
            i += 1;
            assert(buf@ =~= self.data@.subrange(at, at + i));
        }
        self.pos = self.pos + 8;
        self.start = Ghost(self.pos as int);
        self.checksum = 0;
        assert(self.data@.subrange(self.pos as int, self.pos as int) =~= Seq::<u8>::empty());
        Ok(u64_from_le_bytes(buf.as_slice()))
    }

    fn read_batch_summary(&mut self, finished_early: bool) -> (r: Result<u64, StorageError>)
        requires
            old(self).wf(),
        ensures
            final(self).wf(),
            final(self).data == old(self).data,
            old(self).pos <= final(self).pos,
            r is Ok ==> old(self).pos + 8 <= final(self).pos && old(self).data@.subrange(
                old(self).pos as int,
                final(self).pos - 8,
            ) == summary_tail(finished_early, r->Ok_0) && old(self).data@.subrange(
                final(self).pos - 8,
                final(self).pos as int,
            ) == le(checksum(old(self).data@.subrange(old(self).start@, final(self).pos - 8))),
            forall|c: u64|
                #[trigger] encodes_at(
                    old(self).data@,
                    old(self).pos as int,
                    summary_tail(finished_early, c) + le(
                        checksum(
                            old(self).data@.subrange(old(self).start@, old(self).pos as int)
                                + summary_tail(finished_early, c),
                        ),
                    ),
                ) ==> r == Ok::<u64, StorageError>(c),
            final(self).pos == read_summary_at(
                old(self).data@,
                old(self).start@,
                old(self).pos as int,
                finished_early,
            ).1,
            r == read_summary_at(
                old(self).data@,
                old(self).start@,
                old(self).pos as int,
                finished_early,
            ).0,
    {
        let ghost d = self.data@;
        let ghost at = self.pos as int;
        let ghost st = self.start@;
        proof {
            lemma_le_facts();
        }
        if !finished_early {
            let b = self.read_byte()?;
            if b != MARKER_END_OF_BATCH {
                proof {
                    assert forall|c: u64| #[trigger] encodes_at(d, at, summary_tail(finished_early, c) + le(checksum(d.subrange(st, at) + summary_tail(finished_early, c)))) implies false by {
                        let x = summary_tail(finished_early, c) + le(checksum(d.subrange(st, at) + summary_tail(finished_early, c)));
                        lemma_sub(d, at, x, 0, 1);
                        assert(d.subrange(at, at + 1)[0] == d[at]);
                    }
                }
                return Err(StorageError::DataBatchRestoreCorruptedBatch);
            }
        }
        let ghost mid = self.pos as int;
        let commit = self.read_u64()?;
        let ghost q = self.pos as int;
        let actual = self.checksum;
        let stored = self.read_stored_u64()?;
        proof {
            lemma_join(d, at, mid, q);
            if !finished_early {
                assert(d.subrange(at, mid) =~= seq![MARKER_END_OF_BATCH]);
            } else {
                assert(mid == at);
            }
            assert(d.subrange(at, q) =~= summary_tail(finished_early, commit));
            lemma_join(d, st, at, q);
            assert forall|c: u64| #[trigger] encodes_at(d, at, summary_tail(finished_early, c) + le(checksum(d.subrange(st, at) + summary_tail(finished_early, c)))) implies
                c == commit && stored == actual by {
                let t = summary_tail(finished_early, c);
                let x = t + le(checksum(d.subrange(st, at) + t));
                lemma_sub(d, at, x, 0, t.len() as int);
                assert(x.subrange(0, t.len() as int) =~= t);
                if finished_early {
                    assert(t == le(c));
                } else {
                    assert(t.subrange(1, 9) =~= le(c));
                    assert(d.subrange(at + 1, at + 9) == d.subrange(at, at + 9).subrange(1, 9));
                }
                assert(c == commit);
                lemma_sub(d, at, x, t.len() as int, (t.len() + 8) as int);
                assert(x.subrange(t.len() as int, (t.len() + 8) as int) =~= le(checksum(d.subrange(st, at) + t)));
            }
        }
        if actual == stored {
            Ok(commit)
        } else {
            Err(StorageError::DataBatchRestoreCorruptedBatch)
        }
    }

    fn attempt_recover_data_batch(&mut self) -> (r: Result<(), StorageError>)
        requires
            old(self).wf(),
        ensures
            final(self).wf(),
            final(self).data == old(self).data,
            old(self).pos <= final(self).pos,
            r is Ok ==> final(self).pos >= 1 && old(self).data@[final(self).pos - 1]
                == MARKER_RECOVERY_EVENT,
            r is Err ==> r == Err::<(), StorageError>(StorageError::DataBatchRestoreCorruptedBatch),
            (r is Ok) == recover_at(old(self).data@, old(self).pos as int, RECOVERY_THRESHOLD as int).0,
            final(self).pos == recover_at(old(self).data@, old(self).pos as int, RECOVERY_THRESHOLD as int).1,
            (r is Ok) <==> exists|i: int|
                old(self).pos <= i < old(self).pos + RECOVERY_THRESHOLD && i < old(self).data.len()
                    && old(self).data@[i] == MARKER_RECOVERY_EVENT,
            r is Ok ==> old(self).data@[final(self).pos - 1] == MARKER_RECOVERY_EVENT && forall|i: int|
                old(self).pos <= i < final(self).pos - 1 ==> old(self).data@[i] != MARKER_RECOVERY_EVENT,
            r is Err ==> final(self).pos <= old(self).pos + RECOVERY_THRESHOLD,
    {
        proof {
            lemma_recover_at(self.data@, self.pos as int, RECOVERY_THRESHOLD as int);
        }
        let mut max_threshold: usize = RECOVERY_THRESHOLD;
        while max_threshold != 0 && self.pos < self.data.len()
            invariant
                self.wf(),
                self.data == old(self).data,
                old(self).pos <= self.pos,
                recover_at(self.data@, old(self).pos as int, RECOVERY_THRESHOLD as int) == recover_at(
                    self.data@,
                    self.pos as int,
                    max_threshold as int,
                ),
            decreases max_threshold,
        {
            let b = self.data[self.pos];
            self.pos = self.pos + 1;
            self.start = Ghost(self.pos as int);
            self.checksum = 0;
            assert(self.data@.subrange(self.pos as int, self.pos as int) =~= Seq::<u8>::empty());
            if b == MARKER_RECOVERY_EVENT {
                proof {
                    lemma_recover_at(old(self).data@, old(self).pos as int, RECOVERY_THRESHOLD as int);
                }
                return Ok(());
            }
            max_threshold -= 1;
        }
        Err(StorageError::DataBatchRestoreCorruptedBatch)
    }

    fn handle_reopen_is_actual_close(&mut self) -> (r: Result<bool, StorageError>)
        requires
            old(self).wf(),
        ensures
            final(self).wf(),
            final(self).data == old(self).data,
            old(self).pos <= final(self).pos,
            old(self).pos >= old(self).data.len() <==> r == Ok::<bool, StorageError>(true),
            r == Ok::<bool, StorageError>(true) ==> final(self).pos == old(self).pos,
            r == Ok::<bool, StorageError>(false) ==> final(self).pos == old(self).pos + 1
                && old(self).data@[old(self).pos as int] == MARKER_BATCH_REOPEN,
            r == reopen_at(old(self).data@, old(self).pos as int).0,
            final(self).pos == reopen_at(old(self).data@, old(self).pos as int).1,
    {
        if self.is_eof() {
            Ok(true)
        } else {
            if self.read_byte()? == MARKER_BATCH_REOPEN {
                Ok(false)
            } else {
                Err(StorageError::DataBatchRestoreCorruptedBatchFile)
            }
        }
    }
}

proof fn lemma_batches_model_push(v: Seq<NormalBatch>, b: NormalBatch)
    ensures
        batches_model(v.push(b)) == batches_model(v).push(b.model()),
{
    assert(batches_model(v.push(b)) =~= batches_model(v).push(b.model()));
}

/// The journal `d` is one that a single session wrote for `bs`.
pub open spec fn written_for(d: Seq<u8>, bs: Seq<BatchModel>) -> bool {
    journal_wf(bs) && d == enc_journal(bs)
}

impl DataBatchRestoreDriver {
    /// Reads every batch up to the confirmed close of the journal.
    ///
    /// The result is exactly `restore_from` of the bytes: each batch whose
    /// framing decodes, whose summary count matches its events and whose
    /// stored checksum matches is returned once, in file order; a batch that
    /// fails is skipped when a recovery marker follows within the scan window
    /// and fails the read otherwise; a close followed by a reopen marker
    /// continues the journal; the read succeeds only where a close is
    /// confirmed at the end of the stream. A journal written in one session
    /// reads back as the batches it was written for.
    #[verifier::rlimit(80)]
    #[verifier::spinoff_prover]
    pub fn read_all_batches(&mut self) -> (r: Result<Vec<NormalBatch>, StorageError>)
        requires
            old(self).wf(),
        ensures
            final(self).wf(),
            final(self).bytes() == old(self).bytes(),
            match restore_from(old(self).bytes(), old(self).position(), Seq::empty()) {
                Ok(bs) => r is Ok && batches_model(r->Ok_0@) == bs,
                Err(e) => r == Err::<Vec<NormalBatch>, StorageError>(e),
            },
            forall|bs: Seq<BatchModel>|
                old(self).position() == 0 && #[trigger] written_for(old(self).bytes(), bs) ==> r is Ok
                    && batches_model(r->Ok_0@) == bs,
    {
        let ghost d = self.data@;
        let ghost p_init = self.pos as int;
        let mut all: Vec<NormalBatch> = Vec::new();
        let mut closed = false;
        assert(batches_model(all@) =~= Seq::<BatchModel>::empty());
        proof {
            assert forall|bs: Seq<BatchModel>| p_init == 0 && #[trigger] written_for(d, bs) implies
                batches_model(all@) == bs.take(0) && p_init == journal_offset(bs, 0) by {
                assert(batches_model(all@) =~= bs.take(0));
                assert(batch_encs(bs).take(0) =~= Seq::<Seq<u8>>::empty());
            }
        }
        while !self.is_eof() && !closed
            invariant
                self.wf(),
                self.data == old(self).data,
                d == self.data@,
                p_init == old(self).pos,
                p_init <= self.pos,
                closed ==> self.pos == d.len() && restore_from(d, p_init, Seq::empty()) == Ok::<
                    Seq<BatchModel>,
                    StorageError,
                >(batches_model(all@)),
                !closed ==> restore_from(d, p_init, Seq::empty()) == restore_from(
                    d,
                    self.pos as int,
                    batches_model(all@),
                ),
                forall|bs: Seq<BatchModel>|
                    p_init == 0 && #[trigger] written_for(d, bs) ==> all.len() <= bs.len()
                        && batches_model(all@) == bs.take(all.len() as int) && (closed ==> all.len()
                        == bs.len()) && (!closed ==> self.pos == journal_offset(bs, all.len() as int)),
            decreases d.len() - self.pos,
        {
            let ghost p = self.pos as int;
            let ghost k = all.len() as int;
            proof {
                assert forall|bs: Seq<BatchModel>| p_init == 0 && #[trigger] written_for(d, bs) implies
                    (k < bs.len() ==> encodes_at(d, p, enc_batch(bs[k], bs[k].events.len() as u64))
                        && batch_wf(bs[k])) && (k == bs.len() ==> d[p] == MARKER_BATCH_CLOSED && p
                        == d.len() - 1) by {
                    lemma_journal_at(bs, k);
                }
            }
            let batch = match self.read_batch() {
                Ok(b) => b,
                Err(_) => {
                    proof {
                        assert forall|bs: Seq<BatchModel>| p_init == 0 && #[trigger] written_for(d, bs) implies false by {
                            if k < bs.len() {
                                assert(encodes_at(d, p, enc_batch(bs[k], bs[k].events.len() as u64)));
                            }
                        }
                    }
                    let ghost q = self.pos as int;
                    assert(restore_from(d, p, batches_model(all@)) == resume_at(d, p, q, batches_model(all@)));
                    let rec = self.attempt_recover_data_batch();
                    proof {
                        assert(resume_at(d, p, q, batches_model(all@)) == if rec is Ok {
                            restore_from(d, self.pos as int, batches_model(all@))
                        } else {
                            Err(StorageError::DataBatchRestoreCorruptedBatch)
                        });
                    }
                    rec?;
                    continue ;
                },
            };
            let ghost q0 = self.pos as int;
            assert(self.start@ == p);
            let (nb, finished_early) = match batch {
                Batch::RecoveredFromerror => {
                    proof {
                        assert forall|bs: Seq<BatchModel>| p_init == 0 && #[trigger] written_for(d, bs) implies false by {
                            if k < bs.len() {
                                assert(encodes_at(d, p, enc_batch(bs[k], bs[k].events.len() as u64)));
                            }
                        }
                    }
                    assert(restore_from(d, p, batches_model(all@)) == restore_from(d, q0, batches_model(all@)));
                    continue ;
                },
                Batch::BatchClosed => {
                    assert(restore_from(d, p, batches_model(all@)) == (match reopen_at(d, q0).0 {
                        Err(e) => Err(e),
                        Ok(true) => Ok(batches_model(all@)),
                        Ok(false) => if p < reopen_at(d, q0).1 <= d.len() {
                            restore_from(d, reopen_at(d, q0).1, batches_model(all@))
                        } else {
                            Err(StorageError::DataBatchRestoreCorruptedBatchFile)
                        },
                    }));
                    let c = self.handle_reopen_is_actual_close()?;
                    proof {
                        assert forall|bs: Seq<BatchModel>| p_init == 0 && #[trigger] written_for(d, bs) implies
                            k == bs.len() && c by {
                            if k < bs.len() {
                                assert(encodes_at(d, p, enc_batch(bs[k], bs[k].events.len() as u64)));
                            }
                        }
                        if c {
                            assert(d.last() == d[p]);
                        }
                    }
                    closed = c;
                    continue ;
                },
                Batch::Normal(b) => (b, false),
                Batch::FinishedEarly(b) => (b, true),
            };
            assert(restore_from(d, p, batches_model(all@)) == after_batch(d, p, q0, nb.model(), finished_early, batches_model(all@)));
            proof {
                assert forall|bs: Seq<BatchModel>| p_init == 0 && #[trigger] written_for(d, bs) implies
                    k < bs.len() && !finished_early && nb.model() == bs[k] && encodes_at(
                        d,
                        q0,
                        summary_tail(false, bs[k].events.len() as u64) + le(
                            checksum(
                                d.subrange(p, q0) + summary_tail(false, bs[k].events.len() as u64),
                            ),
                        ),
                    ) by {
                    if k < bs.len() {
                        let b = bs[k];
                        let dcl = b.events.len() as u64;
                        assert(encodes_at(d, p, enc_batch(b, dcl)));
                        let h = batch_head(b, dcl);
                        let x = enc_batch(b, dcl);
                        assert(enc_batch_body(b, dcl) =~= h + summary_tail(false, dcl));
                        assert(x =~= h + summary_tail(false, dcl) + le(checksum(h + summary_tail(false, dcl))));
                        lemma_sub(d, p, x, 0, h.len() as int);
                        assert(x.subrange(0, h.len() as int) =~= h);
                        lemma_sub(d, p, x, h.len() as int, x.len() as int);
                        assert(x.subrange(h.len() as int, x.len() as int) =~= summary_tail(false, dcl) + le(checksum(h + summary_tail(false, dcl))));
                    }
                }
            }
            let commit = match self.read_batch_summary(finished_early) {
                Ok(c) => c,
                Err(_) => {
                    proof {
                        assert forall|bs: Seq<BatchModel>| p_init == 0 && #[trigger] written_for(d, bs) implies false by {
                            let c = bs[k].events.len() as u64;
                            assert(encodes_at(d, q0, summary_tail(false, c) + le(checksum(d.subrange(p, q0) + summary_tail(false, c)))));
                        }
                    }
                    let ghost q = self.pos as int;
                    assert(after_batch(d, p, q0, nb.model(), finished_early, batches_model(all@)) == resume_at(d, p, q, batches_model(all@)));
                    let rec = self.attempt_recover_data_batch();
                    proof {
                        assert(resume_at(d, p, q, batches_model(all@)) == if rec is Ok {
                            restore_from(d, self.pos as int, batches_model(all@))
                        } else {
                            Err(StorageError::DataBatchRestoreCorruptedBatch)
                        });
                    }
                    rec?;
                    continue ;
                },
            };
            let ghost q1 = self.pos as int;
            proof {
                assert forall|bs: Seq<BatchModel>| p_init == 0 && #[trigger] written_for(d, bs) implies
                    commit == bs[k].events.len() as u64 by {
                    let c = bs[k].events.len() as u64;
                    assert(encodes_at(d, q0, summary_tail(false, c) + le(checksum(d.subrange(p, q0) + summary_tail(false, c)))));
                }
            }
            if nb.events.len() as u64 != commit {
                proof {
                    assert forall|bs: Seq<BatchModel>| p_init == 0 && #[trigger] written_for(d, bs) implies false by {
                        assert(nb.model() == bs[k]);
                        assert(nb.model().events.len() == nb.events.len());
                    }
                }
                assert(nb.model().events.len() == nb.events.len());
                assert(after_batch(d, p, q0, nb.model(), finished_early, batches_model(all@)) == resume_at(d, p, q1, batches_model(all@)));
                let rec = self.attempt_recover_data_batch();
                proof {
                    assert(resume_at(d, p, q1, batches_model(all@)) == if rec is Ok {
                        restore_from(d, self.pos as int, batches_model(all@))
                    } else {
                        Err(StorageError::DataBatchRestoreCorruptedBatch)
                    });
                }
                rec?;
                continue ;
            }
            assert(nb.model().events.len() == nb.events.len());
            assert(after_batch(d, p, q0, nb.model(), finished_early, batches_model(all@)) == restore_from(d, q1, batches_model(all@).push(nb.model())));
            let ghost before = all@;
            all.push(nb);
            proof {
                lemma_batches_model_push(before, nb);
                assert forall|bs: Seq<BatchModel>| p_init == 0 && #[trigger] written_for(d, bs) implies
                    batches_model(all@) == bs.take(all.len() as int) && self.pos == journal_offset(bs, all.len() as int) by {
                    lemma_journal_at(bs, k);
                    assert(bs.take(k + 1) =~= bs.take(k).push(bs[k]));
                    let b = bs[k];
                    let dcl = b.events.len() as u64;
                    lemma_le_facts();
                    assert(enc_batch_body(b, dcl) =~= batch_head(b, dcl) + summary_tail(false, dcl));
                    assert(le(checksum(enc_batch_body(b, dcl))).len() == 8);
                    assert(batch_head(b, dcl).len() + summary_tail(false, dcl).len() + 8 == enc_batch(b, dcl).len());
                }
            }
        }
        if closed && self.is_eof() {
            proof {
                assert forall|bs: Seq<BatchModel>| p_init == 0 && #[trigger] written_for(d, bs) implies
                    batches_model(all@) == bs by {
                    assert(bs.take(bs.len() as int) =~= bs);
                }
            }
            Ok(all)
        } else {
            proof {
                assert forall|bs: Seq<BatchModel>| p_init == 0 && #[trigger] written_for(d, bs) implies false by {
                    lemma_journal_at(bs, all.len() as int);
                }
            }
            Err(StorageError::DataBatchRestoreCorruptedBatchFile)
        }
    }
}

} // verus!
