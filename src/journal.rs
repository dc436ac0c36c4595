//! The byte layout of the batch journal, as spec functions.
use vstd::prelude::*;
use vstd::bytes::spec_u64_to_le_bytes;
use vstd::arithmetic::div_mod::{lemma_add_mod_noop, lemma_mod_add_multiples_vanish, lemma_small_mod};
use crate::cell::{CellModel, KeyModel, cell_wf, key_wf};

verus! {

/// The journal was reopened for further appends.
pub const MARKER_BATCH_REOPEN: u8 = 0xFB;
/// The journal was closed.
pub const MARKER_BATCH_CLOSED: u8 = 0xFC;
/// End of the events of a batch.
pub const MARKER_END_OF_BATCH: u8 = 0xFD;
/// A batch of events follows.
pub const MARKER_ACTUAL_BATCH_EVENT: u8 = 0xFE;
/// A write failed here; readers may resynchronise on this byte.
pub const MARKER_RECOVERY_EVENT: u8 = 0xFF;
/// How many bytes a reader scans for a recovery marker.
pub const RECOVERY_THRESHOLD: usize = 10;

/// Cell type discriminants.
pub const DSCR_NULL: u8 = 0;
pub const DSCR_BOOL: u8 = 1;
pub const DSCR_UINT: u8 = 2;
pub const DSCR_SINT: u8 = 3;
pub const DSCR_FLOAT: u8 = 4;
pub const DSCR_BIN: u8 = 5;
pub const DSCR_STR: u8 = 6;
pub const DSCR_LIST: u8 = 7;
pub const DSCR_DICT: u8 = 8;

/// Primary key type tags.
pub const KEY_UINT: u8 = 0;
pub const KEY_SINT: u8 = 1;
pub const KEY_BIN: u8 = 2;
pub const KEY_STR: u8 = 3;

/// Change kinds of an event.
pub const KIND_DELETE: u8 = 0;
pub const KIND_INSERT: u8 = 1;
pub const KIND_UPDATE: u8 = 2;

pub open spec fn le(x: u64) -> Seq<u8> {
    spec_u64_to_le_bytes(x)
}

/// Length-prefixed bytes.
pub open spec fn enc_bytes(b: Seq<u8>) -> Seq<u8> {
    le(b.len() as u64) + b
}

pub open spec fn enc_cell(c: CellModel) -> Seq<u8>
    decreases c,
{
    match c {
        CellModel::Null => seq![DSCR_NULL],
        CellModel::Bool(b) => seq![DSCR_BOOL] + le(if b { 1 } else { 0 }),
        CellModel::UnsignedInt(x) => seq![DSCR_UINT] + le(x),
        CellModel::SignedInt(x) => seq![DSCR_SINT] + le(x as u64),
        CellModel::Float(x) => seq![DSCR_FLOAT] + le(x),
        CellModel::Bin(b) => seq![DSCR_BIN] + enc_bytes(b),
        CellModel::Str(b) => seq![DSCR_STR] + enc_bytes(b),
        CellModel::List(v) => seq![DSCR_LIST] + le(v.len() as u64) + cell_encs(v).flatten(),
    }
}

/// The encoding of each cell.
pub open spec fn cell_encs(v: Seq<CellModel>) -> Seq<Seq<u8>>
    decreases v,
{
    Seq::new(
        v.len(),
        |i: int|
            if 0 <= i < v.len() {
                enc_cell(v[i])
            } else {
                Seq::empty()
            },
    )
}

/// The cells of a row or of a list, one after another.
pub open spec fn enc_cells(v: Seq<CellModel>) -> Seq<u8> {
    cell_encs(v).flatten()
}

pub open spec fn key_tag(k: KeyModel) -> u8 {
    match k {
        KeyModel::UnsignedInt(_) => KEY_UINT,
        KeyModel::SignedInt(_) => KEY_SINT,
        KeyModel::Bin(_) => KEY_BIN,
        KeyModel::Str(_) => KEY_STR,
    }
}

pub open spec fn enc_key(k: KeyModel) -> Seq<u8> {
    match k {
        KeyModel::UnsignedInt(x) => le(x),
        KeyModel::SignedInt(x) => le(x as u64),
        KeyModel::Bin(b) => enc_bytes(b),
        KeyModel::Str(b) => enc_bytes(b),
    }
}

pub enum EventKindModel {
    Delete,
    Insert(Seq<CellModel>),
    Update(Seq<CellModel>),
}

pub struct EventModel {
    pub txn_id: u64,
    pub pk: KeyModel,
    pub kind: EventKindModel,
}

pub struct BatchModel {
    pub events: Seq<EventModel>,
    pub schema_version: u64,
}

pub open spec fn kind_byte(k: EventKindModel) -> u8 {
    match k {
        EventKindModel::Delete => KIND_DELETE,
        EventKindModel::Insert(_) => KIND_INSERT,
        EventKindModel::Update(_) => KIND_UPDATE,
    }
}

pub open spec fn enc_row(v: Seq<CellModel>) -> Seq<u8> {
    le(v.len() as u64) + enc_cells(v)
}

/// One event: key tag, transaction id, change kind, key, and the row for
/// inserts and updates.
pub open spec fn enc_event(e: EventModel) -> Seq<u8> {
    seq![key_tag(e.pk)] + le(e.txn_id) + seq![kind_byte(e.kind)] + enc_key(e.pk) + match e.kind {
        EventKindModel::Delete => Seq::empty(),
        EventKindModel::Insert(v) => enc_row(v),
        EventKindModel::Update(v) => enc_row(v),
    }
}

pub open spec fn event_encs(es: Seq<EventModel>) -> Seq<Seq<u8>> {
    Seq::new(es.len(), |i: int| enc_event(es[i]))
}

pub open spec fn enc_events(es: Seq<EventModel>) -> Seq<u8> {
    event_encs(es).flatten()
}

pub open spec fn row_wf(v: Seq<CellModel>) -> bool {
    &&& v.len() <= u64::MAX
    &&& forall|i: int| 0 <= i < v.len() ==> cell_wf(#[trigger] v[i])
}

pub open spec fn event_wf(e: EventModel) -> bool {
    &&& key_wf(e.pk)
    &&& match e.kind {
        EventKindModel::Delete => true,
        EventKindModel::Insert(v) => row_wf(v),
        EventKindModel::Update(v) => row_wf(v),
    }
}

pub open spec fn batch_wf(b: BatchModel) -> bool {
    &&& b.events.len() <= u64::MAX
    &&& forall|i: int| 0 <= i < b.events.len() ==> event_wf(#[trigger] b.events[i])
}

/// The sum of the bytes, as a natural number.
pub open spec fn byte_sum(s: Seq<u8>) -> nat
    decreases s.len(),
{
    if s.len() == 0 {
        0
    } else {
        byte_sum(s.drop_last()) + s.last() as nat
    }
}

/// The checksum of a stretch of the journal: the sum of its bytes modulo 2^64.
pub open spec fn checksum(s: Seq<u8>) -> u64 {
    (byte_sum(s) % 0x1_0000_0000_0000_0000) as u64
}

/// A batch as written: marker, declared event count, schema version, the
/// events, the end marker, the committed count, and the checksum of all of
/// that.
pub open spec fn batch_head(b: BatchModel, declared: u64) -> Seq<u8> {
    seq![MARKER_ACTUAL_BATCH_EVENT] + le(declared) + le(b.schema_version) + enc_events(b.events)
}

pub open spec fn enc_batch_body(b: BatchModel, declared: u64) -> Seq<u8> {
    batch_head(b, declared) + seq![MARKER_END_OF_BATCH] + le(b.events.len() as u64)
}

pub open spec fn enc_batch(b: BatchModel, declared: u64) -> Seq<u8> {
    enc_batch_body(b, declared) + le(checksum(enc_batch_body(b, declared)))
}

/// Each batch framed with its own event count.
pub open spec fn batch_encs(bs: Seq<BatchModel>) -> Seq<Seq<u8>> {
    Seq::new(bs.len(), |i: int| enc_batch(bs[i], bs[i].events.len() as u64))
}

/// A journal that was written in one session: its batches, then the close marker.
pub open spec fn enc_journal(bs: Seq<BatchModel>) -> Seq<u8> {
    batch_encs(bs).flatten() + seq![MARKER_BATCH_CLOSED]
}

pub open spec fn journal_wf(bs: Seq<BatchModel>) -> bool {
    forall|i: int| 0 <= i < bs.len() ==> batch_wf(#[trigger] bs[i])
}

proof fn lemma_byte_sum_concat(a: Seq<u8>, b: Seq<u8>)
    ensures
        byte_sum(a + b) == byte_sum(a) + byte_sum(b),
    decreases b.len(),
{
    if b.len() == 0 {
        assert(a + b =~= a);
    } else {
        lemma_byte_sum_concat(a, b.drop_last());
        assert((a + b).drop_last() =~= a + b.drop_last());
    }
}

/// Changing any one byte of a stretch of the journal changes its checksum, so
/// a batch body with one corrupted byte never matches the checksum that was
/// stored for it.
pub proof fn lemma_checksum_detects_single_byte_change(s: Seq<u8>, i: int, b: u8)
    requires
        0 <= i < s.len(),
        s[i] != b,
    ensures
        checksum(s.update(i, b)) != checksum(s),
{
    let t = s.update(i, b);
    let pre = s.take(i);
    let post = s.skip(i + 1);
    assert(s =~= pre + seq![s[i]] + post);
    assert(t =~= pre + seq![b] + post);
    lemma_byte_sum_concat(pre + seq![s[i]], post);
    lemma_byte_sum_concat(pre, seq![s[i]]);
    lemma_byte_sum_concat(pre + seq![b], post);
    lemma_byte_sum_concat(pre, seq![b]);
    assert(byte_sum(seq![s[i]]) == s[i] as nat) by {
        assert(seq![s[i]].drop_last() =~= Seq::<u8>::empty());
        assert(byte_sum(Seq::<u8>::empty()) == 0);
    }
    assert(byte_sum(seq![b]) == b as nat) by {
        assert(seq![b].drop_last() =~= Seq::<u8>::empty());
        assert(byte_sum(Seq::<u8>::empty()) == 0);
    }
    let x = byte_sum(pre) + byte_sum(post);
    let m: int = 0x1_0000_0000_0000_0000;
    let p = s[i] as int;
    let q = b as int;
    assert(byte_sum(s) == x + p);
    assert(byte_sum(t) == x + q);
    if (x + p) % m == (x + q) % m {
        vstd::arithmetic::div_mod::lemma_fundamental_div_mod(x + p, m);
        vstd::arithmetic::div_mod::lemma_fundamental_div_mod(x + q, m);
        let d1 = (x + p) / m;
        let d2 = (x + q) / m;
        assert(p - q == m * (d1 - d2)) by (nonlinear_arith)
            requires
                x + p == m * d1 + (x + p) % m,
                x + q == m * d2 + (x + q) % m,
                (x + p) % m == (x + q) % m,
        ;
        assert(d1 - d2 == 0) by (nonlinear_arith)
            requires
                p - q == m * (d1 - d2),
                -256 < p - q < 256,
                m == 0x1_0000_0000_0000_0000,
        ;
    }
}

/// The checksum after one more byte.
pub(crate) fn checksum_add(c: u64, b: u8, Ghost(s): Ghost<Seq<u8>>) -> (r: u64)
    requires
        c == checksum(s),
    ensures
        r == checksum(s.push(b)),
{
    let nb = b as u64;
    let r = if c > u64::MAX - nb {
        c - (u64::MAX - nb) - 1
    } else {
        c + nb
    };
    proof {
        assert(s.push(b).drop_last() =~= s);
        let x = byte_sum(s) as int;
        let m: int = 0x1_0000_0000_0000_0000;
        lemma_add_mod_noop(x, nb as int, m);
        assert((nb as int) % m == nb as int);
        assert(((c as int) + (nb as int)) % m == r as int) by {
            if c > u64::MAX - nb {
                lemma_mod_add_multiples_vanish((c as int) + (nb as int) - m, m);
                lemma_small_mod(((c as int) + (nb as int) - m) as nat, m as nat);
            } else {
                lemma_small_mod(((c as int) + (nb as int)) as nat, m as nat);
            }
        }
    }
    r
}

} // verus!
