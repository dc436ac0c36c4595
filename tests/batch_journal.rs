use skyd::cell::{Datacell, PrimaryIndexKey};
use skyd::error::StorageError;
use skyd::persist::{DataBatchPersistDriver, DataDelta, DataDeltaKind, DeltaState, Row};
use skyd::restore::{DataBatchRestoreDriver, DecodedBatchEvent, DecodedBatchEventKind, NormalBatch};

fn pkey(s: &str) -> PrimaryIndexKey {
    PrimaryIndexKey::Str(s.as_bytes().to_vec())
}

fn persist(rows: &Vec<Row>, deltas: &Vec<DataDelta>, schema_version: u64) -> Vec<u8> {
    let mut d = DataBatchPersistDriver::new(Vec::new(), true);
    d.write_new_batch(schema_version, rows, deltas);
    d.close();
    d.into_file()
}

fn restore(bytes: Vec<u8>) -> Result<Vec<NormalBatch>, StorageError> {
    DataBatchRestoreDriver::new(bytes).read_all_batches()
}

#[test]
fn deltas_only_insert() {
    // the row was revised by transaction 3 after its insert was queued
    let rows = vec![
        Row::new(
            pkey("Schrödinger's cat"),
            vec![Datacell::Bool(true), Datacell::Bool(true)],
            0,
            3,
        ),
        Row::new(pkey("good cat"), vec![Datacell::Bool(true), Datacell::Bool(false)], 0, 1),
        Row::new(pkey("bad cat"), vec![Datacell::Bool(false), Datacell::Bool(false)], 0, 2),
    ];
    let deltas = vec![
        DataDelta::new(0, 0, 0, DataDeltaKind::Insert),
        DataDelta::new(0, 1, 1, DataDeltaKind::Insert),
        DataDelta::new(0, 2, 2, DataDeltaKind::Insert),
        DataDelta::new(0, 3, 0, DataDeltaKind::Update),
    ];
    let bytes = persist(&rows, &deltas, 0);
    let batch = restore(bytes).unwrap();
    assert_eq!(
        batch,
        vec![NormalBatch::new(
            vec![
                DecodedBatchEvent::new(
                    1,
                    pkey("good cat"),
                    DecodedBatchEventKind::Insert(vec![
                        Datacell::Bool(true),
                        Datacell::Bool(false)
                    ])
                ),
                DecodedBatchEvent::new(
                    2,
                    pkey("bad cat"),
                    DecodedBatchEventKind::Insert(vec![
                        Datacell::Bool(false),
                        Datacell::Bool(false)
                    ])
                ),
                DecodedBatchEvent::new(
                    3,
                    pkey("Schrödinger's cat"),
                    DecodedBatchEventKind::Update(vec![
                        Datacell::Bool(true),
                        Datacell::Bool(true)
                    ])
                )
            ],
            0
        )]
    )
}

fn sample_rows() -> Vec<Row> {
    vec![
        Row::new(
            PrimaryIndexKey::UnsignedInt(7),
            vec![
                Datacell::Null,
                Datacell::SignedInt(-5),
                Datacell::Float(0x4009_21FB_5444_2D18),
                Datacell::Bin(vec![0, 255, 9]),
                Datacell::List(vec![
                    Datacell::Str("a".as_bytes().to_vec()),
                    Datacell::List(vec![Datacell::UnsignedInt(1)]),
                ]),
            ],
            4,
            10,
        ),
        Row::new(PrimaryIndexKey::SignedInt(-1), vec![Datacell::Bool(false)], 4, 11),
        Row::new(PrimaryIndexKey::Bin(vec![1, 2]), vec![], 4, 12),
    ]
}

fn sample_deltas() -> Vec<DataDelta> {
    vec![
        DataDelta::new(4, 10, 0, DataDeltaKind::Insert),
        DataDelta::new(4, 11, 1, DataDeltaKind::Update),
        DataDelta::new(4, 12, 2, DataDeltaKind::Delete),
    ]
}

#[test]
fn round_trip_of_every_cell_kind() {
    let rows = sample_rows();
    let bytes = persist(&rows, &sample_deltas(), 4);
    let batches = restore(bytes).unwrap();
    assert_eq!(batches.len(), 1);
    assert_eq!(batches[0].schema_version, 4);
    let ev = &batches[0].events;
    assert_eq!(ev.len(), 3);
    assert_eq!(ev[0].txn_id, 10);
    assert_eq!(ev[0].pk, PrimaryIndexKey::UnsignedInt(7));
    assert_eq!(
        ev[0].kind,
        DecodedBatchEventKind::Insert(vec![
            Datacell::Null,
            Datacell::SignedInt(-5),
            Datacell::Float(0x4009_21FB_5444_2D18),
            Datacell::Bin(vec![0, 255, 9]),
            Datacell::List(vec![
                Datacell::Str("a".as_bytes().to_vec()),
                Datacell::List(vec![Datacell::UnsignedInt(1)]),
            ]),
        ])
    );
    assert_eq!(ev[1].pk, PrimaryIndexKey::SignedInt(-1));
    assert_eq!(ev[1].kind, DecodedBatchEventKind::Update(vec![Datacell::Bool(false)]));
    assert_eq!(ev[2].pk, PrimaryIndexKey::Bin(vec![1, 2]));
    assert_eq!(ev[2].kind, DecodedBatchEventKind::Delete);
}

#[test]
fn exact_byte_layout_of_a_delete_batch() {
    let rows = vec![Row::new(PrimaryIndexKey::UnsignedInt(5), vec![], 0, 1)];
    let deltas = vec![DataDelta::new(2, 1, 0, DataDeltaKind::Delete)];
    let bytes = persist(&rows, &deltas, 2);
    let mut want: Vec<u8> = vec![0xFE];
    want.extend_from_slice(&1u64.to_le_bytes());
    want.extend_from_slice(&2u64.to_le_bytes());
    want.push(0); // key tag: unsigned
    want.extend_from_slice(&1u64.to_le_bytes()); // transaction id
    want.push(0); // delete
    want.extend_from_slice(&5u64.to_le_bytes());
    want.push(0xFD);
    want.extend_from_slice(&1u64.to_le_bytes());
    let sum: u64 = want.iter().map(|b| *b as u64).sum();
    want.extend_from_slice(&sum.to_le_bytes());
    want.push(0xFC);
    assert_eq!(bytes, want);
}

#[test]
fn empty_journal_is_not_closed() {
    assert_eq!(restore(vec![]).unwrap_err(), StorageError::DataBatchRestoreCorruptedBatchFile);
}

#[test]
fn closed_journal_without_batches_is_empty() {
    let mut d = DataBatchPersistDriver::new(Vec::new(), true);
    d.close();
    assert_eq!(restore(d.into_file()).unwrap(), vec![]);
}

#[test]
fn reopened_journal_reads_both_sessions() {
    let rows = sample_rows();
    let first = persist(&rows, &sample_deltas(), 4);
    let mut d = DataBatchPersistDriver::new(first, false);
    d.write_new_batch(5, &rows, &vec![DataDelta::new(5, 12, 2, DataDeltaKind::Delete)]);
    d.close();
    let batches = restore(d.into_file()).unwrap();
    assert_eq!(batches.len(), 2);
    assert_eq!(batches[0].schema_version, 4);
    assert_eq!(batches[0].events.len(), 3);
    assert_eq!(batches[1].schema_version, 5);
    assert_eq!(batches[1].events.len(), 1);
}

#[test]
fn closed_marker_followed_by_garbage_is_corrupted_file() {
    let mut bytes = persist(&sample_rows(), &sample_deltas(), 4);
    bytes.push(0x01);
    assert_eq!(restore(bytes).unwrap_err(), StorageError::DataBatchRestoreCorruptedBatchFile);
}

#[test]
fn corrupted_event_byte_fails_the_restore() {
    let clean = persist(&sample_rows(), &sample_deltas(), 4);
    // every byte of the event body, changed, must not yield a silently shorter batch
    for i in 17..clean.len() - 26 {
        let mut bytes = clean.clone();
        bytes[i] ^= 0x5A;
        match restore(bytes) {
            Ok(batches) => panic!("byte {} corrupted yet restored {} batches", i, batches.len()),
            Err(_) => {}
        }
    }
}

#[test]
fn corrupted_batch_recovers_at_marker() {
    let rows = sample_rows();
    let good = persist(&rows, &vec![DataDelta::new(4, 11, 1, DataDeltaKind::Update)], 4);
    // a torn batch: header and part of an event, then the recovery marker
    let mut bytes: Vec<u8> = vec![0xFE];
    bytes.extend_from_slice(&1u64.to_le_bytes());
    bytes.extend_from_slice(&4u64.to_le_bytes());
    bytes.push(0x09); // unknown key tag
    bytes.push(0xFF);
    bytes.extend_from_slice(&good);
    let batches = restore(bytes).unwrap();
    assert_eq!(batches.len(), 1);
    assert_eq!(batches[0].events[0].txn_id, 11);
}

#[test]
fn non_utf8_key_is_rejected() {
    let mut body: Vec<u8> = vec![0xFE];
    body.extend_from_slice(&1u64.to_le_bytes());
    body.extend_from_slice(&0u64.to_le_bytes());
    body.push(3); // key tag: text
    body.extend_from_slice(&1u64.to_le_bytes());
    body.push(0); // delete
    body.extend_from_slice(&2u64.to_le_bytes());
    body.extend_from_slice(&[0xC3, 0x28]);
    body.push(0xFD);
    body.extend_from_slice(&1u64.to_le_bytes());
    let sum: u64 = body.iter().map(|b| *b as u64).sum();
    body.extend_from_slice(&sum.to_le_bytes());
    body.push(0xFC);
    assert_eq!(restore(body).unwrap_err(), StorageError::DataBatchRestoreCorruptedBatch);
    let rows = vec![Row::new(PrimaryIndexKey::Str("é".as_bytes().to_vec()), vec![], 0, 1)];
    let bytes = persist(&rows, &vec![DataDelta::new(0, 1, 0, DataDeltaKind::Delete)], 0);
    assert_eq!(restore(bytes).unwrap()[0].events[0].pk, PrimaryIndexKey::Str(vec![0xC3, 0xA9]));
}

#[test]
fn finished_early_batch_is_accepted() {
    let rows = vec![Row::new(PrimaryIndexKey::UnsignedInt(5), vec![], 0, 1)];
    let clean = persist(&rows, &vec![DataDelta::new(0, 1, 0, DataDeltaKind::Delete)], 0);
    // declare two events where one was written; the checksum covers the header
    let mut body = clean[..clean.len() - 9].to_vec();
    body[1] = 2;
    let sum: u64 = body.iter().map(|b| *b as u64).sum();
    body.extend_from_slice(&sum.to_le_bytes());
    body.push(0xFC);
    let batches = restore(body).unwrap();
    assert_eq!(batches[0].events.len(), 1);
}

#[test]
fn delta_queue_stamps_versions_and_drains_in_order() {
    let mut q = DeltaState::new(3);
    let a = q.append_new_data_delta(0, DataDeltaKind::Insert);
    let b = q.append_new_data_delta(0, DataDeltaKind::Update);
    assert_eq!(a, DataDelta::new(3, 1, 0, DataDeltaKind::Insert));
    assert_eq!(b, DataDelta::new(3, 2, 0, DataDeltaKind::Update));
    assert_eq!(q.drain(), vec![a, b]);
    assert!(q.drain().is_empty());
    assert_eq!(q.data_version, 2);
}

#[test]
fn recovery_marker_beyond_the_window_fails() {
    let rows = sample_rows();
    let good = persist(&rows, &vec![DataDelta::new(4, 11, 1, DataDeltaKind::Update)], 4);
    let mut bytes: Vec<u8> = vec![0x07];
    bytes.extend_from_slice(&[0u8; 10]);
    bytes.push(0xFF);
    bytes.extend_from_slice(&good);
    assert_eq!(restore(bytes).unwrap_err(), StorageError::DataBatchRestoreCorruptedBatch);
}

#[test]
fn recovery_marker_byte_is_skipped() {
    let rows = sample_rows();
    let good = persist(&rows, &vec![DataDelta::new(4, 11, 1, DataDeltaKind::Update)], 4);
    let mut bytes: Vec<u8> = vec![0xFF];
    bytes.extend_from_slice(&good);
    assert_eq!(restore(bytes).unwrap().len(), 1);
}

#[test]
fn checksum_mismatch_without_marker_fails() {
    let mut bytes = persist(&sample_rows(), &sample_deltas(), 4);
    let n = bytes.len();
    bytes[n - 2] ^= 1; // inside the stored checksum
    assert_eq!(restore(bytes).unwrap_err(), StorageError::DataBatchRestoreCorruptedBatch);
}
