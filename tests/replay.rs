use skyd::cell::{Datacell, PrimaryIndexKey};
use skyd::persist::{DataBatchPersistDriver, DataDelta, DataDeltaKind, Row};
use skyd::restore::DataBatchRestoreDriver;
use skyd::table::RowTable;

#[test]
fn replay_inserts_updates_and_deletes() {
    let rows = vec![
        Row::new(PrimaryIndexKey::UnsignedInt(1), vec![Datacell::UnsignedInt(10)], 0, 1),
        Row::new(PrimaryIndexKey::UnsignedInt(2), vec![Datacell::UnsignedInt(20)], 0, 2),
    ];
    let mut d = DataBatchPersistDriver::new(Vec::new(), true);
    d.write_new_batch(
        6,
        &rows,
        &vec![
            DataDelta::new(6, 1, 0, DataDeltaKind::Insert),
            DataDelta::new(6, 2, 1, DataDeltaKind::Insert),
        ],
    );
    d.write_new_batch(7, &rows, &vec![DataDelta::new(7, 3, 0, DataDeltaKind::Delete)]);
    // a delete of a key that is not there changes nothing
    let absent = vec![Row::new(PrimaryIndexKey::UnsignedInt(99), vec![], 0, 4)];
    d.write_new_batch(7, &absent, &vec![DataDelta::new(7, 4, 0, DataDeltaKind::Delete)]);
    d.close();
    let mut table = RowTable::new();
    let mut r = DataBatchRestoreDriver::new(d.into_file());
    r.read_data_batch_into_model(&mut table).unwrap();
    assert_eq!(table.rows.len(), 1);
    assert_eq!(table.rows[0].pk, PrimaryIndexKey::UnsignedInt(2));
    assert_eq!(table.rows[0].fields, vec![Datacell::UnsignedInt(20)]);
    assert_eq!(table.rows[0].schema_version, 6);
    assert_eq!(table.rows[0].txn_revised, 2);
}

#[test]
fn replay_update_overwrites_row() {
    let v1 = vec![Row::new(PrimaryIndexKey::SignedInt(-3), vec![Datacell::Bool(false)], 0, 1)];
    let v2 = vec![Row::new(PrimaryIndexKey::SignedInt(-3), vec![Datacell::Bool(true)], 0, 2)];
    let mut d = DataBatchPersistDriver::new(Vec::new(), true);
    d.write_new_batch(1, &v1, &vec![DataDelta::new(1, 1, 0, DataDeltaKind::Insert)]);
    d.write_new_batch(1, &v2, &vec![DataDelta::new(1, 2, 0, DataDeltaKind::Update)]);
    d.close();
    let mut table = RowTable::new();
    DataBatchRestoreDriver::new(d.into_file()).read_data_batch_into_model(&mut table).unwrap();
    assert_eq!(table.rows.len(), 1);
    assert_eq!(table.rows[0].fields, vec![Datacell::Bool(true)]);
    assert_eq!(table.rows[0].txn_revised, 2);
}

#[test]
fn replay_of_unclosed_journal_fails() {
    let rows = vec![Row::new(PrimaryIndexKey::UnsignedInt(1), vec![], 0, 1)];
    let mut d = DataBatchPersistDriver::new(Vec::new(), true);
    d.write_new_batch(0, &rows, &vec![DataDelta::new(0, 1, 0, DataDeltaKind::Insert)]);
    let mut table = RowTable::new();
    assert!(DataBatchRestoreDriver::new(d.into_file()).read_data_batch_into_model(&mut table).is_err());
}
