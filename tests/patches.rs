use skyd::patch::{
    Delete, DeleteRet, Insert, InsertDirect, PatchDelete, PatchWrite, UpdateReplace,
    UpdateReplaceRet, Upsert, UpsertReturn, WRITEMODE_ANY, WRITEMODE_FRESH, WRITEMODE_REFRESH,
};

#[test]
fn write_patches_decide_entries_and_results() {
    let cur = (1u64, 10u64);
    let mut p = Insert::new(1u64, 20u64);
    assert_eq!(p.wmode(), WRITEMODE_FRESH);
    assert_eq!(p.nx_new(), (1, 20));
    assert!(p.nx_ret());
    assert!(!p.ex_ret(&cur));
    let mut p = Upsert::new(1u64, 20u64);
    assert_eq!(p.wmode(), WRITEMODE_ANY);
    assert_eq!(p.ex_apply(&cur), (1, 20));
    let mut p = UpsertReturn::new(1u64, 20u64);
    assert_eq!(p.ex_apply(&cur), (1, 20));
    assert_eq!(p.ex_ret(&cur), Some(10));
    assert_eq!(p.nx_ret(), None);
    let mut p = UpdateReplace::new(1u64, 30u64);
    assert_eq!(p.wmode(), WRITEMODE_REFRESH);
    assert_eq!(p.ex_apply(&cur), (1, 30));
    assert!(p.ex_ret(&cur));
    assert!(!p.nx_ret());
    let mut p = UpdateReplaceRet::new(1u64, 30u64);
    assert_eq!(p.ex_apply(&cur), (1, 30));
    assert_eq!(p.ex_ret(&cur), Some(10));
    let mut p = InsertDirect::new(2u64, 5u64);
    assert_eq!(*PatchWrite::target(&p), 2);
    assert_eq!(p.nx_new(), (2, 5));
}

#[test]
fn delete_patches_report_removals() {
    let key = 1u64;
    let d = Delete::new(&key);
    assert_eq!(*PatchDelete::<u64, u64>::target(&d), 1);
    assert!(PatchDelete::<u64, u64>::ex(&d, &(1, 9)));
    assert!(!PatchDelete::<u64, u64>::nx(&d));
    let d = DeleteRet::new(&key);
    assert_eq!(PatchDelete::<u64, u64>::ex(&d, &(1, 9)), Some(9));
    assert_eq!(PatchDelete::<u64, u64>::nx(&d), None);
}
