use skyd::alter::{AlterAction, AlterKind, AlterModel, AlterPlan, Model};
use skyd::error::DatabaseError;
use skyd::model::{Field, FieldSyntax, Layer};

fn create(fields: &[(&str, Vec<Layer>, bool)]) -> Model {
    let fields = fields
        .iter()
        .map(|(n, l, null)| (n.to_string(), Field::new(l.clone(), *null)))
        .collect();
    Model::create("mymodel".to_string(), "username".to_string(), fields).unwrap()
}

fn user_pass(pass_nullable: bool) -> Model {
    create(&[
        ("username", vec![Layer::Str], false),
        ("password", vec![Layer::Bin], pass_nullable),
    ])
}

fn syntax(layers: Option<Vec<Layer>>, nullable: Option<bool>) -> FieldSyntax {
    FieldSyntax::new(layers, nullable)
}

fn alter(kind: AlterKind) -> AlterModel {
    AlterModel::new("mymodel".to_string(), kind)
}

fn plan(model: &Model, kind: AlterKind) -> Result<AlterPlan, DatabaseError> {
    AlterPlan::fdeltas(model, alter(kind))
}

#[test]
fn simple_add() {
    let m = user_pass(false);
    let p = plan(
        &m,
        AlterKind::Add(vec![("myfield".to_string(), syntax(Some(vec![Layer::str()]), Some(true)))]),
    )
    .unwrap();
    assert_eq!(p.model, "mymodel");
    assert!(p.no_lock);
    assert_eq!(
        p.action,
        AlterAction::Add(vec![("myfield".to_string(), Field::new(vec![Layer::str()], true))])
    );
}

#[test]
fn simple_remove() {
    let m = create(&[
        ("username", vec![Layer::Str], false),
        ("password", vec![Layer::Bin], false),
        ("useless_field", vec![Layer::UInt8], false),
    ]);
    let p = plan(&m, AlterKind::Remove(vec!["useless_field".to_string()])).unwrap();
    assert_eq!(p.model, "mymodel");
    assert!(p.no_lock);
    assert_eq!(p.action, AlterAction::Remove(vec!["useless_field".to_string()]));
}

#[test]
fn simple_update() {
    let m = user_pass(false);
    let p = plan(&m, AlterKind::Update(vec![("password".to_string(), syntax(None, Some(true)))]))
        .unwrap();
    assert_eq!(p.model, "mymodel");
    assert!(p.no_lock);
    assert_eq!(
        p.action,
        AlterAction::Update(vec![("password".to_string(), Field::new(vec![Layer::bin()], true))])
    );
}

#[test]
fn update_need_lock() {
    let m = user_pass(true);
    let p = plan(&m, AlterKind::Update(vec![("password".to_string(), syntax(None, Some(false)))]))
        .unwrap();
    assert_eq!(p.model, "mymodel");
    assert!(!p.no_lock);
    assert_eq!(
        p.action,
        AlterAction::Update(vec![("password".to_string(), Field::new(vec![Layer::bin()], false))])
    );
}

#[test]
fn illegal_remove_nx() {
    let m = user_pass(false);
    assert_eq!(
        plan(&m, AlterKind::Remove(vec!["password_e2e".to_string()])).unwrap_err(),
        DatabaseError::DdlModelAlterFieldNotFound
    );
}

#[test]
fn illegal_remove_pk() {
    let m = user_pass(false);
    assert_eq!(
        plan(&m, AlterKind::Remove(vec!["username".to_string()])).unwrap_err(),
        DatabaseError::DdlModelAlterProtectedField
    );
}

#[test]
fn illegal_add_pk() {
    let m = user_pass(false);
    assert_eq!(
        plan(
            &m,
            AlterKind::Add(vec![("username".to_string(), syntax(Some(vec![Layer::Str]), None))])
        )
        .unwrap_err(),
        DatabaseError::DdlModelAlterBad
    );
}

#[test]
fn illegal_add_ex() {
    let m = user_pass(false);
    assert_eq!(
        plan(
            &m,
            AlterKind::Add(vec![("password".to_string(), syntax(Some(vec![Layer::Str]), None))])
        )
        .unwrap_err(),
        DatabaseError::DdlModelAlterBad
    );
}

#[test]
fn illegal_update_pk() {
    let m = user_pass(false);
    assert_eq!(
        plan(
            &m,
            AlterKind::Update(vec![("username".to_string(), syntax(Some(vec![Layer::Str]), None))])
        )
        .unwrap_err(),
        DatabaseError::DdlModelAlterProtectedField
    );
}

#[test]
fn illegal_update_nx() {
    let m = user_pass(false);
    assert_eq!(
        plan(
            &m,
            AlterKind::Update(vec![(
                "username_secret".to_string(),
                syntax(Some(vec![Layer::Str]), None)
            )])
        )
        .unwrap_err(),
        DatabaseError::DdlModelAlterFieldNotFound
    );
}

fn bad_type_cast(orig: &[Layer], new: &[Layer]) {
    let m = create(&[
        ("username", vec![Layer::Str], false),
        ("silly_field", orig.to_vec(), false),
    ]);
    let r = plan(
        &m,
        AlterKind::Update(vec![("silly_field".to_string(), syntax(Some(new.to_vec()), None))]),
    );
    assert_eq!(
        r.unwrap_err(),
        DatabaseError::DdlModelAlterBadTypedef,
        "transformation {:?} -> {:?}",
        orig,
        new
    );
}

fn enumerated_bad_type_casts(orig: &[Vec<Layer>], new: &[Vec<Layer>]) {
    for o in orig {
        for n in new {
            bad_type_cast(o, n);
        }
    }
}

fn ty_bool() -> Vec<Vec<Layer>> {
    vec![vec![Layer::Bool]]
}

fn ty_uint() -> Vec<Vec<Layer>> {
    vec![vec![Layer::UInt8], vec![Layer::UInt16], vec![Layer::UInt32], vec![Layer::UInt64]]
}

fn ty_sint() -> Vec<Vec<Layer>> {
    vec![vec![Layer::SInt8], vec![Layer::SInt16], vec![Layer::SInt32], vec![Layer::SInt64]]
}

fn ty_float() -> Vec<Vec<Layer>> {
    vec![vec![Layer::Float32], vec![Layer::Float64]]
}

fn ty_binary() -> Vec<Vec<Layer>> {
    vec![vec![Layer::Bin]]
}

fn ty_string() -> Vec<Vec<Layer>> {
    vec![vec![Layer::Str]]
}

fn ty_list() -> Vec<Vec<Layer>> {
    vec![vec![Layer::List, Layer::Str]]
}

fn fuse(parts: Vec<Vec<Vec<Layer>>>) -> Vec<Vec<Layer>> {
    parts.into_iter().flatten().collect()
}

#[test]
fn illegal_bool_direct_cast() {
    enumerated_bad_type_casts(
        &ty_bool(),
        &fuse(vec![ty_uint(), ty_sint(), ty_binary(), ty_string(), ty_list()]),
    );
}

#[test]
fn illegal_uint_direct_cast() {
    enumerated_bad_type_casts(
        &ty_uint(),
        &fuse(vec![ty_bool(), ty_sint(), ty_float(), ty_binary(), ty_string(), ty_list()]),
    );
}

#[test]
fn illegal_sint_direct_cast() {
    enumerated_bad_type_casts(
        &ty_sint(),
        &fuse(vec![ty_bool(), ty_uint(), ty_float(), ty_binary(), ty_string(), ty_list()]),
    );
}

#[test]
fn illegal_float_direct_cast() {
    enumerated_bad_type_casts(
        &ty_float(),
        &fuse(vec![ty_bool(), ty_uint(), ty_sint(), ty_binary(), ty_string(), ty_list()]),
    );
}

#[test]
fn illegal_binary_direct_cast() {
    enumerated_bad_type_casts(
        &ty_binary(),
        &fuse(vec![ty_bool(), ty_uint(), ty_sint(), ty_float(), ty_string(), ty_list()]),
    );
}

#[test]
fn illegal_string_direct_cast() {
    enumerated_bad_type_casts(
        &ty_string(),
        &fuse(vec![ty_bool(), ty_uint(), ty_sint(), ty_float(), ty_binary(), ty_list()]),
    );
}

#[test]
fn illegal_list_direct_cast() {
    enumerated_bad_type_casts(
        &ty_list(),
        &fuse(vec![ty_bool(), ty_uint(), ty_sint(), ty_float(), ty_binary(), ty_string()]),
    );
}

#[test]
fn same_class_type_change_succeeds() {
    let m = create(&[
        ("username", vec![Layer::Str], false),
        ("count", vec![Layer::UInt8], false),
        ("tags", vec![Layer::List, Layer::Str], false),
    ]);
    let p = plan(
        &m,
        AlterKind::Update(vec![("count".to_string(), syntax(Some(vec![Layer::UInt64]), None))]),
    )
    .unwrap();
    assert!(p.no_lock);
    assert_eq!(
        p.action,
        AlterAction::Update(vec![("count".to_string(), Field::new(vec![Layer::UInt64], false))])
    );
    assert_eq!(
        plan(
            &m,
            AlterKind::Update(vec![(
                "tags".to_string(),
                syntax(Some(vec![Layer::List, Layer::UInt8]), None)
            )])
        )
        .unwrap_err(),
        DatabaseError::DdlModelAlterBadTypedef
    );
}

#[test]
fn add_rejects_missing_type_duplicates_and_bad_layers() {
    let m = user_pass(false);
    assert_eq!(
        plan(&m, AlterKind::Add(vec![("x".to_string(), syntax(None, Some(true)))])).unwrap_err(),
        DatabaseError::DdlModelAlterBad
    );
    assert_eq!(
        plan(
            &m,
            AlterKind::Add(vec![
                ("x".to_string(), syntax(Some(vec![Layer::Str]), None)),
                ("x".to_string(), syntax(Some(vec![Layer::Bin]), None)),
            ])
        )
        .unwrap_err(),
        DatabaseError::DdlModelAlterBad
    );
    assert_eq!(
        plan(&m, AlterKind::Add(vec![("x".to_string(), syntax(Some(vec![Layer::List]), None))]))
            .unwrap_err(),
        DatabaseError::DdlModelAlterBadTypedef
    );
    assert_eq!(plan(&m, AlterKind::Add(vec![])).unwrap_err(), DatabaseError::DdlModelAlterBad);
}

#[test]
fn primary_key_protection_wins_over_missing_fields() {
    let m = user_pass(false);
    assert_eq!(
        plan(&m, AlterKind::Remove(vec!["nope".to_string(), "username".to_string()])).unwrap_err(),
        DatabaseError::DdlModelAlterProtectedField
    );
}

#[test]
fn create_rejects_bad_schemas() {
    let f = |n: &str, l: Layer, null: bool| (n.to_string(), Field::new(vec![l], null));
    assert!(Model::create("m".to_string(), "id".to_string(), vec![f("id", Layer::Str, true)]).is_none());
    assert!(Model::create("m".to_string(), "id".to_string(), vec![f("x", Layer::Str, false)]).is_none());
    assert!(Model::create(
        "m".to_string(),
        "id".to_string(),
        vec![f("id", Layer::Str, false), f("id", Layer::Bin, false)]
    )
    .is_none());
    let m = Model::create("m".to_string(), "id".to_string(), vec![f("id", Layer::Str, false)]).unwrap();
    assert_eq!(m.current_version(), 1);
}

#[test]
fn alt_simple_add() {
    let mut m = create(&[
        ("username", vec![Layer::Str], false),
        ("col1", vec![Layer::UInt64], false),
    ]);
    m.exec_alter(
        alter(AlterKind::Add(vec![
            ("col2".to_string(), syntax(Some(vec![Layer::uint32()]), Some(true))),
            ("col3".to_string(), syntax(Some(vec![Layer::uint16()]), Some(true))),
        ])),
        false,
    )
    .unwrap();
    let last_two: Vec<(String, Field)> = m.fields().iter().rev().take(2).cloned().collect();
    assert_eq!(
        last_two,
        vec![
            ("col3".to_string(), Field::new(vec![Layer::uint16()], true)),
            ("col2".to_string(), Field::new(vec![Layer::uint32()], true)),
        ]
    );
    assert_eq!(m.fields().len(), 4);
    assert_eq!(m.current_version(), 2);
}

#[test]
fn alt_simple_remove() {
    let mut m = create(&[
        ("username", vec![Layer::Str], false),
        ("col1", vec![Layer::UInt64], false),
        ("col2", vec![Layer::UInt32], false),
        ("col3", vec![Layer::UInt16], false),
        ("col4", vec![Layer::UInt8], false),
    ]);
    m.exec_alter(
        alter(AlterKind::Remove(vec![
            "col1".to_string(),
            "col2".to_string(),
            "col3".to_string(),
            "col4".to_string(),
        ])),
        false,
    )
    .unwrap();
    let all: Vec<(String, Field)> = m.fields().iter().rev().cloned().collect();
    assert_eq!(all, vec![("username".to_string(), Field::new(vec![Layer::str()], false))]);
    // one committed alteration advances the schema version by one
    assert_eq!(m.current_version(), 2);
}

#[test]
fn alt_simple_update() {
    let mut m = user_pass(false);
    m.exec_alter(
        alter(AlterKind::Update(vec![("password".to_string(), syntax(None, Some(true)))])),
        false,
    )
    .unwrap();
    assert!(m.get_field(&"password".to_string()).unwrap().is_nullable());
    // one committed alteration advances the schema version by one
    assert_eq!(m.current_version(), 2);
}

#[test]
fn failing_alter_nullable_switch_need_lock() {
    let mut m = create(&[
        ("username", vec![Layer::Str], false),
        ("gh_handle", vec![Layer::Str], true),
    ]);
    assert_eq!(
        m.exec_alter(
            alter(AlterKind::Update(vec![("gh_handle".to_string(), syntax(None, Some(false)))])),
            false,
        )
        .unwrap_err(),
        DatabaseError::NeedLock
    );
    assert_eq!(m.current_version(), 1);
    assert!(m.get_field(&"gh_handle".to_string()).unwrap().is_nullable());
}

#[test]
fn nullable_switch_with_exclusive_access_commits() {
    let mut m = create(&[
        ("username", vec![Layer::Str], false),
        ("gh_handle", vec![Layer::Str], true),
    ]);
    m.exec_alter(
        alter(AlterKind::Update(vec![("gh_handle".to_string(), syntax(None, Some(false)))])),
        true,
    )
    .unwrap();
    assert!(!m.get_field(&"gh_handle".to_string()).unwrap().is_nullable());
    assert_eq!(m.current_version(), 2);
}

#[test]
fn failed_plan_leaves_schema_unchanged() {
    let mut m = user_pass(false);
    assert_eq!(
        m.exec_alter(alter(AlterKind::Remove(vec!["username".to_string()])), true).unwrap_err(),
        DatabaseError::DdlModelAlterProtectedField
    );
    assert_eq!(m.fields().len(), 2);
    assert_eq!(m.current_version(), 1);
}

#[test]
fn planning_leaves_the_table_unchanged() {
    let m = user_pass(true);
    let before: Vec<(String, Field)> = m.fields().clone();
    let _ = plan(&m, AlterKind::Remove(vec!["password".to_string()])).unwrap();
    let _ = plan(&m, AlterKind::Update(vec![("password".to_string(), syntax(None, Some(false)))]))
        .unwrap();
    let _ = plan(&m, AlterKind::Remove(vec!["username".to_string()])).unwrap_err();
    assert_eq!(m.fields(), &before);
    assert_eq!(m.current_version(), 1);
    let again = plan(&m, AlterKind::Remove(vec!["password".to_string()])).unwrap();
    assert_eq!(again, plan(&m, AlterKind::Remove(vec!["password".to_string()])).unwrap());
}

#[test]
fn add_two_nullable_columns_plans_without_lock() {
    let m = create(&[
        ("username", vec![Layer::Str], false),
        ("col1", vec![Layer::UInt64], false),
    ]);
    let p = plan(
        &m,
        AlterKind::Add(vec![
            ("col2".to_string(), syntax(Some(vec![Layer::uint32()]), Some(true))),
            ("col3".to_string(), syntax(Some(vec![Layer::uint16()]), Some(true))),
        ]),
    )
    .unwrap();
    assert!(p.no_lock);
    assert_eq!(
        p.action,
        AlterAction::Add(vec![
            ("col2".to_string(), Field::new(vec![Layer::uint32()], true)),
            ("col3".to_string(), Field::new(vec![Layer::uint16()], true)),
        ])
    );
}
