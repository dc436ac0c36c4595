//! Tables and the planning and commit of schema alterations.
use vstd::prelude::*;
use crate::error::DatabaseError;
use crate::model::{
    Field, FieldModel, FieldSyntax, FieldSyntaxModel, Layer, Schema, field_named, has_name,
    names_distinct, names_of, same_classes, schema_of, seq_distinct, syntax_of, valid_layers,
};

verus! {

/// What an alteration asks for.
#[derive(Clone, Debug)]
pub enum AlterKind {
    Add(Vec<(String, FieldSyntax)>),
    Remove(Vec<String>),
    Update(Vec<(String, FieldSyntax)>),
}

/// A parsed alteration of one table.
#[derive(Clone, Debug)]
pub struct AlterModel {
    pub model: String,
    pub kind: AlterKind,
}

pub enum RequestModel {
    Add(Seq<(Seq<char>, FieldSyntaxModel)>),
    Remove(Seq<Seq<char>>),
    Update(Seq<(Seq<char>, FieldSyntaxModel)>),
}

impl View for AlterKind {
    type V = RequestModel;

    open spec fn view(&self) -> RequestModel {
        match self {
            AlterKind::Add(fs) => RequestModel::Add(syntax_of(fs@)),
            AlterKind::Remove(ns) => RequestModel::Remove(names_of(ns@)),
            AlterKind::Update(fs) => RequestModel::Update(syntax_of(fs@)),
        }
    }
}

impl AlterModel {
    pub fn new(model: String, kind: AlterKind) -> (r: AlterModel)
        ensures
            r.model == model,
            r.kind == kind,
    {
        AlterModel { model, kind }
    }
}

/// The action of a plan.
#[derive(Clone, Debug, PartialEq)]
pub enum AlterAction {
    Add(Vec<(String, Field)>),
    Remove(Vec<String>),
    Update(Vec<(String, Field)>),
}

pub enum ActionModel {
    Add(Schema),
    Remove(Seq<Seq<char>>),
    Update(Schema),
}

impl View for AlterAction {
    type V = ActionModel;

    open spec fn view(&self) -> ActionModel {
        match self {
            AlterAction::Add(fs) => ActionModel::Add(schema_of(fs@)),
            AlterAction::Remove(ns) => ActionModel::Remove(names_of(ns@)),
            AlterAction::Update(fs) => ActionModel::Update(schema_of(fs@)),
        }
    }
}

/// A validated alteration that has not been applied yet.
#[derive(Clone, Debug, PartialEq)]
pub struct AlterPlan {
    pub model: String,
    pub action: AlterAction,
    /// Whether the plan may be applied while rows are read concurrently.
    pub no_lock: bool,
}

pub struct PlanModel {
    pub action: ActionModel,
    pub no_lock: bool,
}

pub open spec fn add_is_bad(s: Schema, p: (Seq<char>, FieldSyntaxModel)) -> bool {
    p.1.layers is None || has_name(s, p.0)
}

pub open spec fn add_has_bad_type(p: (Seq<char>, FieldSyntaxModel)) -> bool {
    !valid_layers(p.1.layers.unwrap())
}

pub open spec fn added_field(p: (Seq<char>, FieldSyntaxModel)) -> (Seq<char>, FieldModel) {
    (
        p.0,
        FieldModel {
            layers: p.1.layers.unwrap(),
            nullable: match p.1.nullable {
                Some(b) => b,
                None => false,
            },
        },
    )
}

pub open spec fn update_has_bad_type(s: Schema, p: (Seq<char>, FieldSyntaxModel)) -> bool {
    p.1.layers is Some && !same_classes(field_named(s, p.0).layers, p.1.layers.unwrap())
}

pub open spec fn updated_field(s: Schema, p: (Seq<char>, FieldSyntaxModel)) -> (
    Seq<char>,
    FieldModel,
) {
    let cur = field_named(s, p.0);
    (
        p.0,
        FieldModel {
            layers: match p.1.layers {
                Some(l) => l,
                None => cur.layers,
            },
            nullable: match p.1.nullable {
                Some(b) => b,
                None => cur.nullable,
            },
        },
    )
}

/// An update that makes a nullable field non-nullable.
pub open spec fn tightens(s: Schema, p: (Seq<char>, FieldSyntaxModel)) -> bool {
    field_named(s, p.0).nullable && p.1.nullable == Some(false)
}

pub open spec fn plan_add(s: Schema, fs: Seq<(Seq<char>, FieldSyntaxModel)>) -> Result<
    PlanModel,
    DatabaseError,
> {
    if fs.len() == 0 || !names_distinct(fs) || exists|i: int|
        0 <= i < fs.len() && add_is_bad(s, #[trigger] fs[i]) {
        Err(DatabaseError::DdlModelAlterBad)
    } else if exists|i: int| 0 <= i < fs.len() && add_has_bad_type(#[trigger] fs[i]) {
        Err(DatabaseError::DdlModelAlterBadTypedef)
    } else {
        Ok(
            PlanModel {
                action: ActionModel::Add(fs.map_values(|p| added_field(p))),
                no_lock: true,
            },
        )
    }
}

pub open spec fn plan_remove(s: Schema, pk: Seq<char>, ns: Seq<Seq<char>>) -> Result<
    PlanModel,
    DatabaseError,
> {
    if ns.len() == 0 {
        Err(DatabaseError::DdlModelAlterBad)
    } else if exists|i: int| 0 <= i < ns.len() && #[trigger] ns[i] == pk {
        Err(DatabaseError::DdlModelAlterProtectedField)
    } else if exists|i: int| 0 <= i < ns.len() && !has_name(s, #[trigger] ns[i]) {
        Err(DatabaseError::DdlModelAlterFieldNotFound)
    } else if !seq_distinct(ns) {
        Err(DatabaseError::DdlModelAlterBad)
    } else {
        Ok(PlanModel { action: ActionModel::Remove(ns), no_lock: true })
    }
}

pub open spec fn plan_update(
    s: Schema,
    pk: Seq<char>,
    fs: Seq<(Seq<char>, FieldSyntaxModel)>,
) -> Result<PlanModel, DatabaseError> {
    if fs.len() == 0 {
        Err(DatabaseError::DdlModelAlterBad)
    } else if exists|i: int| 0 <= i < fs.len() && (#[trigger] fs[i]).0 == pk {
        Err(DatabaseError::DdlModelAlterProtectedField)
    } else if exists|i: int| 0 <= i < fs.len() && !has_name(s, (#[trigger] fs[i]).0) {
        Err(DatabaseError::DdlModelAlterFieldNotFound)
    } else if !names_distinct(fs) {
        Err(DatabaseError::DdlModelAlterBad)
    } else if exists|i: int| 0 <= i < fs.len() && update_has_bad_type(s, #[trigger] fs[i]) {
        Err(DatabaseError::DdlModelAlterBadTypedef)
    } else {
        Ok(
            PlanModel {
                action: ActionModel::Update(fs.map_values(|p| updated_field(s, p))),
                no_lock: !exists|i: int| 0 <= i < fs.len() && tightens(s, #[trigger] fs[i]),
            },
        )
    }
}

/// The plan for a request against a schema with primary key `pk`.
pub open spec fn plan_spec(s: Schema, pk: Seq<char>, req: RequestModel) -> Result<
    PlanModel,
    DatabaseError,
> {
    match req {
        RequestModel::Add(fs) => plan_add(s, fs),
        RequestModel::Remove(ns) => plan_remove(s, pk, ns),
        RequestModel::Update(fs) => plan_update(s, pk, fs),
    }
}


/// The schema that a committed action leaves.
pub open spec fn apply_spec(s: Schema, a: ActionModel) -> Schema {
    match a {
        ActionModel::Add(new) => s + new,
        ActionModel::Remove(ns) => remove_names(s, ns),
        ActionModel::Update(us) => s.map_values(
            |e: (Seq<char>, FieldModel)|
                if has_name(us, e.0) {
                    (e.0, field_named(us, e.0))
                } else {
                    e
                },
        ),
    }
}

/// The fields of `s`, in order, whose names are not in `ns`.
pub open spec fn remove_names(s: Schema, ns: Seq<Seq<char>>) -> Schema
    decreases s.len(),
{
    if s.len() == 0 {
        s
    } else {
        let rest = remove_names(s.drop_last(), ns);
        if ns.contains(s.last().0) {
            rest
        } else {
            rest.push(s.last())
        }
    }
}

/// A well-formed schema: distinct names, valid layers, and a non-nullable
/// primary key among its fields.
pub open spec fn schema_wf(s: Schema, pk: Seq<char>) -> bool {
    &&& names_distinct(s)
    &&& forall|i: int| 0 <= i < s.len() ==> valid_layers(#[trigger] s[i].1.layers)
    &&& has_name(s, pk)
    &&& !field_named(s, pk).nullable
}

/// A table: its schema, its primary key and its schema version.
pub struct Model {
    pub name: String,
    pub pk: String,
    pub fields: Vec<(String, Field)>,
    pub schema_version: u64,
}

proof fn lemma_field_named(s: Schema, i: int)
    requires
        names_distinct(s),
        0 <= i < s.len(),
    ensures
        field_named(s, s[i].0) == s[i].1,
{
    assert(s[i].0 == s[i].0);
    let j = choose|j: int| 0 <= j < s.len() && #[trigger] s[j].0 == s[i].0;
    assert(0 <= j < s.len() && s[j].0 == s[i].0);
    if j < i {
        assert(s[j].0 != s[i].0);
    } else if i < j {
        assert(s[i].0 != s[j].0);
    }
}

fn copy_layers(ls: &Vec<Layer>) -> (r: Vec<Layer>)
    ensures
        r@ == ls@,
{
    let mut out: Vec<Layer> = Vec::new();
    let mut i: usize = 0;
    while i < ls.len()
        invariant
            i <= ls.len(),
            out@ == ls@.take(i as int),
        decreases ls.len() - i,
    {
        out.push(ls[i]);
        i += 1;
        assert(out@ =~= ls@.take(i as int));
    }
    assert(out@ =~= ls@);
    out
}

fn layers_valid(ls: &Vec<Layer>) -> (r: bool)
    ensures
        r == valid_layers(ls@),
{
    let n = ls.len();
    if n == 0 {
        return false;
    }
    let mut i: usize = 0;
    while i + 1 < n
        invariant
            n == ls.len(),
            n >= 1,
            i < n,
            forall|j: int| 0 <= j < i ==> ls@[j] == Layer::List,
        decreases n - i,
    {
        if ls[i] != Layer::List {
            return false;
        }
        i += 1;
    }
    ls[n - 1] != Layer::List
}

fn classes_match(a: &Vec<Layer>, b: &Vec<Layer>) -> (r: bool)
    ensures
        r == same_classes(a@, b@),
{
    if a.len() != b.len() {
        return false;
    }
    let mut i: usize = 0;
    while i < a.len()
        invariant
            a.len() == b.len(),
            i <= a.len(),
            forall|j: int| 0 <= j < i ==> #[trigger] a@[j].spec_class() == b@[j].spec_class(),
        decreases a.len() - i,
    {
        if a[i].class() != b[i].class() {
            return false;
        }
        i += 1;
    }
    true
}

fn find_field(fields: &Vec<(String, Field)>, name: &String) -> (r: Option<usize>)
    ensures
        match r {
            Some(i) => i < fields.len() && fields@[i as int].0@ == name@ && has_name(
                schema_of(fields@),
                name@,
            ),
            None => !has_name(schema_of(fields@), name@),
        },
{
    let mut i: usize = 0;
    while i < fields.len()
        invariant
            i <= fields.len(),
            forall|j: int| 0 <= j < i ==> #[trigger] fields@[j].0@ != name@,
        decreases fields.len() - i,
    {
        if fields[i].0 == *name {
            assert(schema_of(fields@)[i as int].0 == name@);
            return Some(i);
        }
        i += 1;
    }
    assert forall|j: int| 0 <= j < fields.len() implies #[trigger] schema_of(fields@)[j].0
        != name@ by {
        assert(fields@[j].0@ != name@);
    }
    None
}

fn distinct_keys<T>(fs: &Vec<(String, T)>) -> (r: bool)
    ensures
        r == (forall|i: int, j: int|
            0 <= i < j < fs.len() ==> #[trigger] fs@[i].0@ != #[trigger] fs@[j].0@),
{
    let mut j: usize = 0;
    while j < fs.len()
        invariant
            j <= fs.len(),
            forall|a: int, b: int| 0 <= a < b < j ==> #[trigger] fs@[a].0@ != #[trigger] fs@[b].0@,
        decreases fs.len() - j,
    {
        let mut i: usize = 0;
        while i < j
            invariant
                i <= j < fs.len(),
                forall|a: int, b: int|
                    0 <= a < b < j ==> #[trigger] fs@[a].0@ != #[trigger] fs@[b].0@,
                forall|a: int| 0 <= a < i ==> #[trigger] fs@[a].0@ != fs@[j as int].0@,
            decreases j - i,
        {
            if fs[i].0 == fs[j].0 {
                return false;
            }
            i += 1;
        }
        j += 1;
    }
    true
}

fn distinct_strings(ns: &Vec<String>) -> (r: bool)
    ensures
        r == seq_distinct(names_of(ns@)),
{
    let mut j: usize = 0;
    while j < ns.len()
        invariant
            j <= ns.len(),
            forall|a: int, b: int| 0 <= a < b < j ==> #[trigger] ns@[a]@ != #[trigger] ns@[b]@,
        decreases ns.len() - j,
    {
        let mut i: usize = 0;
        while i < j
            invariant
                i <= j < ns.len(),
                forall|a: int, b: int| 0 <= a < b < j ==> #[trigger] ns@[a]@ != #[trigger] ns@[b]@,
                forall|a: int| 0 <= a < i ==> #[trigger] ns@[a]@ != ns@[j as int]@,
            decreases j - i,
        {
            if ns[i] == ns[j] {
                assert(names_of(ns@)[i as int] == names_of(ns@)[j as int]);
                return false;
            }
            i += 1;
        }
        j += 1;
    }
    assert forall|a: int, b: int| 0 <= a < b < ns.len() implies #[trigger] names_of(ns@)[a]
        != #[trigger] names_of(ns@)[b] by {
        assert(ns@[a]@ != ns@[b]@);
    }
    true
}


fn add_action(fields: &Vec<(String, Field)>, fs: &Vec<(String, FieldSyntax)>) -> (r: Result<
    AlterAction,
    DatabaseError,
>)
    ensures
        match plan_add(schema_of(fields@), syntax_of(fs@)) {
            Ok(p) => r is Ok && r->Ok_0@ == p.action,
            Err(e) => r == Err::<AlterAction, DatabaseError>(e),
        },
{
    let ghost s = schema_of(fields@);
    let ghost sv = syntax_of(fs@);
    let n = fs.len();
    if n == 0 {
        return Err(DatabaseError::DdlModelAlterBad);
    }
    if !distinct_keys(fs) {
        proof {
            let (a, b) = choose|a: int, b: int|
                0 <= a < b < fs.len() && #[trigger] fs@[a].0@ == #[trigger] fs@[b].0@;
            assert(sv[a].0 == sv[b].0);
        }
        return Err(DatabaseError::DdlModelAlterBad);
    }
    assert(names_distinct(sv)) by {
        assert forall|a: int, b: int| 0 <= a < b < sv.len() implies #[trigger] sv[a].0
            != #[trigger] sv[b].0 by {
            assert(fs@[a].0@ != fs@[b].0@);
        }
    }
    let mut i: usize = 0;
    while i < n
        invariant
            n == fs.len(),
            s == schema_of(fields@),
            sv == syntax_of(fs@),
            i <= n,
            forall|j: int| 0 <= j < i ==> !add_is_bad(s, #[trigger] sv[j]),
        decreases n - i,
    {
        assert(sv[i as int] == (fs@[i as int].0@, fs@[i as int].1@));
        if fs[i].1.layers.is_none() || find_field(fields, &fs[i].0).is_some() {
            assert(add_is_bad(s, sv[i as int]));
            return Err(DatabaseError::DdlModelAlterBad);
        }
        i += 1;
    }
    let mut i: usize = 0;
    while i < n
        invariant
            n == fs.len(),
            sv == syntax_of(fs@),
            i <= n,
            names_distinct(sv),
            s == schema_of(fields@),
            forall|j: int| 0 <= j < n ==> !add_is_bad(s, #[trigger] sv[j]),
            forall|j: int| 0 <= j < i ==> !add_has_bad_type(#[trigger] sv[j]),
        decreases n - i,
    {
        assert(!add_is_bad(s, sv[i as int]));
        assert(sv[i as int] == (fs@[i as int].0@, fs@[i as int].1@));
        match &fs[i].1.layers {
            Some(l) => {
                if !layers_valid(l) {
                    assert(add_has_bad_type(sv[i as int]));
                    return Err(DatabaseError::DdlModelAlterBadTypedef);
                }
            },
            None => {},
        }
        i += 1;
    }
    let mut out: Vec<(String, Field)> = Vec::new();
    let mut i: usize = 0;
    while i < n
        invariant
            n == fs.len(),
            sv == syntax_of(fs@),
            i <= n,
            forall|j: int| 0 <= j < n ==> !add_is_bad(s, #[trigger] sv[j]),
            out.len() == i,
            schema_of(out@) == sv.take(i as int).map_values(|p| added_field(p)),
        decreases n - i,
    {
        assert(!add_is_bad(s, sv[i as int]));
        let name = fs[i].0.clone();
        let layers = match &fs[i].1.layers {
            Some(l) => copy_layers(l),
            None => Vec::new(),
        };
        let nullable = match fs[i].1.nullable {
            Some(b) => b,
            None => false,
        };
        assert(sv[i as int] == (fs@[i as int].0@, fs@[i as int].1@));
        let ghost before = out@;
        out.push((name, Field { layers, nullable }));
        assert(schema_of(out@)[i as int] == added_field(sv[i as int]));
        assert(schema_of(out@) =~= schema_of(before).push(added_field(sv[i as int])));
        i += 1;
        assert(sv.take(i as int) =~= sv.take(i - 1).push(sv[i - 1]));
        assert(schema_of(out@) =~= sv.take(i as int).map_values(|p| added_field(p)));
    }
    assert(sv.take(n as int) =~= sv);
    Ok(AlterAction::Add(out))
}

fn remove_action(fields: &Vec<(String, Field)>, pk: &String, ns: &Vec<String>) -> (r: Result<
    AlterAction,
    DatabaseError,
>)
    ensures
        match plan_remove(schema_of(fields@), pk@, names_of(ns@)) {
            Ok(p) => r is Ok && r->Ok_0@ == p.action,
            Err(e) => r == Err::<AlterAction, DatabaseError>(e),
        },
{
    let ghost s = schema_of(fields@);
    let ghost nv = names_of(ns@);
    let n = ns.len();
    if n == 0 {
        return Err(DatabaseError::DdlModelAlterBad);
    }
    let mut i: usize = 0;
    while i < n
        invariant
            n == ns.len(),
            nv == names_of(ns@),
            i <= n,
            forall|j: int| 0 <= j < i ==> #[trigger] nv[j] != pk@,
        decreases n - i,
    {
        if ns[i] == *pk {
            assert(nv[i as int] == pk@);
            return Err(DatabaseError::DdlModelAlterProtectedField);
        }
        i += 1;
    }
    let mut i: usize = 0;
    while i < n
        invariant
            n == ns.len(),
            s == schema_of(fields@),
            nv == names_of(ns@),
            i <= n,
            forall|j: int| 0 <= j < n ==> #[trigger] nv[j] != pk@,
            forall|j: int| 0 <= j < i ==> has_name(s, #[trigger] nv[j]),
        decreases n - i,
    {
        assert(nv[i as int] == ns@[i as int]@);
        if find_field(fields, &ns[i]).is_none() {
            return Err(DatabaseError::DdlModelAlterFieldNotFound);
        }
        i += 1;
    }
    if !distinct_strings(ns) {
        return Err(DatabaseError::DdlModelAlterBad);
    }
    let mut out: Vec<String> = Vec::new();
    let mut i: usize = 0;
    while i < n
        invariant
            n == ns.len(),
            i <= n,
            names_of(out@) == names_of(ns@).take(i as int),
        decreases n - i,
    {
        let ghost before = out@;
        out.push(ns[i].clone());
        assert(names_of(out@) =~= names_of(before).push(ns@[i as int]@));
        i += 1;
        assert(names_of(ns@).take(i as int) =~= names_of(ns@).take(i - 1).push(ns@[i - 1]@));
        assert(names_of(out@) =~= names_of(ns@).take(i as int));
    }
    assert(names_of(ns@).take(n as int) =~= names_of(ns@));
    Ok(AlterAction::Remove(out))
}

fn update_action(fields: &Vec<(String, Field)>, pk: &String, fs: &Vec<(String, FieldSyntax)>) -> (r:
    Result<(AlterAction, bool), DatabaseError>)
    requires
        names_distinct(schema_of(fields@)),
    ensures
        match plan_update(schema_of(fields@), pk@, syntax_of(fs@)) {
            Ok(p) => r is Ok && r->Ok_0.0@ == p.action && r->Ok_0.1 == p.no_lock,
            Err(e) => r == Err::<(AlterAction, bool), DatabaseError>(e),
        },
{
    let ghost s = schema_of(fields@);
    let ghost sv = syntax_of(fs@);
    let n = fs.len();
    if n == 0 {
        return Err(DatabaseError::DdlModelAlterBad);
    }
    let mut i: usize = 0;
    while i < n
        invariant
            n == fs.len(),
            sv == syntax_of(fs@),
            i <= n,
            forall|j: int| 0 <= j < i ==> (#[trigger] sv[j]).0 != pk@,
        decreases n - i,
    {
        if fs[i].0 == *pk {
            assert(sv[i as int].0 == pk@);
            return Err(DatabaseError::DdlModelAlterProtectedField);
        }
        i += 1;
    }
    let mut i: usize = 0;
    while i < n
        invariant
            n == fs.len(),
            s == schema_of(fields@),
            sv == syntax_of(fs@),
            i <= n,
            forall|j: int| 0 <= j < n ==> (#[trigger] sv[j]).0 != pk@,
            forall|j: int| 0 <= j < i ==> has_name(s, (#[trigger] sv[j]).0),
        decreases n - i,
    {
        assert(sv[i as int] == (fs@[i as int].0@, fs@[i as int].1@));
        if find_field(fields, &fs[i].0).is_none() {
            assert(!has_name(s, sv[i as int].0));
            return Err(DatabaseError::DdlModelAlterFieldNotFound);
        }
        i += 1;
    }
    if !distinct_keys(fs) {
        proof {
            let (a, b) = choose|a: int, b: int|
                0 <= a < b < fs.len() && #[trigger] fs@[a].0@ == #[trigger] fs@[b].0@;
            assert(sv[a].0 == sv[b].0);
        }
        return Err(DatabaseError::DdlModelAlterBad);
    }
    assert(names_distinct(sv)) by {
        assert forall|a: int, b: int| 0 <= a < b < sv.len() implies #[trigger] sv[a].0
            != #[trigger] sv[b].0 by {
            assert(fs@[a].0@ != fs@[b].0@);
        }
    }
    let mut out: Vec<(String, Field)> = Vec::new();
    let mut no_lock = true;
    let mut i: usize = 0;
    while i < n
        invariant
            n == fs.len(),
            s == schema_of(fields@),
            names_distinct(s),
            sv == syntax_of(fs@),
            names_distinct(sv),
            i <= n,
            out.len() == i,
            forall|j: int| 0 <= j < n ==> (#[trigger] sv[j]).0 != pk@,
            forall|j: int| 0 <= j < n ==> has_name(s, (#[trigger] sv[j]).0),
            forall|j: int| 0 <= j < i ==> !update_has_bad_type(s, #[trigger] sv[j]),
            schema_of(out@) == sv.take(i as int).map_values(|p| updated_field(s, p)),
            no_lock == !exists|j: int| 0 <= j < i && tightens(s, #[trigger] sv[j]),
        decreases n - i,
    {
        assert(has_name(s, sv[i as int].0));
        assert(sv[i as int] == (fs@[i as int].0@, fs@[i as int].1@));
        let k = match find_field(fields, &fs[i].0) {
            Some(k) => k,
            None => {
                return Err(DatabaseError::DdlModelAlterFieldNotFound);
            },
        };
        proof {
            lemma_field_named(s, k as int);
        }
        let cur = &fields[k].1;
        let layers = match &fs[i].1.layers {
            Some(l) => {
                if !classes_match(&cur.layers, l) {
                    assert(update_has_bad_type(s, sv[i as int]));
                    return Err(DatabaseError::DdlModelAlterBadTypedef);
                }
                copy_layers(l)
            },
            None => copy_layers(&cur.layers),
        };
        let nullable = match fs[i].1.nullable {
            Some(b) => b,
            None => cur.nullable,
        };
        if cur.nullable && !nullable {
            assert(tightens(s, sv[i as int]));
            no_lock = false;
        }
        let ghost before = out@;
        out.push((fs[i].0.clone(), Field { layers, nullable }));
        assert(schema_of(out@)[i as int] == updated_field(s, sv[i as int]));
        assert(schema_of(out@) =~= schema_of(before).push(updated_field(s, sv[i as int])));
        i += 1;
        assert(sv.take(i as int) =~= sv.take(i - 1).push(sv[i - 1]));
        assert(schema_of(out@) =~= sv.take(i as int).map_values(|p| updated_field(s, p)));
    }
    assert(sv.take(n as int) =~= sv);
    Ok((AlterAction::Update(out), no_lock))
}

impl AlterPlan {
    /// Plans `alter` against the schema of `model`, which it only reads.
    pub fn fdeltas(model: &Model, alter: AlterModel) -> (r: Result<AlterPlan, DatabaseError>)
        requires
            model.wf(),
        ensures
            match plan_spec(model.schema(), model.pk@, alter.kind@) {
                Ok(p) => r is Ok && r->Ok_0.action@ == p.action && r->Ok_0.no_lock == p.no_lock
                    && r->Ok_0.model == alter.model,
                Err(e) => r == Err::<AlterPlan, DatabaseError>(e),
            },
    {
        match &alter.kind {
            AlterKind::Add(fs) => {
                let action = add_action(&model.fields, fs)?;
                Ok(AlterPlan { model: alter.model, action, no_lock: true })
            },
            AlterKind::Remove(ns) => {
                let action = remove_action(&model.fields, &model.pk, ns)?;
                Ok(AlterPlan { model: alter.model, action, no_lock: true })
            },
            AlterKind::Update(fs) => {
                let (action, no_lock) = update_action(&model.fields, &model.pk, fs)?;
                Ok(AlterPlan { model: alter.model, action, no_lock })
            },
        }
    }
}

proof fn lemma_remove_names(s: Schema, ns: Seq<Seq<char>>)
    ensures
        forall|k: int|
            0 <= k < remove_names(s, ns).len() ==> exists|j: int|
                0 <= j < s.len() && #[trigger] remove_names(s, ns)[k] == s[j],
        names_distinct(s) ==> names_distinct(remove_names(s, ns)),
        forall|n: Seq<char>|
            has_name(s, n) && !ns.contains(n) ==> #[trigger] has_name(remove_names(s, ns), n),
    decreases s.len(),
{
    if s.len() > 0 {
        let d = s.drop_last();
        lemma_remove_names(d, ns);
        let rest = remove_names(d, ns);
        let r = remove_names(s, ns);
        assert forall|k: int| 0 <= k < r.len() implies exists|j: int|
            0 <= j < s.len() && #[trigger] r[k] == s[j] by {
            if k < rest.len() {
                let j = choose|j: int| 0 <= j < d.len() && #[trigger] rest[k] == d[j];
                assert(r[k] == s[j]);
            } else {
                assert(r[k] == s[s.len() - 1]);
            }
        }
        if names_distinct(s) {
            assert(names_distinct(d));
            if !ns.contains(s.last().0) {
                assert forall|a: int, b: int| 0 <= a < b < r.len() implies #[trigger] r[a].0
                    != #[trigger] r[b].0 by {
                    if b == rest.len() {
                        let j = choose|j: int| 0 <= j < d.len() && #[trigger] rest[a] == d[j];
                        assert(s[j].0 != s[s.len() - 1].0);
                    } else {
                        assert(rest[a].0 != rest[b].0);
                    }
                }
            }
        }
        assert forall|n: Seq<char>| has_name(s, n) && !ns.contains(n) implies #[trigger] has_name(
            r,
            n,
        ) by {
            let i = choose|i: int| 0 <= i < s.len() && #[trigger] s[i].0 == n;
            if i < d.len() {
                assert(d[i].0 == n);
                assert(has_name(rest, n));
                let k = choose|k: int| 0 <= k < rest.len() && #[trigger] rest[k].0 == n;
                assert(r[k].0 == n);
            } else {
                assert(r[r.len() - 1].0 == n);
            }
        }
    }
}

fn clone_field(f: &Field) -> (r: Field)
    ensures
        r@ == f@,
{
    Field { layers: copy_layers(&f.layers), nullable: f.nullable }
}

fn contains_name(ns: &Vec<String>, n: &String) -> (r: bool)
    ensures
        r == names_of(ns@).contains(n@),
{
    let mut i: usize = 0;
    while i < ns.len()
        invariant
            i <= ns.len(),
            forall|j: int| 0 <= j < i ==> #[trigger] ns@[j]@ != n@,
        decreases ns.len() - i,
    {
        if ns[i] == *n {
            assert(names_of(ns@)[i as int] == n@);
            return true;
        }
        i += 1;
    }
    assert forall|j: int| 0 <= j < ns.len() implies #[trigger] names_of(ns@)[j] != n@ by {
        assert(ns@[j]@ != n@);
    }
    false
}

impl Model {
    pub open spec fn schema(&self) -> Schema {
        schema_of(self.fields@)
    }

    pub open spec fn wf(&self) -> bool {
        schema_wf(self.schema(), self.pk@)
    }

    /// Creates a table at schema version 1; `None` where the schema is not well formed.
    pub fn create(name: String, pk: String, fields: Vec<(String, Field)>) -> (r: Option<Model>)
        ensures
            match r {
                Some(m) => schema_wf(schema_of(fields@), pk@) && m.name == name && m.pk == pk
                    && m.fields == fields && m.schema_version == 1,
                None => !schema_wf(schema_of(fields@), pk@),
            },
    {
        let ghost s = schema_of(fields@);
        if !distinct_keys(&fields) {
            proof {
                let (a, b) = choose|a: int, b: int|
                    0 <= a < b < fields.len() && #[trigger] fields@[a].0@ == #[trigger] fields@[b].0@;
                assert(s[a].0 == s[b].0);
            }
            return None;
        }
        assert(names_distinct(s)) by {
            assert forall|a: int, b: int| 0 <= a < b < s.len() implies #[trigger] s[a].0
                != #[trigger] s[b].0 by {
                assert(fields@[a].0@ != fields@[b].0@);
            }
        }
        let mut i: usize = 0;
        while i < fields.len()
            invariant
                s == schema_of(fields@),
                i <= fields.len(),
                forall|j: int| 0 <= j < i ==> valid_layers(#[trigger] s[j].1.layers),
            decreases fields.len() - i,
        {
            if !layers_valid(&fields[i].1.layers) {
                assert(!valid_layers(s[i as int].1.layers));
                return None;
            }
            i += 1;
        }
        match find_field(&fields, &pk) {
            None => None,
            Some(k) => {
                proof {
                    lemma_field_named(s, k as int);
                }
                if fields[k].1.nullable {
                    None
                } else {
                    Some(Model { name, pk, fields, schema_version: 1 })
                }
            },
        }
    }

    pub fn fields(&self) -> (r: &Vec<(String, Field)>)
        ensures
            r == self.fields,
    {
        &self.fields
    }

    pub fn current_version(&self) -> (r: u64)
        ensures
            r == self.schema_version,
    {
        self.schema_version
    }

    /// The definition of the field `name`, if the table has one.
    pub fn get_field(&self, name: &String) -> (r: Option<&Field>)
        requires
            self.wf(),
        ensures
            match r {
                Some(f) => has_name(self.schema(), name@) && f@ == field_named(
                    self.schema(),
                    name@,
                ),
                None => !has_name(self.schema(), name@),
            },
    {
        match find_field(&self.fields, name) {
            Some(k) => {
                proof {
                    lemma_field_named(self.schema(), k as int);
                }
                Some(&self.fields[k].1)
            },
            None => None,
        }
    }
}


fn remove_fields(fields: &Vec<(String, Field)>, ns: &Vec<String>) -> (r: Vec<(String, Field)>)
    ensures
        schema_of(r@) == remove_names(schema_of(fields@), names_of(ns@)),
{
    let ghost s = schema_of(fields@);
    let mut out: Vec<(String, Field)> = Vec::new();
    let mut i: usize = 0;
    while i < fields.len()
        invariant
            s == schema_of(fields@),
            i <= fields.len(),
            schema_of(out@) == remove_names(s.take(i as int), names_of(ns@)),
        decreases fields.len() - i,
    {
        assert(s.take(i + 1).drop_last() =~= s.take(i as int));
        assert(s.take(i + 1).last() == s[i as int]);
        if !contains_name(ns, &fields[i].0) {
            let ghost before = out@;
            out.push((fields[i].0.clone(), clone_field(&fields[i].1)));
            assert(schema_of(out@) =~= schema_of(before).push(s[i as int]));
        }
        i += 1;
    }
    assert(s.take(fields.len() as int) =~= s);
    out
}

fn update_fields(fields: &Vec<(String, Field)>, us: &Vec<(String, Field)>) -> (r: Vec<
    (String, Field),
>)
    requires
        names_distinct(schema_of(us@)),
    ensures
        schema_of(r@) == apply_spec(schema_of(fields@), ActionModel::Update(schema_of(us@))),
{
    let ghost s = schema_of(fields@);
    let ghost u = schema_of(us@);
    let mut out: Vec<(String, Field)> = Vec::new();
    let mut i: usize = 0;
    while i < fields.len()
        invariant
            s == schema_of(fields@),
            u == schema_of(us@),
            names_distinct(u),
            i <= fields.len(),
            out.len() == i,
            forall|j: int|
                0 <= j < i ==> #[trigger] schema_of(out@)[j] == (if has_name(u, s[j].0) {
                    (s[j].0, field_named(u, s[j].0))
                } else {
                    s[j]
                }),
        decreases fields.len() - i,
    {
        let f = match find_field(us, &fields[i].0) {
            Some(k) => {
                proof {
                    lemma_field_named(u, k as int);
                }
                clone_field(&us[k].1)
            },
            None => clone_field(&fields[i].1),
        };
        let ghost before = out@;
        out.push((fields[i].0.clone(), f));
        assert forall|j: int| 0 <= j < i implies #[trigger] schema_of(out@)[j] == schema_of(
            before,
        )[j] by {}
        i += 1;
    }
    let ghost target = apply_spec(s, ActionModel::Update(u));
    assert(schema_of(out@) =~= target);
    out
}

impl Model {
    /// Plans `alter` and, where the plan allows it, commits it: the schema
    /// becomes what the plan describes and the schema version advances by one.
    /// A plan that needs exclusive access is refused with `NeedLock` unless
    /// `exclusive` says that the caller holds it.
    pub fn exec_alter(&mut self, alter: AlterModel, exclusive: bool) -> (r: Result<
        (),
        DatabaseError,
    >)
        requires
            old(self).wf(),
            old(self).schema_version < u64::MAX,
        ensures
            match plan_spec(old(self).schema(), old(self).pk@, alter.kind@) {
                Err(e) => r == Err::<(), DatabaseError>(e) && *final(self) == *old(self),
                Ok(p) => if !p.no_lock && !exclusive {
                    r == Err::<(), DatabaseError>(DatabaseError::NeedLock) && *final(self) == *old(
                        self,
                    )
                } else {
                    &&& r is Ok
                    &&& final(self).schema() == apply_spec(old(self).schema(), p.action)
                    &&& final(self).schema_version == old(self).schema_version + 1
                    &&& final(self).name == old(self).name
                    &&& final(self).pk == old(self).pk
                    &&& final(self).wf()
                },
            },
    {
        let ghost s = self.schema();
        let ghost pk = self.pk@;
        let ghost req = alter.kind@;
        let plan = AlterPlan::fdeltas(self, alter)?;
        if !plan.no_lock && !exclusive {
            return Err(DatabaseError::NeedLock);
        }
        match plan.action {
            AlterAction::Add(mut new) => {
                let ghost nv = schema_of(new@);
                let ghost fs = match req {
                    RequestModel::Add(fs) => fs,
                    _ => arbitrary(),
                };
                self.fields.append(&mut new);
                proof {
                    assert(schema_of(self.fields@) =~= s + nv);
                    let t = s + nv;
                    assert forall|a: int, b: int| 0 <= a < b < t.len() implies #[trigger] t[a].0
                        != #[trigger] t[b].0 by {
                        if b >= s.len() && a >= s.len() {
                            assert(fs[a - s.len()].0 != fs[b - s.len()].0);
                        } else if b >= s.len() {
                            assert(!add_is_bad(s, fs[b - s.len()]));
                            assert(t[a].0 == s[a].0);
                        }
                    }
                    assert forall|i: int| 0 <= i < t.len() implies valid_layers(
                        #[trigger] t[i].1.layers,
                    ) by {
                        if i >= s.len() {
                            assert(!add_has_bad_type(fs[i - s.len()]));
                        }
                    }
                    let k = choose|k: int| 0 <= k < s.len() && #[trigger] s[k].0 == pk;
                    lemma_field_named(s, k);
                    assert(t[k] == s[k]);
                    lemma_field_named(t, k);
                }
            },
            AlterAction::Remove(ns) => {
                let kept = remove_fields(&self.fields, &ns);
                self.fields = kept;
                proof {
                    let t = remove_names(s, names_of(ns@));
                    lemma_remove_names(s, names_of(ns@));
                    assert(!names_of(ns@).contains(pk));
                    assert(has_name(t, pk));
                    let k = choose|k: int| 0 <= k < t.len() && #[trigger] t[k].0 == pk;
                    let j = choose|j: int| 0 <= j < s.len() && #[trigger] t[k] == s[j];
                    lemma_field_named(s, j);
                    lemma_field_named(t, k);
                    assert forall|i: int| 0 <= i < t.len() implies valid_layers(
                        #[trigger] t[i].1.layers,
                    ) by {
                        let j = choose|j: int| 0 <= j < s.len() && #[trigger] t[i] == s[j];
                        assert(valid_layers(s[j].1.layers));
                    }
                }
            },
            AlterAction::Update(us) => {
                let ghost fs = match req {
                    RequestModel::Update(fs) => fs,
                    _ => arbitrary(),
                };
                proof {
                    let u = schema_of(us@);
                    assert forall|a: int, b: int| 0 <= a < b < u.len() implies #[trigger] u[a].0
                        != #[trigger] u[b].0 by {
                        assert(fs[a].0 != fs[b].0);
                    }
                }
                let updated = update_fields(&self.fields, &us);
                self.fields = updated;
                proof {
                    let u = schema_of(us@);
                    let t = self.schema();
                    assert forall|a: int, b: int| 0 <= a < b < t.len() implies #[trigger] t[a].0
                        != #[trigger] t[b].0 by {
                        assert(s[a].0 != s[b].0);
                    }
                    assert forall|i: int| 0 <= i < t.len() implies valid_layers(
                        #[trigger] t[i].1.layers,
                    ) by {
                        if has_name(u, s[i].0) {
                            let k = choose|k: int| 0 <= k < u.len() && #[trigger] u[k].0 == s[i].0;
                            lemma_field_named(u, k);
                            lemma_field_named(s, i);
                            assert(fs[k].0 == s[i].0);
                            assert(!update_has_bad_type(s, fs[k]));
                            let cur = s[i].1.layers;
                            let nl = t[i].1.layers;
                            assert(valid_layers(cur));
                            assert forall|x: int| 0 <= x < nl.len() - 1 implies #[trigger] nl[x]
                                == Layer::List by {
                                assert(cur[x].spec_class() == nl[x].spec_class());
                            }
                            assert(cur[cur.len() - 1].spec_class() == nl[nl.len() - 1].spec_class());
                        }
                    }
                    let k = choose|k: int| 0 <= k < s.len() && #[trigger] s[k].0 == pk;
                    lemma_field_named(s, k);
                    if has_name(u, pk) {
                        let x = choose|x: int| 0 <= x < u.len() && #[trigger] u[x].0 == pk;
                        assert(fs[x].0 == pk);
                    }
                    assert(t[k] == s[k]);
                    lemma_field_named(t, k);
                }
            },
        }
        self.schema_version = self.schema_version + 1;
        Ok(())
    }
}


/// Removing or updating the primary key always fails with `ProtectedField`,
/// and adding a field under the primary key's name always fails with `AlterBad`.
pub proof fn lemma_primary_key_protected(
    s: Schema,
    pk: Seq<char>,
    ns: Seq<Seq<char>>,
    fs: Seq<(Seq<char>, FieldSyntaxModel)>,
    i: int,
    j: int,
)
    requires
        schema_wf(s, pk),
        0 <= i < ns.len(),
        ns[i] == pk,
        0 <= j < fs.len(),
        fs[j].0 == pk,
    ensures
        plan_spec(s, pk, RequestModel::Remove(ns)) == Err::<PlanModel, DatabaseError>(
            DatabaseError::DdlModelAlterProtectedField,
        ),
        plan_spec(s, pk, RequestModel::Update(fs)) == Err::<PlanModel, DatabaseError>(
            DatabaseError::DdlModelAlterProtectedField,
        ),
        plan_spec(s, pk, RequestModel::Add(fs)) == Err::<PlanModel, DatabaseError>(
            DatabaseError::DdlModelAlterBad,
        ),
{
    assert(add_is_bad(s, fs[j]));
}

/// Updating the type of a field to layers of other classes fails with
/// `AlterBadTypedef`; to layers of the same classes it succeeds.
pub proof fn lemma_type_class_change(s: Schema, pk: Seq<char>, name: Seq<char>, layers: Seq<Layer>)
    requires
        schema_wf(s, pk),
        has_name(s, name),
        name != pk,
    ensures
        ({
            let req = RequestModel::Update(
                seq![(name, FieldSyntaxModel { layers: Some(layers), nullable: None })],
            );
            if same_classes(field_named(s, name).layers, layers) {
                plan_spec(s, pk, req) is Ok
            } else {
                plan_spec(s, pk, req) == Err::<PlanModel, DatabaseError>(
                    DatabaseError::DdlModelAlterBadTypedef,
                )
            }
        }),
{
    let fs = seq![(name, FieldSyntaxModel { layers: Some(layers), nullable: None })];
    assert(fs[0].0 == name);
    if !same_classes(field_named(s, name).layers, layers) {
        assert(update_has_bad_type(s, fs[0]));
    }
}

/// A plan needs exclusive access exactly when it makes a nullable field
/// non-nullable; every other accepted alteration runs without a lock.
pub proof fn lemma_no_lock_unless_tightened(s: Schema, pk: Seq<char>, req: RequestModel)
    ensures
        plan_spec(s, pk, req) is Ok ==> plan_spec(s, pk, req)->Ok_0.no_lock == !(match req {
            RequestModel::Update(fs) => exists|i: int|
                0 <= i < fs.len() && tightens(s, #[trigger] fs[i]),
            _ => false,
        }),
{
}

} // verus!
