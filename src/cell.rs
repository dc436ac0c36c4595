//! Cell values and primary keys, with their models.
use vstd::prelude::*;
use vstd::utf8::valid_utf8;

verus! {

/// A value stored in a column.
#[derive(Debug, PartialEq)]
pub enum Datacell {
    Null,
    Bool(bool),
    UnsignedInt(u64),
    SignedInt(i64),
    /// A float, held as its IEEE-754 bits.
    Float(u64),
    Str(Vec<u8>),
    Bin(Vec<u8>),
    List(Vec<Datacell>),
}

pub enum CellModel {
    Null,
    Bool(bool),
    UnsignedInt(u64),
    SignedInt(i64),
    Float(u64),
    Str(Seq<u8>),
    Bin(Seq<u8>),
    List(Seq<CellModel>),
}

impl Datacell {
    pub open spec fn model(&self) -> CellModel
        decreases self,
    {
        match self {
            Datacell::Null => CellModel::Null,
            Datacell::Bool(b) => CellModel::Bool(*b),
            Datacell::UnsignedInt(x) => CellModel::UnsignedInt(*x),
            Datacell::SignedInt(x) => CellModel::SignedInt(*x),
            Datacell::Float(x) => CellModel::Float(*x),
            Datacell::Str(b) => CellModel::Str(b@),
            Datacell::Bin(b) => CellModel::Bin(b@),
            Datacell::List(v) => CellModel::List(
                Seq::new(
                    v.len() as nat,
                    |i: int|
                        if 0 <= i < v.len() {
                            v[i].model()
                        } else {
                            CellModel::Null
                        },
                ),
            ),
        }
    }
}


/// Relies on `core::str::from_utf8`: it succeeds exactly on valid UTF-8.
#[verifier::external_body]
pub(crate) fn is_utf8(b: &[u8]) -> (r: bool)
    ensures
        r == valid_utf8(b@),
{
    core::str::from_utf8(b).is_ok()
}

/// A cell that the journal can hold: text is UTF-8, lengths fit in 64 bits.
pub open spec fn cell_wf(c: CellModel) -> bool
    decreases c,
{
    match c {
        CellModel::Str(b) => valid_utf8(b) && b.len() <= u64::MAX,
        CellModel::Bin(b) => b.len() <= u64::MAX,
        CellModel::List(v) => v.len() <= u64::MAX && forall|i: int|
            0 <= i < v.len() ==> cell_wf(#[trigger] v[i]),
        _ => true,
    }
}

pub open spec fn cells_model(v: Seq<Datacell>) -> Seq<CellModel> {
    Seq::new(v.len(), |i: int| v[i].model())
}

pub proof fn lemma_list_model(v: Vec<Datacell>)
    ensures
        Datacell::List(v).model() == CellModel::List(cells_model(v@)),
{
    assert(Datacell::List(v).model()->List_0 =~= cells_model(v@));
}

/// The primary key of a row.
#[derive(Debug, PartialEq)]
pub enum PrimaryIndexKey {
    UnsignedInt(u64),
    SignedInt(i64),
    Bin(Vec<u8>),
    Str(Vec<u8>),
}

pub enum KeyModel {
    UnsignedInt(u64),
    SignedInt(i64),
    Bin(Seq<u8>),
    Str(Seq<u8>),
}

impl PrimaryIndexKey {
    pub open spec fn model(&self) -> KeyModel {
        match self {
            PrimaryIndexKey::UnsignedInt(x) => KeyModel::UnsignedInt(*x),
            PrimaryIndexKey::SignedInt(x) => KeyModel::SignedInt(*x),
            PrimaryIndexKey::Bin(b) => KeyModel::Bin(b@),
            PrimaryIndexKey::Str(b) => KeyModel::Str(b@),
        }
    }

    /// Whether two keys are the same key.
    pub fn same(&self, other: &PrimaryIndexKey) -> (r: bool)
        ensures
            r == (self.model() == other.model()),
    {
        match (self, other) {
            (PrimaryIndexKey::UnsignedInt(a), PrimaryIndexKey::UnsignedInt(b)) => *a == *b,
            (PrimaryIndexKey::SignedInt(a), PrimaryIndexKey::SignedInt(b)) => *a == *b,
            (PrimaryIndexKey::Bin(a), PrimaryIndexKey::Bin(b)) => bytes_eq(a, b),
            (PrimaryIndexKey::Str(a), PrimaryIndexKey::Str(b)) => bytes_eq(a, b),
            _ => false,
        }
    }
}

pub open spec fn key_wf(k: KeyModel) -> bool {
    match k {
        KeyModel::Str(b) => valid_utf8(b) && b.len() <= u64::MAX,
        KeyModel::Bin(b) => b.len() <= u64::MAX,
        _ => true,
    }
}

fn bytes_eq(a: &Vec<u8>, b: &Vec<u8>) -> (r: bool)
    ensures
        r == (a@ == b@),
{
    if a.len() != b.len() {
        return false;
    }
    let mut i: usize = 0;
    while i < a.len()
        invariant
            a.len() == b.len(),
            i <= a.len(),
            forall|j: int| 0 <= j < i ==> a@[j] == b@[j],
        decreases a.len() - i,
    {
        if a[i] != b[i] {
            return false;
        }
        i += 1;
    }
    assert(a@ =~= b@);
    true
}

} // verus!
