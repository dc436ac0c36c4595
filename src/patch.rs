//! Patches: what a write does to a key-value index where the key is
//! absent and where it is present.
use vstd::prelude::*;
use vstd::pervasive::cloned;

verus! {

/// The write modes of a patch.
pub const WRITEMODE_DELETE: u8 = 0xFF;
/// Applies only where the key is absent.
pub const WRITEMODE_FRESH: u8 = 0b01;
/// Applies only where the key is present.
pub const WRITEMODE_REFRESH: u8 = 0b10;
/// Applies either way.
pub const WRITEMODE_ANY: u8 = 0b11;

/// A write to one key of an index whose entries are `(K, V)` pairs. Each
/// patch states, through the spec functions below, which entry it stores and
/// what it returns, both where the key is absent and where it is present.
pub trait PatchWrite<K: Clone, V: Clone>: Sized {
    type Ret;

    spec fn spec_wmode(&self) -> u8;

    spec fn spec_target(&self) -> K;

    /// `r` may be the entry stored where the key is absent.
    spec fn spec_nx_new(&self, r: (K, V)) -> bool;

    spec fn spec_nx_ret(&self) -> Self::Ret;

    /// `r` may be the entry stored in place of `current`.
    spec fn spec_ex_apply(&self, current: (K, V), r: (K, V)) -> bool;

    /// `r` may be returned where `current` was present.
    spec fn spec_ex_ret(&self, current: (K, V), r: Self::Ret) -> bool;

    /// Where the patch applies: absent keys, present keys, or both.
    fn wmode(&self) -> (r: u8)
        ensures
            r == self.spec_wmode(),
    ;

    /// The key that the patch writes.
    fn target(&self) -> (r: &K)
        ensures
            *r == self.spec_target(),
    ;

    /// The entry to store where the key is absent.
    fn nx_new(&mut self) -> (r: (K, V))
        ensures
            *final(self) == *old(self),
            old(self).spec_nx_new(r),
    ;

    /// What the write returns where the key was absent.
    fn nx_ret(&self) -> (r: Self::Ret)
        ensures
            r == self.spec_nx_ret(),
    ;

    /// The entry to store in place of `current`.
    fn ex_apply(&mut self, current: &(K, V)) -> (r: (K, V))
        ensures
            *final(self) == *old(self),
            old(self).spec_ex_apply(*current, r),
    ;

    /// What the write returns where `current` was present.
    fn ex_ret(&self, current: &(K, V)) -> (r: Self::Ret)
        ensures
            self.spec_ex_ret(*current, r),
    ;
}

/// A removal of one key.
pub trait PatchDelete<K, V> {
    type Ret;

    spec fn spec_target(&self) -> K;

    spec fn spec_nx(&self) -> Self::Ret;

    /// `r` may be returned where `current` was present.
    spec fn spec_ex(&self, current: (K, V), r: Self::Ret) -> bool;

    fn target(&self) -> (r: &K)
        ensures
            *r == self.spec_target(),
    ;

    /// What the removal returns where `current` was present.
    fn ex(&self, current: &(K, V)) -> (r: Self::Ret)
        ensures
            self.spec_ex(*current, r),
    ;

    /// What the removal returns where the key was absent.
    fn nx(&self) -> (r: Self::Ret)
        ensures
            r == self.spec_nx(),
    ;
}

/// An insert: adds the pair only where the key is absent.
pub struct Insert<K, V> {
    pub target: K,
    pub new_data: V,
}

impl<K, V> Insert<K, V> {
    pub fn new(target: K, new_data: V) -> (r: Self)
        ensures
            r.target == target,
            r.new_data == new_data,
    {
        Insert { target, new_data }
    }
}

impl<K: Clone, V: Clone> PatchWrite<K, V> for Insert<K, V> {
    type Ret = bool;

    open spec fn spec_wmode(&self) -> u8 {
        WRITEMODE_FRESH
    }

    open spec fn spec_target(&self) -> K {
        self.target
    }

    open spec fn spec_nx_new(&self, r: (K, V)) -> bool {
        cloned(self.target, r.0) && cloned(self.new_data, r.1)
    }

    open spec fn spec_nx_ret(&self) -> bool {
        true
    }

    open spec fn spec_ex_apply(&self, current: (K, V), r: (K, V)) -> bool {
        cloned(current.0, r.0) && cloned(current.1, r.1)
    }

    open spec fn spec_ex_ret(&self, current: (K, V), r: bool) -> bool {
        r == false
    }

    fn wmode(&self) -> u8 {
        WRITEMODE_FRESH
    }

    fn target(&self) -> &K {
        &self.target
    }

    fn nx_new(&mut self) -> (K, V) {
        (self.target.clone(), self.new_data.clone())
    }

    fn nx_ret(&self) -> bool {
        true
    }

    fn ex_apply(&mut self, current: &(K, V)) -> (K, V) {
        (current.0.clone(), current.1.clone())
    }

    fn ex_ret(&self, current: &(K, V)) -> bool {
        false
    }
}

/// An upsert: adds the pair, or replaces the value where the key is present.
pub struct Upsert<K, V> {
    pub target: K,
    pub new_data: V,
}

impl<K, V> Upsert<K, V> {
    pub fn new(target: K, new_data: V) -> (r: Self)
        ensures
            r.target == target,
            r.new_data == new_data,
    {
        Upsert { target, new_data }
    }
}

impl<K: Clone, V: Clone> PatchWrite<K, V> for Upsert<K, V> {
    type Ret = ();

    open spec fn spec_wmode(&self) -> u8 {
        WRITEMODE_ANY
    }

    open spec fn spec_target(&self) -> K {
        self.target
    }

    open spec fn spec_nx_new(&self, r: (K, V)) -> bool {
        cloned(self.target, r.0) && cloned(self.new_data, r.1)
    }

    open spec fn spec_nx_ret(&self) -> () {
        ()
    }

    open spec fn spec_ex_apply(&self, current: (K, V), r: (K, V)) -> bool {
        cloned(self.target, r.0) && cloned(self.new_data, r.1)
    }

    open spec fn spec_ex_ret(&self, current: (K, V), r: ()) -> bool {
        r == ()
    }

    fn wmode(&self) -> u8 {
        WRITEMODE_ANY
    }

    fn target(&self) -> &K {
        &self.target
    }

    fn nx_new(&mut self) -> (K, V) {
        (self.target.clone(), self.new_data.clone())
    }

    fn nx_ret(&self) -> () {
        ()
    }

    fn ex_apply(&mut self, current: &(K, V)) -> (K, V) {
        self.nx_new()
    }

    fn ex_ret(&self, current: &(K, V)) -> () {
        ()
    }
}

/// An upsert that hands back the value it replaced.
pub struct UpsertReturn<K, V> {
    pub target: K,
    pub new_data: V,
}

impl<K, V> UpsertReturn<K, V> {
    pub fn new(target: K, new_data: V) -> (r: Self)
        ensures
            r.target == target,
            r.new_data == new_data,
    {
        UpsertReturn { target, new_data }
    }
}

impl<K: Clone, V: Clone> PatchWrite<K, V> for UpsertReturn<K, V> {
    type Ret = Option<V>;

    open spec fn spec_wmode(&self) -> u8 {
        WRITEMODE_ANY
    }

    open spec fn spec_target(&self) -> K {
        self.target
    }

    open spec fn spec_nx_new(&self, r: (K, V)) -> bool {
        cloned(self.target, r.0) && cloned(self.new_data, r.1)
    }

    open spec fn spec_nx_ret(&self) -> Option<V> {
        None
    }

    open spec fn spec_ex_apply(&self, current: (K, V), r: (K, V)) -> bool {
        cloned(self.target, r.0) && cloned(self.new_data, r.1)
    }

    open spec fn spec_ex_ret(&self, current: (K, V), r: Option<V>) -> bool {
        r is Some && cloned(current.1, r->Some_0)
    }

    fn wmode(&self) -> u8 {
        WRITEMODE_ANY
    }

    fn target(&self) -> &K {
        &self.target
    }

    fn nx_new(&mut self) -> (K, V) {
        (self.target.clone(), self.new_data.clone())
    }

    fn nx_ret(&self) -> Option<V> {
        None
    }

    fn ex_apply(&mut self, current: &(K, V)) -> (K, V) {
        self.nx_new()
    }

    fn ex_ret(&self, current: &(K, V)) -> Option<V> {
        Some(current.1.clone())
    }
}

/// An update: replaces the value only where the key is present.
pub struct UpdateReplace<K, V> {
    pub target: K,
    pub new_data: V,
}

impl<K, V> UpdateReplace<K, V> {
    pub fn new(target: K, new_data: V) -> (r: Self)
        ensures
            r.target == target,
            r.new_data == new_data,
    {
        UpdateReplace { target, new_data }
    }
}

impl<K: Clone, V: Clone> PatchWrite<K, V> for UpdateReplace<K, V> {
    type Ret = bool;

    open spec fn spec_wmode(&self) -> u8 {
        WRITEMODE_REFRESH
    }

    open spec fn spec_target(&self) -> K {
        self.target
    }

    open spec fn spec_nx_new(&self, r: (K, V)) -> bool {
        cloned(self.target, r.0) && cloned(self.new_data, r.1)
    }

    open spec fn spec_nx_ret(&self) -> bool {
        false
    }

    open spec fn spec_ex_apply(&self, current: (K, V), r: (K, V)) -> bool {
        cloned(current.0, r.0) && cloned(self.new_data, r.1)
    }

    open spec fn spec_ex_ret(&self, current: (K, V), r: bool) -> bool {
        r == true
    }

    fn wmode(&self) -> u8 {
        WRITEMODE_REFRESH
    }

    fn target(&self) -> &K {
        &self.target
    }

    fn nx_new(&mut self) -> (K, V) {
        (self.target.clone(), self.new_data.clone())
    }

    fn nx_ret(&self) -> bool {
        false
    }

    fn ex_apply(&mut self, current: &(K, V)) -> (K, V) {
        (current.0.clone(), self.new_data.clone())
    }

    fn ex_ret(&self, current: &(K, V)) -> bool {
        true
    }
}

/// An update that hands back the value it replaced.
pub struct UpdateReplaceRet<K, V> {
    pub target: K,
    pub new_data: V,
}

impl<K, V> UpdateReplaceRet<K, V> {
    pub fn new(target: K, new_data: V) -> (r: Self)
        ensures
            r.target == target,
            r.new_data == new_data,
    {
        UpdateReplaceRet { target, new_data }
    }
}

impl<K: Clone, V: Clone> PatchWrite<K, V> for UpdateReplaceRet<K, V> {
    type Ret = Option<V>;

    open spec fn spec_wmode(&self) -> u8 {
        WRITEMODE_REFRESH
    }

    open spec fn spec_target(&self) -> K {
        self.target
    }

    open spec fn spec_nx_new(&self, r: (K, V)) -> bool {
        cloned(self.target, r.0) && cloned(self.new_data, r.1)
    }

    open spec fn spec_nx_ret(&self) -> Option<V> {
        None
    }

    open spec fn spec_ex_apply(&self, current: (K, V), r: (K, V)) -> bool {
        cloned(current.0, r.0) && cloned(self.new_data, r.1)
    }

    open spec fn spec_ex_ret(&self, current: (K, V), r: Option<V>) -> bool {
        r is Some && cloned(current.1, r->Some_0)
    }

    fn wmode(&self) -> u8 {
        WRITEMODE_REFRESH
    }

    fn target(&self) -> &K {
        &self.target
    }

    fn nx_new(&mut self) -> (K, V) {
        (self.target.clone(), self.new_data.clone())
    }

    fn nx_ret(&self) -> Option<V> {
        None
    }

    fn ex_apply(&mut self, current: &(K, V)) -> (K, V) {
        (current.0.clone(), self.new_data.clone())
    }

    fn ex_ret(&self, current: &(K, V)) -> Option<V> {
        Some(current.1.clone())
    }
}

/// An insert of a ready entry, only where its key is absent.
pub struct InsertDirect<K, V> {
    pub data: (K, V),
}

impl<K, V> InsertDirect<K, V> {
    pub fn new(key: K, val: V) -> (r: Self)
        ensures
            r.data == (key, val),
    {
        InsertDirect { data: (key, val) }
    }
}

impl<K: Clone, V: Clone> PatchWrite<K, V> for InsertDirect<K, V> {
    type Ret = bool;

    open spec fn spec_wmode(&self) -> u8 {
        WRITEMODE_FRESH
    }

    open spec fn spec_target(&self) -> K {
        self.data.0
    }

    open spec fn spec_nx_new(&self, r: (K, V)) -> bool {
        cloned(self.data.0, r.0) && cloned(self.data.1, r.1)
    }

    open spec fn spec_nx_ret(&self) -> bool {
        true
    }

    open spec fn spec_ex_apply(&self, current: (K, V), r: (K, V)) -> bool {
        cloned(current.0, r.0) && cloned(current.1, r.1)
    }

    open spec fn spec_ex_ret(&self, current: (K, V), r: bool) -> bool {
        r == false
    }

    fn wmode(&self) -> u8 {
        WRITEMODE_FRESH
    }

    fn target(&self) -> &K {
        &self.data.0
    }

    fn nx_new(&mut self) -> (K, V) {
        (self.data.0.clone(), self.data.1.clone())
    }

    fn nx_ret(&self) -> bool {
        true
    }

    fn ex_apply(&mut self, current: &(K, V)) -> (K, V) {
        (current.0.clone(), current.1.clone())
    }

    fn ex_ret(&self, current: &(K, V)) -> bool {
        false
    }
}

/// A removal that reports whether the key was present.
pub struct Delete<'a, K> {
    pub target: &'a K,
}

impl<'a, K> Delete<'a, K> {
    pub fn new(target: &'a K) -> (r: Self)
        ensures
            r.target == target,
    {
        Delete { target }
    }
}

impl<'d, K, V> PatchDelete<K, V> for Delete<'d, K> {
    type Ret = bool;

    open spec fn spec_target(&self) -> K {
        *self.target
    }

    open spec fn spec_nx(&self) -> bool {
        false
    }

    open spec fn spec_ex(&self, current: (K, V), r: bool) -> bool {
        r == true
    }

    fn target(&self) -> &K {
        self.target
    }

    fn ex(&self, current: &(K, V)) -> bool {
        true
    }

    fn nx(&self) -> bool {
        false
    }
}

/// A removal that hands back the value it removed.
pub struct DeleteRet<'a, K> {
    pub target: &'a K,
}

impl<'a, K> DeleteRet<'a, K> {
    pub fn new(target: &'a K) -> (r: Self)
        ensures
            r.target == target,
    {
        DeleteRet { target }
    }
}

impl<'d, K, V: Clone> PatchDelete<K, V> for DeleteRet<'d, K> {
    type Ret = Option<V>;

    open spec fn spec_target(&self) -> K {
        *self.target
    }

    open spec fn spec_nx(&self) -> Option<V> {
        None
    }

    open spec fn spec_ex(&self, current: (K, V), r: Option<V>) -> bool {
        r is Some && cloned(current.1, r->Some_0)
    }

    fn target(&self) -> &K {
        self.target
    }

    fn ex(&self, current: &(K, V)) -> Option<V> {
        Some(current.1.clone())
    }

    fn nx(&self) -> Option<V> {
        None
    }
}

} // verus!
