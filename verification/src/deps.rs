//! The typed value store: values of any type, each kept under the identity of
//! its type and handed out again as a clone.

use std::any::Any;
use std::any::TypeId;
use vstd::prelude::*;

use crate::error::DepsError;

verus! {

/// A value whose type has been forgotten. Only a downcast to the type it was
/// made from reads it again; to the verifier it is opaque.
#[verifier::external_body]
pub struct DependencyValue {
    inner: Box<dyn Any + Send + Sync>,
}

/// Boxes a value of any type with `Box::new`, so that it can stand in the
/// store beside values of other types. Nothing is claimed of the result.
#[verifier::external_body]
fn erase<T: Send + Sync + 'static>(value: T) -> (erased: DependencyValue) {
    DependencyValue { inner: Box::new(value) }
}

/// Calls `downcast_ref` of `dyn Any`, which gives the value back if it was
/// made from a `T`. Nothing is claimed of the result.
#[verifier::external_body]
fn downcast<T: 'static>(value: &DependencyValue) -> (found: Option<&T>) {
    value.inner.downcast_ref::<T>()
}

/// Calls `TypeId::of`, the identity of type `T`. Nothing is claimed of the
/// result.
#[verifier::external_body]
fn type_key<T: 'static>() -> (key: TypeId) {
    TypeId::of::<T>()
}

/// Compares two type identities with `==` of `TypeId`: they are equal exactly
/// when they are the same identity.
#[verifier::external_body]
fn same_key(a: &TypeId, b: &TypeId) -> (same: bool)
    ensures
        same == (*a == *b),
{
    a == b
}

impl DependencyValue {
    /// Forgets the type of `value`.
    pub fn new<T: Send + Sync + 'static>(value: T) -> (erased: Self) {
        erase(value)
    }

    /// The value, if it was made from a `T`.
    pub fn downcast_ref<T: 'static>(&self) -> (found: Option<&T>) {
        downcast::<T>(self)
    }
}

/// The entries as a map: each key with the value of the entry that holds it.
pub open spec fn store_of(entries: Seq<(TypeId, DependencyValue)>) -> Map<TypeId, DependencyValue> {
    Map::new(
        |k: TypeId| holds_key(entries, k),
        |k: TypeId| entries[position_of(entries, k)].1,
    )
}

/// Some entry is kept under `key`.
pub open spec fn holds_key(entries: Seq<(TypeId, DependencyValue)>, key: TypeId) -> bool {
    exists|i: int| 0 <= i < entries.len() && (#[trigger] entries[i]).0 == key
}

/// Where the entry under `key` stands.
pub open spec fn position_of(entries: Seq<(TypeId, DependencyValue)>, key: TypeId) -> int {
    choose|i: int| 0 <= i < entries.len() && (#[trigger] entries[i]).0 == key
}

/// No two entries share a key.
pub open spec fn distinct_keys(entries: Seq<(TypeId, DependencyValue)>) -> bool {
    forall|i: int, j: int|
        0 <= i < j < entries.len() ==> (#[trigger] entries[i]).0 != (#[trigger] entries[j]).0
}

/// An entry under a key that was not there extends the map by that key.
proof fn lemma_store_push(entries: Seq<(TypeId, DependencyValue)>, key: TypeId, value: DependencyValue)
    requires
        distinct_keys(entries),
        !holds_key(entries, key),
    ensures
        distinct_keys(entries.push((key, value))),
        store_of(entries.push((key, value))) == store_of(entries).insert(key, value),
{
    let after = entries.push((key, value));
    assert forall|i: int, j: int| 0 <= i < j < after.len() implies (#[trigger] after[i]).0 != (
    #[trigger] after[j]).0 by {
        if j == entries.len() {
            assert(after[i] == entries[i]);
        } else {
            assert(after[i] == entries[i] && after[j] == entries[j]);
        }
    }
    assert forall|k: TypeId| holds_key(after, k) <==> (k == key || holds_key(entries, k)) by {
        if holds_key(after, k) {
            let i = choose|i: int| 0 <= i < after.len() && (#[trigger] after[i]).0 == k;
            if i < entries.len() {
                assert(entries[i].0 == k);
            }
        }
        if holds_key(entries, k) {
            let i = choose|i: int| 0 <= i < entries.len() && (#[trigger] entries[i]).0 == k;
            assert(after[i].0 == k);
        }
        if k == key {
            assert(after[entries.len() as int].0 == k);
        }
    }
    assert forall|k: TypeId| holds_key(after, k) implies #[trigger] store_of(after)[k] == store_of(
        entries,
    ).insert(key, value)[k] by {
        let i = position_of(after, k);
        if k == key {
            if i < entries.len() {
                assert(entries[i].0 == key);
            }
        } else {
            let j = position_of(entries, k);
            assert(after[j].0 == k);
            if i < j {
                assert(after[i].0 != after[j].0);
            } else if j < i {
                assert(after[j].0 != after[i].0);
            }
        }
    }
    assert(store_of(after) =~= store_of(entries).insert(key, value));
}

/// A new value in the place of an entry changes the map at that entry's key.
proof fn lemma_store_update(entries: Seq<(TypeId, DependencyValue)>, at: int, value: DependencyValue)
    requires
        distinct_keys(entries),
        0 <= at < entries.len(),
    ensures
        distinct_keys(entries.update(at, (entries[at].0, value))),
        store_of(entries.update(at, (entries[at].0, value))) == store_of(entries).insert(
            entries[at].0,
            value,
        ),
{
    let key = entries[at].0;
    let after = entries.update(at, (key, value));
    assert forall|i: int| 0 <= i < entries.len() implies (#[trigger] after[i]).0 == entries[i].0 by {}
    assert forall|i: int, j: int| 0 <= i < j < after.len() implies (#[trigger] after[i]).0 != (
    #[trigger] after[j]).0 by {
        assert(entries[i].0 != entries[j].0);
    }
    assert forall|k: TypeId| holds_key(after, k) <==> holds_key(entries, k) by {
        if holds_key(after, k) {
            let i = choose|i: int| 0 <= i < after.len() && (#[trigger] after[i]).0 == k;
            assert(entries[i].0 == k);
        }
        if holds_key(entries, k) {
            let i = choose|i: int| 0 <= i < entries.len() && (#[trigger] entries[i]).0 == k;
            assert(after[i].0 == k);
        }
    }
    assert(holds_key(entries, key)) by {
        assert(entries[at].0 == key);
    }
    assert forall|k: TypeId| holds_key(after, k) implies #[trigger] store_of(after)[k] == store_of(
        entries,
    ).insert(key, value)[k] by {
        let i = position_of(after, k);
        assert(entries[i].0 == k);
        let j = position_of(entries, k);
        if i < j {
            assert(entries[i].0 != entries[j].0);
        } else if j < i {
            assert(entries[j].0 != entries[i].0);
        }
        if k == key {
            if i < at {
                assert(entries[i].0 != entries[at].0);
            } else if at < i {
                assert(entries[at].0 != entries[i].0);
            }
        } else {
            assert(i != at);
        }
    }
    assert(store_of(after) =~= store_of(entries).insert(key, value));
}

/// What a lookup under `key` owes: it reports a missing value exactly when
/// the store keeps nothing under `key`.
pub open spec fn looked_up<T>(
    store: Map<TypeId, DependencyValue>,
    key: TypeId,
    r: Result<T, DepsError>,
) -> bool {
    !store.contains_key(key) <==> r == Err::<T, DepsError>(DepsError::MissingDependency)
}

/// The store: at most one value under each type identity. What is inserted
/// stays until a later insertion under the same key takes its place.
pub struct Deps {
    entries: Vec<(TypeId, DependencyValue)>,
}

impl Deps {
    #[verifier::type_invariant]
    spec fn unique(self) -> bool {
        distinct_keys(self.entries@)
    }

    /// The store as a map from type identity to value.
    pub closed spec fn view(&self) -> Map<TypeId, DependencyValue> {
        store_of(self.entries@)
    }

    /// The store that holds nothing.
    pub fn new() -> (deps: Self)
        ensures
            deps@ == Map::<TypeId, DependencyValue>::empty(),
    {
        let deps = Deps { entries: Vec::new() };
        assert(deps@ =~= Map::<TypeId, DependencyValue>::empty());
        deps
    }

    /// The key under which a value of type `T` is kept: the identity of `T`.
    pub fn key_of<T: 'static>() -> (key: TypeId) {
        type_key::<T>()
    }

    /// Where the entry under `key` stands, if there is one.
    fn find(&self, key: &TypeId) -> (at: Option<usize>)
        ensures
            match at {
                Some(i) => i < self.entries@.len() && self.entries@[i as int].0 == *key,
                None => !holds_key(self.entries@, *key),
            },
    {
        let mut i: usize = 0;
        while i < self.entries.len()
            invariant
                i <= self.entries@.len(),
                forall|j: int| 0 <= j < i ==> (#[trigger] self.entries@[j]).0 != *key,
            decreases self.entries@.len() - i,
        {
            if same_key(&self.entries[i].0, key) {
                return Some(i);
            }
            i = i + 1;
        }
        None
    }

    /// How many values the store holds.
    pub fn len(&self) -> (n: usize)
        ensures
            n == self@.dom().len(),
            self@.dom().finite(),
    {
        proof {
            use_type_invariant(self);
            lemma_store_size(self.entries@);
        }
        self.entries.len()
    }

    /// Whether a value is kept under `key`.
    pub fn contains_key(&self, key: &TypeId) -> (found: bool)
        ensures
            found == self@.contains_key(*key),
    {
        self.find(key).is_some()
    }

    /// The value kept under `key`, if there is one.
    pub fn lookup(&self, key: &TypeId) -> (found: Option<&DependencyValue>)
        ensures
            match found {
                Some(value) => self@.contains_key(*key) && *value == self@[*key],
                None => !self@.contains_key(*key),
            },
    {
        proof {
            use_type_invariant(self);
        }
        match self.find(key) {
            Some(i) => {
                proof {
                    let j = position_of(self.entries@, *key);
                    assert(self.entries@[i as int].0 == *key);
                    if (i as int) < j {
                        assert(self.entries@[i as int].0 != self.entries@[j].0);
                    } else if j < i as int {
                        assert(self.entries@[j].0 != self.entries@[i as int].0);
                    }
                }
                Some(&self.entries[i].1)
            },
            None => None,
        }
    }

    /// The store with `value` under `key`.
    fn with(self, key: TypeId, value: DependencyValue) -> (deps: Self)
        ensures
            deps@ == self@.insert(key, value),
    {
        proof {
            use_type_invariant(&self);
        }
        let at = self.find(&key);
        let mut entries = self.entries;
        match at {
            Some(i) => {
                proof {
                    lemma_store_update(entries@, i as int, value);
                }
                entries.set(i, (key, value));
            },
            None => {
                proof {
                    lemma_store_push(entries@, key, value);
                }
                entries.push((key, value));
            },
        }
        Deps { entries }
    }

    /// Keeps `value` under `key`. A value that was kept under that key before
    /// gives way to the new one; every other entry stays as it is.
    pub fn insert(&mut self, key: TypeId, value: DependencyValue)
        ensures
            final(self)@ == old(self)@.insert(key, value),
    {
        let mut store = Deps::new();
        core::mem::swap(self, &mut store);
        *self = store.with(key, value);
    }

    /// Keeps `value` under the identity of its own type.
    pub fn insert_value<T: Send + Sync + 'static>(&mut self, value: T)
        ensures
            exists|key: TypeId, erased: DependencyValue|
                final(self)@ == #[trigger] old(self)@.insert(key, erased),
    {
        let key = Self::key_of::<T>();
        let erased = DependencyValue::new(value);
        self.insert(key, erased);
    }

    /// A clone of what the two downcasts found: of the value itself where it
    /// was stored as a `T`, else of what the box holds where it was stored as
    /// a boxed `T`. Where neither found anything, the stored value is of
    /// another type.
    pub fn pick<T: Clone>(plain: Option<&T>, boxed: Option<&Box<T>>) -> (r: Result<T, DepsError>)
        ensures
            match (plain, boxed) {
                (Some(value), _) => r is Ok && cloned(*value, r->Ok_0),
                (None, Some(inner)) => r is Ok && cloned(**inner, r->Ok_0),
                (None, None) => r == Err::<T, DepsError>(DepsError::TypeMismatch),
            },
    {
        match plain {
            Some(value) => Ok(value.clone()),
            None => match boxed {
                Some(inner) => {
                    let value: &T = &**inner;
                    Ok(value.clone())
                },
                None => Err(DepsError::TypeMismatch),
            },
        }
    }

    /// A clone of the value kept under `key`, read as a `T`. The lookup fails
    /// exactly when nothing is kept under `key`; a value that is there is
    /// downcast to `T` and to a boxed `T`, and `pick` decides on what the two
    /// downcasts found.
    pub fn get_keyed<T: Clone + 'static>(&self, key: &TypeId) -> (r: Result<T, DepsError>)
        ensures
            looked_up(self@, *key, r),
            r is Err ==> r->Err_0 == DepsError::MissingDependency || r->Err_0
                == DepsError::TypeMismatch,
    {
        match self.lookup(key) {
            None => Err(DepsError::MissingDependency),
            Some(value) => {
                let plain = value.downcast_ref::<T>();
                let boxed = value.downcast_ref::<Box<T>>();
                Self::pick(plain, boxed)
            },
        }
    }

    /// A clone of the value kept under the identity of `T`: what `get_keyed`
    /// gives for the key of `T`. Which key that is, the contract cannot say;
    /// it says what holds of the lookup under whatever key it is.
    pub fn get<T: Clone + 'static>(&self) -> (r: Result<T, DepsError>)
        ensures
            exists|key: TypeId| #[trigger] looked_up(self@, key, r),
            r is Err ==> r->Err_0 == DepsError::MissingDependency || r->Err_0
                == DepsError::TypeMismatch,
            self@.dom().len() == 0 ==> r == Err::<T, DepsError>(DepsError::MissingDependency),
    {
        let key = Self::key_of::<T>();
        proof {
            use_type_invariant(self);
            lemma_store_size(self.entries@);
            if self@.dom().len() == 0 {
                assert(!self@.dom().contains(key));
            }
        }
        let r = self.get_keyed::<T>(&key);
        assert(looked_up(self@, key, r));
        r
    }
}

/// A list of entries with distinct keys holds as many keys as entries.
proof fn lemma_store_size(entries: Seq<(TypeId, DependencyValue)>)
    requires
        distinct_keys(entries),
    ensures
        store_of(entries).dom().finite(),
        store_of(entries).dom().len() == entries.len(),
    decreases entries.len(),
{
    if entries.len() == 0 {
        assert(store_of(entries).dom() =~= Set::<TypeId>::empty());
    } else {
        let rest = entries.drop_last();
        let last = entries.last();
        assert forall|i: int, j: int| 0 <= i < j < rest.len() implies (#[trigger] rest[i]).0 != (
        #[trigger] rest[j]).0 by {
            assert(rest[i] == entries[i] && rest[j] == entries[j]);
        }
        lemma_store_size(rest);
        if holds_key(rest, last.0) {
            let i = choose|i: int| 0 <= i < rest.len() && (#[trigger] rest[i]).0 == last.0;
            assert(entries[i].0 != entries[entries.len() - 1].0);
            assert(rest[i] == entries[i]);
        }
        assert(entries =~= rest.push((last.0, last.1)));
        lemma_store_push(rest, last.0, last.1);
        assert(store_of(entries).dom() =~= store_of(rest).dom().insert(last.0));
    }
}

impl Default for Deps {
    fn default() -> (deps: Self)
        ensures
            deps@ == Map::<TypeId, DependencyValue>::empty(),
    {
        Deps::new()
    }
}

} // verus!
