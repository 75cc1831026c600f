//! The provider: a finished store, which can only be read.

use std::any::TypeId;
use std::marker::PhantomData;
use vstd::prelude::*;

use crate::deps::{looked_up, DependencyValue, Deps};
use crate::error::DepsError;

verus! {

/// The read-only handle to the store that a build of context `C` completed.
pub struct Provider<C: ?Sized> {
    deps: Deps,
    _pd: PhantomData<C>,
}

impl<C: ?Sized> Provider<C> {
    /// The store behind the provider, as a map from type identity to value.
    pub closed spec fn view(&self) -> Map<TypeId, DependencyValue> {
        self.deps@
    }

    /// Wraps a completed store.
    pub fn new(deps: Deps) -> (provider: Self)
        ensures
            provider@ == deps@,
    {
        Provider { deps, _pd: PhantomData }
    }

    /// A clone of the value kept under `key`, read as a `T`: what the store's
    /// `get_keyed` gives.
    pub fn provide_keyed<T: Clone + 'static>(&self, key: &TypeId) -> (r: Result<T, DepsError>)
        ensures
            looked_up(self@, *key, r),
            r is Err ==> r->Err_0 == DepsError::MissingDependency || r->Err_0
                == DepsError::TypeMismatch,
    {
        self.deps.get_keyed::<T>(key)
    }

    /// A clone of the value kept under the identity of `T`: what the store's
    /// `get` gives.
    pub fn provide<T: Clone + 'static>(&self) -> (r: Result<T, DepsError>)
        ensures
            exists|key: TypeId| #[trigger] looked_up(self@, key, r),
            r is Err ==> r->Err_0 == DepsError::MissingDependency || r->Err_0
                == DepsError::TypeMismatch,
            self@.dom().len() == 0 ==> r == Err::<T, DepsError>(DepsError::MissingDependency),
    {
        let r = self.deps.get::<T>();
        proof {
            let key = choose|key: TypeId| #[trigger] looked_up(self.deps@, key, r);
            assert(looked_up(self@, key, r));
        }
        r
    }
}

} // verus!
