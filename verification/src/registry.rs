//! The registry: the descriptors that were submitted before a build, the
//! synchronous ones apart from the asynchronous ones.

use vstd::prelude::*;

use crate::descriptor::{graph_of, ADepData, DepData, IDepData};
use crate::error::DepsError;
use crate::graph::Node;
use crate::text::{names_of, same_text};

verus! {

/// Some node of `g` is produced under `name`.
pub open spec fn produces(g: Seq<Node>, name: Seq<char>) -> bool {
    exists|i: int| 0 <= i < g.len() && (#[trigger] g[i]).name == name
}

/// Child `c` of synchronous node `i` names something that only an
/// asynchronous node produces.
pub open spec fn awaits_async(sync: Seq<Node>, asynchronous: Seq<Node>, i: int, c: int) -> bool {
    &&& 0 <= i < sync.len()
    &&& 0 <= c < sync[i].children.len()
    &&& produces(asynchronous, sync[i].children[c])
    &&& !produces(sync, sync[i].children[c])
}

/// Some synchronous node depends on something that only an asynchronous node
/// produces: its initializer would run before that value exists.
pub open spec fn asyncness_mismatch(sync: Seq<Node>, asynchronous: Seq<Node>) -> bool {
    exists|i: int, c: int| awaits_async(sync, asynchronous, i, c)
}

/// Whether one of the descriptors is named `name`.
pub fn produces_name<DP: IDepData>(items: &Vec<DP>, name: &str) -> (found: bool)
    ensures
        found == produces(graph_of(items@), name@),
{
    let mut i: usize = 0;
    while i < items.len()
        invariant
            i <= items@.len(),
            forall|j: int| 0 <= j < i ==> (#[trigger] graph_of(items@)[j]).name != name@,
        decreases items@.len() - i,
    {
        if same_text(items[i].name(), name) {
            assert(graph_of(items@)[i as int].name == name@);
            return true;
        }
        i = i + 1;
    }
    false
}

/// Rejects a registry in which a synchronous descriptor depends on something
/// that only an asynchronous descriptor produces.
pub fn check_asyncness<S: IDepData, T: IDepData>(sync: &Vec<S>, asynchronous: &Vec<T>) -> (r: Result<
    (),
    DepsError,
>)
    ensures
        r is Err <==> asyncness_mismatch(graph_of(sync@), graph_of(asynchronous@)),
        r is Err ==> r == Err::<(), DepsError>(DepsError::AsyncnessMismatch),
{
    let ghost g = graph_of(sync@);
    let ghost h = graph_of(asynchronous@);
    let mut i: usize = 0;
    while i < sync.len()
        invariant
            i <= sync@.len(),
            g == graph_of(sync@),
            h == graph_of(asynchronous@),
            forall|a: int, c: int| 0 <= a < i ==> !awaits_async(g, h, a, c),
        decreases sync@.len() - i,
    {
        let children = sync[i].children();
        assert(names_of(children@) == g[i as int].children);
        let mut c: usize = 0;
        while c < children.len()
            invariant
                i < sync@.len(),
                c <= children@.len(),
                g == graph_of(sync@),
                h == graph_of(asynchronous@),
                names_of(children@) == g[i as int].children,
                forall|b: int| 0 <= b < c ==> !awaits_async(g, h, i as int, b),
            decreases children@.len() - c,
        {
            let child = children[c];
            assert(child@ == g[i as int].children[c as int]);
            if produces_name(asynchronous, child) && !produces_name(sync, child) {
                assert(awaits_async(g, h, i as int, c as int));
                return Err(DepsError::AsyncnessMismatch);
            }
            c = c + 1;
        }
        i = i + 1;
    }
    Ok(())
}

/// The descriptors submitted so far. Descriptors are only ever added; a build
/// takes the registry as it stands.
pub struct Registry<I, A> {
    sync: Vec<DepData<I>>,
    asynchronous: Vec<ADepData<A>>,
}

impl<I, A> Registry<I, A> {
    /// The synchronous descriptors, in the order of their submission.
    pub closed spec fn descriptors(&self) -> Seq<DepData<I>> {
        self.sync@
    }

    /// The asynchronous descriptors, in the order of their submission.
    pub closed spec fn async_descriptors(&self) -> Seq<ADepData<A>> {
        self.asynchronous@
    }

    /// A registry without descriptors.
    pub fn new() -> (registry: Self)
        ensures
            registry.descriptors() == Seq::<DepData<I>>::empty(),
            registry.async_descriptors() == Seq::<ADepData<A>>::empty(),
    {
        Registry { sync: Vec::new(), asynchronous: Vec::new() }
    }

    /// Adds a synchronous descriptor.
    pub fn submit(&mut self, descriptor: DepData<I>)
        ensures
            final(self).descriptors() == old(self).descriptors().push(descriptor),
            final(self).async_descriptors() == old(self).async_descriptors(),
    {
        self.sync.push(descriptor);
    }

    /// Adds an asynchronous descriptor.
    pub fn submit_async(&mut self, descriptor: ADepData<A>)
        ensures
            final(self).descriptors() == old(self).descriptors(),
            final(self).async_descriptors() == old(self).async_descriptors().push(descriptor),
    {
        self.asynchronous.push(descriptor);
    }

    /// How many synchronous descriptors were submitted.
    pub fn len(&self) -> (n: usize)
        ensures
            n == self.descriptors().len(),
    {
        self.sync.len()
    }

    /// How many asynchronous descriptors were submitted.
    pub fn async_len(&self) -> (n: usize)
        ensures
            n == self.async_descriptors().len(),
    {
        self.asynchronous.len()
    }

    /// Whether no synchronous descriptor depends on something that only an
    /// asynchronous descriptor produces.
    pub fn check(&self) -> (r: Result<(), DepsError>)
        ensures
            r is Err <==> asyncness_mismatch(
                graph_of(self.descriptors()),
                graph_of(self.async_descriptors()),
            ),
            r is Err ==> r == Err::<(), DepsError>(DepsError::AsyncnessMismatch),
    {
        check_asyncness(&self.sync, &self.asynchronous)
    }

    /// Ends the registration and hands out the two lists of descriptors.
    pub fn into_parts(self) -> (parts: (Vec<DepData<I>>, Vec<ADepData<A>>))
        ensures
            parts.0@ == self.descriptors(),
            parts.1@ == self.async_descriptors(),
    {
        (self.sync, self.asynchronous)
    }
}

} // verus!
