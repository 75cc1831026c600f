//! Dependency descriptors: what the registering side tells the library about
//! each value that can be produced.

use std::any::TypeId;
use vstd::prelude::*;

use crate::graph::Node;
use crate::text::names_of;

verus! {

/// The identity of a type at run time. The library only carries it and asks
/// whether two of them are the same.
#[verifier::external_type_specification]
#[verifier::external_body]
pub struct ExTypeId(TypeId);

/// Marks a type as available to the components of context `T`.
pub trait Dep<T>: Clone {
}

/// Marks a type as supplied by context `T` itself.
pub trait SharedDep<T>: Dep<T> {
}

/// Marks a type as produced by a descriptor.
pub trait AutowiredDep: Clone {
}

/// Marks a type as produced by an asynchronous descriptor.
pub trait AsyncAutowiredDep: Clone {
}

/// What the sorter asks of a descriptor: its name and the names it depends on.
pub trait IDepData {
    /// The descriptor as a node of the dependency graph.
    spec fn node(&self) -> Node;

    /// The name under which the produced type is known.
    fn name(&self) -> (name: &'static str)
        ensures
            name@ == self.node().name,
    ;

    /// The names of the types that the initializer reads from the store.
    fn children(&self) -> (children: &'static [&'static str])
        ensures
            names_of(children@) == self.node().children,
    ;
}

/// The dependency graph of a list of descriptors: node `i` is descriptor `i`.
pub open spec fn graph_of<DP: IDepData>(items: Seq<DP>) -> Seq<Node> {
    Seq::new(items.len(), |i: int| items[i].node())
}

/// A descriptor whose initializer returns its value at once.
#[derive(Debug)]
pub struct DepData<I> {
    /// Names the produced type in the children of other descriptors.
    pub name: &'static str,
    /// The names of the types that the initializer reads from the store.
    pub children: &'static [&'static str],
    /// The key under which the produced value is stored.
    pub type_id: TypeId,
    /// Produces the value from the store built so far.
    pub initializer: I,
}

/// A descriptor whose initializer has to be awaited.
#[derive(Debug)]
pub struct ADepData<A> {
    /// Names the produced type in the children of other descriptors.
    pub name: &'static str,
    /// The names of the types that the initializer reads from the store.
    pub children: &'static [&'static str],
    /// The key under which the produced value is stored.
    pub type_id: TypeId,
    /// Starts producing the value from the store built so far.
    pub initializer: A,
}

impl<I> IDepData for DepData<I> {
    open spec fn node(&self) -> Node {
        Node { name: self.name@, children: names_of(self.children@) }
    }

    fn name(&self) -> (name: &'static str) {
        self.name
    }

    fn children(&self) -> (children: &'static [&'static str]) {
        self.children
    }
}

impl<A> IDepData for ADepData<A> {
    open spec fn node(&self) -> Node {
        Node { name: self.name@, children: names_of(self.children@) }
    }

    fn name(&self) -> (name: &'static str) {
        self.name
    }

    fn children(&self) -> (children: &'static [&'static str]) {
        self.children
    }
}

} // verus!
