//! Dependency injection by construction order: descriptors say what each
//! component needs, the sorter orders them so that every component is built
//! after its dependencies, and the builder runs the initializers in that
//! order against a store keyed by type.

pub mod deps;
pub mod deps_builder;
pub mod descriptor;
pub mod error;
pub mod graph;
pub mod graph_sorter;
pub mod provider;
pub mod registry;
pub mod text;

pub use crate::deps::{DependencyValue, Deps};
pub use crate::deps_builder::{AsyncBuild, DepsBuilder};
pub use crate::descriptor::{ADepData, AsyncAutowiredDep, AutowiredDep, Dep, DepData, IDepData, SharedDep};
pub use crate::error::DepsError;
pub use crate::graph_sorter::{GraphSorter, Mark, Sorter};
pub use crate::provider::Provider;
pub use crate::registry::Registry;
pub use std::any::TypeId;
