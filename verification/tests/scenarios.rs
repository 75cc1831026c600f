use std::sync::Arc;

use autowired::{ADepData, DepData, DependencyValue, Deps, DepsBuilder, DepsError, Provider, Registry, TypeId};

type Init = fn(&Deps) -> Result<DependencyValue, DepsError>;

#[derive(Debug, Clone)]
struct A {
    b: B,
    c: C,
}

#[derive(Debug, Clone)]
struct B {
    c: C,
}

#[derive(Debug, Clone)]
struct C {}

#[derive(Debug, Clone)]
struct AsyncParent {
    a: A,
}

#[derive(Debug, Clone)]
struct Counted {
    b: B,
    c: C,
    counter: Arc<usize>,
}

#[derive(Debug, Clone)]
struct CountedParent {
    a: Counted,
}

#[derive(Clone)]
struct AutowiredString(Arc<String>);

#[derive(Clone)]
struct Injected {
    provided: AutowiredString,
    shared: Arc<usize>,
    injected: usize,
}

struct ProviderContext {}

struct Ctx {
    shared: Arc<usize>,
}

fn b(c: C) -> B {
    B { c }
}

fn c() -> C {
    C {}
}

fn async_parent(a: A) -> AsyncParent {
    AsyncParent { a }
}

fn counted_parent(a: Counted) -> CountedParent {
    CountedParent { a }
}

fn stateful() -> usize {
    println!("stateful call...");
    0
}

fn provide_string() -> AutowiredString {
    AutowiredString(Arc::new("".into()))
}

fn initialize_a(deps: &Deps) -> Result<DependencyValue, DepsError> {
    Ok(DependencyValue::new(Box::new(A { b: deps.get()?, c: deps.get()? })))
}

fn initialize_b(deps: &Deps) -> Result<DependencyValue, DepsError> {
    Ok(DependencyValue::new(b(deps.get()?)))
}

fn initialize_c(_deps: &Deps) -> Result<DependencyValue, DepsError> {
    Ok(DependencyValue::new(c()))
}

fn initialize_async_parent(deps: &Deps) -> Result<DependencyValue, DepsError> {
    Ok(DependencyValue::new(async_parent(deps.get()?)))
}

fn initialize_counted(deps: &Deps) -> Result<DependencyValue, DepsError> {
    Ok(DependencyValue::new(Box::new(Counted { b: deps.get()?, c: deps.get()?, counter: deps.get()? })))
}

fn initialize_counted_parent(deps: &Deps) -> Result<DependencyValue, DepsError> {
    Ok(DependencyValue::new(counted_parent(deps.get()?)))
}

fn initialize_string(_deps: &Deps) -> Result<DependencyValue, DepsError> {
    Ok(DependencyValue::new(provide_string()))
}

fn initialize_injected(deps: &Deps) -> Result<DependencyValue, DepsError> {
    Ok(DependencyValue::new(Box::new(Injected {
        provided: deps.get()?,
        shared: deps.get()?,
        injected: stateful(),
    })))
}

fn plain_registry() -> Registry<Init, Init> {
    let mut registry = Registry::new();
    registry.submit(DepData {
        name: "A",
        children: &["B", "C"],
        type_id: TypeId::of::<A>(),
        initializer: initialize_a as Init,
    });
    registry.submit(DepData { name: "B", children: &["C"], type_id: TypeId::of::<B>(), initializer: initialize_b as Init });
    registry.submit(DepData { name: "C", children: &[], type_id: TypeId::of::<C>(), initializer: initialize_c as Init });
    registry.submit_async(ADepData {
        name: "AsyncParent",
        children: &["A"],
        type_id: TypeId::of::<AsyncParent>(),
        initializer: initialize_async_parent as Init,
    });
    registry
}

fn counted_registry() -> Registry<Init, Init> {
    let mut registry = Registry::new();
    registry.submit(DepData {
        name: "A",
        children: &["B", "C", "Arc<usize>"],
        type_id: TypeId::of::<Counted>(),
        initializer: initialize_counted as Init,
    });
    registry.submit(DepData { name: "B", children: &["C"], type_id: TypeId::of::<B>(), initializer: initialize_b as Init });
    registry.submit(DepData { name: "C", children: &[], type_id: TypeId::of::<C>(), initializer: initialize_c as Init });
    registry.submit_async(ADepData {
        name: "AsyncParent",
        children: &["A"],
        type_id: TypeId::of::<CountedParent>(),
        initializer: initialize_counted_parent as Init,
    });
    registry
}

fn provider_of(_context: &ProviderContext) -> Provider<ProviderContext> {
    Provider::new(DepsBuilder::new(Deps::new()).build(plain_registry()).unwrap())
}

fn async_provider_of(_context: &ProviderContext) -> Provider<ProviderContext> {
    let mut build = DepsBuilder::new(Deps::new()).begin_async(plain_registry()).unwrap();
    while let Some(descriptor) = build.current() {
        let value = (descriptor.initializer)(build.deps()).unwrap();
        build.resolve(value);
    }
    Provider::new(build.finish().unwrap())
}

fn counted_seeds() -> Deps {
    let mut seeds = Deps::new();
    seeds.insert_value(Arc::new(0usize));
    seeds
}

#[test]
fn test1_test_1() {
    let p = provider_of(&ProviderContext {});

    let a = p.provide::<A>().unwrap();

    println!("{:?}", a);
}

#[test]
fn test1_test_2() {
    let p = async_provider_of(&ProviderContext {});

    let parent = p.provide::<AsyncParent>().unwrap();
    let a = p.provide::<A>().unwrap();

    println!("{:?}", parent);
    println!("{:?}", a);
}

#[test]
fn test_1_test_1() {
    let p: Provider<()> = Provider::new(DepsBuilder::new(counted_seeds()).build(counted_registry()).unwrap());

    let a = p.provide::<Counted>().unwrap();

    println!("{:?}", a);
    assert_eq!(*a.counter, 0);
}

#[test]
fn test_1_test_2() {
    let mut build = DepsBuilder::new(counted_seeds()).begin_async(counted_registry()).unwrap();
    while let Some(descriptor) = build.current() {
        let value = (descriptor.initializer)(build.deps()).unwrap();
        build.resolve(value);
    }
    let p: Provider<()> = Provider::new(build.finish().unwrap());

    let parent = p.provide::<CountedParent>().unwrap();

    println!("{:?}", parent);
    assert_eq!(*parent.a.counter, 0);
}

#[test]
fn a_synchronous_build_leaves_the_asynchronous_descriptors_alone() {
    let p = provider_of(&ProviderContext {});
    assert!(p.provide::<A>().is_ok());
    assert_eq!(p.provide::<AsyncParent>().err(), Some(DepsError::MissingDependency));
}

#[test]
fn an_injected_field_is_filled_without_the_store() {
    let context = Ctx { shared: Arc::new(0) };
    let mut seeds = Deps::new();
    seeds.insert_value(context.shared.clone());
    let mut registry: Registry<Init, Init> = Registry::new();
    registry.submit(DepData {
        name: "A",
        children: &["AutowiredString", "Arc<usize>", "usize"],
        type_id: TypeId::of::<Injected>(),
        initializer: initialize_injected as Init,
    });
    registry.submit(DepData {
        name: "AutowiredString",
        children: &[],
        type_id: TypeId::of::<AutowiredString>(),
        initializer: initialize_string as Init,
    });
    let p: Provider<Ctx> = Provider::new(DepsBuilder::new(seeds).build(registry).unwrap());

    let a = p.provide::<Injected>().unwrap();
    let a2 = p.provide::<Injected>().unwrap();

    println!("{}", a.injected);
    assert_eq!(a.injected, 0);
    assert_eq!(a2.injected, 0);
    assert!(Arc::ptr_eq(&a.shared, &context.shared));
    assert!(Arc::ptr_eq(&a.provided.0, &a2.provided.0));
    assert_eq!(*a.provided.0, "");
}
