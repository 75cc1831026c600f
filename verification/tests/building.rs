use std::sync::atomic::{AtomicUsize, Ordering};
use std::sync::{Arc, Mutex};

use autowired::{
    ADepData, AsyncBuild, DepData, DependencyValue, Deps, DepsBuilder, DepsError, Provider, Registry, TypeId,
};

type Init = fn(&Deps) -> Result<DependencyValue, DepsError>;

type Log = Arc<Mutex<Vec<&'static str>>>;

#[derive(Clone, Debug, PartialEq)]
struct Counter(usize);

#[derive(Clone, Debug)]
struct C {
    token: Arc<()>,
}

#[derive(Clone, Debug)]
struct B {
    c: C,
}

#[derive(Clone, Debug)]
struct A {
    b: B,
    c: C,
}

#[derive(Clone, Debug, PartialEq)]
struct X(u32);

#[derive(Clone, Debug, PartialEq)]
struct Y(u32);

#[derive(Clone, Debug, PartialEq)]
struct Doubled(usize);

fn note(deps: &Deps, name: &'static str) {
    if let Ok(log) = deps.get::<Log>() {
        log.lock().unwrap().push(name);
    }
}

fn init_c(deps: &Deps) -> Result<DependencyValue, DepsError> {
    note(deps, "C");
    Ok(DependencyValue::new(C { token: Arc::new(()) }))
}

fn init_b(deps: &Deps) -> Result<DependencyValue, DepsError> {
    note(deps, "B");
    Ok(DependencyValue::new(B { c: deps.get()? }))
}

fn init_a(deps: &Deps) -> Result<DependencyValue, DepsError> {
    note(deps, "A");
    Ok(DependencyValue::new(Box::new(A { b: deps.get()?, c: deps.get()? })))
}

fn init_x(deps: &Deps) -> Result<DependencyValue, DepsError> {
    note(deps, "X");
    Ok(DependencyValue::new(X(7)))
}

fn init_y(deps: &Deps) -> Result<DependencyValue, DepsError> {
    note(deps, "Y");
    let x: X = deps.get()?;
    Ok(DependencyValue::new(Y(x.0 + 1)))
}

fn init_doubled(deps: &Deps) -> Result<DependencyValue, DepsError> {
    let counter: Counter = deps.get()?;
    Ok(DependencyValue::new(Doubled(counter.0 * 2)))
}

fn init_counted(deps: &Deps) -> Result<DependencyValue, DepsError> {
    let runs: Arc<AtomicUsize> = deps.get()?;
    runs.fetch_add(1, Ordering::SeqCst);
    Ok(DependencyValue::new(X(1)))
}

fn init_wrong_type(_deps: &Deps) -> Result<DependencyValue, DepsError> {
    Ok(DependencyValue::new(Y(0)))
}

fn sync<T: 'static>(name: &'static str, children: &'static [&'static str], initializer: Init) -> DepData<Init> {
    DepData { name, children, type_id: TypeId::of::<T>(), initializer }
}

fn asynchronous<T: 'static>(
    name: &'static str,
    children: &'static [&'static str],
    initializer: Init,
) -> ADepData<Init> {
    ADepData { name, children, type_id: TypeId::of::<T>(), initializer }
}

fn abc() -> Registry<Init, Init> {
    let mut registry = Registry::new();
    registry.submit(sync::<A>("A", &["B", "C"], init_a));
    registry.submit(sync::<B>("B", &["C"], init_b));
    registry.submit(sync::<C>("C", &[], init_c));
    registry
}

fn logged() -> (Deps, Log) {
    let log: Log = Arc::new(Mutex::new(Vec::new()));
    let mut seeds = Deps::new();
    seeds.insert_value(log.clone());
    (seeds, log)
}

fn drive(mut build: AsyncBuild<Init>) -> Result<Deps, DepsError> {
    while let Some(descriptor) = build.current() {
        let value = (descriptor.initializer)(build.deps())?;
        assert!(build.resolve(value));
    }
    Ok(build.finish().unwrap())
}

#[test]
fn build_constructs_each_value_after_its_dependencies() {
    let (seeds, log) = logged();
    let deps = DepsBuilder::new(seeds).build(abc()).unwrap();
    assert_eq!(*log.lock().unwrap(), vec!["C", "B", "A"]);
    assert_eq!(deps.len(), 4);
    let provider: Provider<()> = Provider::new(deps);
    let a: A = provider.provide().unwrap();
    assert!(Arc::ptr_eq(&a.b.c.token, &a.c.token));
    let c: C = provider.provide().unwrap();
    assert!(Arc::ptr_eq(&c.token, &a.c.token));
    assert!(Arc::strong_count(&c.token) >= 4);
}

#[test]
fn build_from_empty_seeds_and_an_empty_registry_is_empty() {
    let registry: Registry<Init, Init> = Registry::new();
    assert_eq!(registry.len(), 0);
    assert_eq!(registry.async_len(), 0);
    let deps = DepsBuilder::new(Deps::new()).build(registry).unwrap();
    assert_eq!(deps.len(), 0);
}

#[test]
fn build_fails_when_a_dependency_is_missing() {
    let mut registry: Registry<Init, Init> = Registry::new();
    registry.submit(sync::<B>("B", &["C"], init_b));
    let r = DepsBuilder::new(Deps::new()).build(registry);
    assert_eq!(r.err(), Some(DepsError::MissingDependency));
}

#[test]
fn build_hands_the_seed_to_the_initializer_unchanged() {
    let mut seeds = Deps::new();
    seeds.insert_value(Counter(42));
    let mut registry: Registry<Init, Init> = Registry::new();
    registry.submit(sync::<Doubled>("Doubled", &["Counter"], init_doubled));
    registry.submit(sync::<X>("X", &[], init_x));
    let deps = DepsBuilder::new(seeds).build(registry).unwrap();
    assert_eq!(deps.get::<Doubled>(), Ok(Doubled(84)));
    assert_eq!(deps.get::<Counter>(), Ok(Counter(42)));
    assert_eq!(deps.get::<X>(), Ok(X(7)));
}

#[test]
fn build_fails_on_a_cycle_before_any_initializer_runs() {
    let runs = Arc::new(AtomicUsize::new(0));
    let mut seeds = Deps::new();
    seeds.insert_value(runs.clone());
    let mut registry: Registry<Init, Init> = Registry::new();
    registry.submit(sync::<X>("free", &[], init_counted));
    registry.submit(sync::<A>("A", &["B"], init_counted));
    registry.submit(sync::<B>("B", &["A"], init_counted));
    let r = DepsBuilder::new(seeds).build(registry);
    assert_eq!(r.err(), Some(DepsError::CyclicDependency));
    assert_eq!(runs.load(Ordering::SeqCst), 0);
}

#[test]
fn build_reports_a_value_of_the_wrong_type() {
    let mut registry: Registry<Init, Init> = Registry::new();
    registry.submit(sync::<X>("X", &[], init_wrong_type));
    registry.submit(sync::<Y>("Y", &["X"], init_y));
    let r = DepsBuilder::new(Deps::new()).build(registry);
    assert_eq!(r.err(), Some(DepsError::TypeMismatch));
}

#[test]
fn build_rejects_a_synchronous_descriptor_that_needs_an_asynchronous_one() {
    let runs = Arc::new(AtomicUsize::new(0));
    let mut seeds = Deps::new();
    seeds.insert_value(runs.clone());
    let mut registry: Registry<Init, Init> = Registry::new();
    registry.submit(sync::<X>("X", &["Y"], init_counted));
    registry.submit_async(asynchronous::<Y>("Y", &[], init_y));
    assert_eq!(registry.check(), Err(DepsError::AsyncnessMismatch));
    let r = DepsBuilder::new(seeds).build(registry);
    assert_eq!(r.err(), Some(DepsError::AsyncnessMismatch));
    assert_eq!(runs.load(Ordering::SeqCst), 0);
}

#[test]
fn asyncness_is_checked_before_cycles() {
    let mut registry: Registry<Init, Init> = Registry::new();
    registry.submit(sync::<A>("A", &["B", "Y"], init_a));
    registry.submit(sync::<B>("B", &["A"], init_b));
    registry.submit_async(asynchronous::<Y>("Y", &[], init_y));
    let r = DepsBuilder::new(Deps::new()).begin_async(registry);
    assert_eq!(r.err(), Some(DepsError::AsyncnessMismatch));
}

#[test]
fn a_name_that_a_synchronous_descriptor_produces_too_is_no_mismatch() {
    let mut registry: Registry<Init, Init> = Registry::new();
    registry.submit(sync::<X>("X", &[], init_x));
    registry.submit(sync::<Y>("Y", &["X"], init_y));
    registry.submit_async(asynchronous::<X>("X", &[], init_x));
    assert_eq!(registry.check(), Ok(()));
    let deps = DepsBuilder::new(Deps::new()).build(registry).unwrap();
    assert_eq!(deps.get::<Y>(), Ok(Y(8)));
}

#[test]
fn an_asynchronous_descriptor_may_need_a_synchronous_one() {
    let mut registry: Registry<Init, Init> = Registry::new();
    registry.submit(sync::<X>("X", &[], init_x));
    registry.submit_async(asynchronous::<Y>("Y", &["X"], init_y));
    assert_eq!(registry.check(), Ok(()));
}

#[test]
fn the_synchronous_phase_is_over_before_anything_is_awaited() {
    let (seeds, log) = logged();
    let mut registry: Registry<Init, Init> = Registry::new();
    registry.submit_async(asynchronous::<Y>("Y", &["X"], init_y));
    registry.submit(sync::<X>("X", &[], init_x));
    let mut build = DepsBuilder::new(seeds).begin_async(registry).unwrap();
    assert_eq!(*log.lock().unwrap(), vec!["X"]);
    assert_eq!(build.deps().get::<X>(), Ok(X(7)));
    assert_eq!(build.deps().get::<Y>(), Err(DepsError::MissingDependency));
    assert!(!build.is_complete());
    let descriptor = build.current().unwrap();
    assert_eq!(descriptor.name, "Y");
    let value = (descriptor.initializer)(build.deps()).unwrap();
    assert!(build.resolve(value));
    assert!(build.is_complete());
    assert!(build.current().is_none());
    let deps = build.finish().unwrap();
    assert_eq!(*log.lock().unwrap(), vec!["X", "Y"]);
    assert_eq!(deps.get::<Y>(), Ok(Y(8)));
    assert_eq!(deps.get::<X>(), Ok(X(7)));
}

#[test]
fn the_asynchronous_descriptors_are_awaited_in_their_own_order() {
    let (seeds, log) = logged();
    let mut registry: Registry<Init, Init> = Registry::new();
    registry.submit_async(asynchronous::<A>("A", &["B", "C"], init_a));
    registry.submit_async(asynchronous::<B>("B", &["C"], init_b));
    registry.submit_async(asynchronous::<C>("C", &[], init_c));
    registry.submit(sync::<X>("X", &[], init_x));
    let build = DepsBuilder::new(seeds).begin_async(registry).unwrap();
    let deps = drive(build).unwrap();
    assert_eq!(*log.lock().unwrap(), vec!["X", "C", "B", "A"]);
    let a: A = deps.get().unwrap();
    assert!(Arc::ptr_eq(&a.b.c.token, &a.c.token));
}

#[test]
fn a_cycle_among_the_asynchronous_descriptors_shows_after_the_synchronous_phase() {
    let (seeds, log) = logged();
    let mut registry: Registry<Init, Init> = Registry::new();
    registry.submit(sync::<X>("X", &[], init_x));
    registry.submit_async(asynchronous::<A>("A", &["B"], init_a));
    registry.submit_async(asynchronous::<B>("B", &["A"], init_b));
    let r = DepsBuilder::new(seeds).begin_async(registry);
    assert_eq!(r.err(), Some(DepsError::CyclicDependency));
    assert_eq!(*log.lock().unwrap(), vec!["X"]);
}

#[test]
fn a_failing_synchronous_phase_ends_the_asynchronous_build() {
    let mut registry: Registry<Init, Init> = Registry::new();
    registry.submit(sync::<B>("B", &["C"], init_b));
    registry.submit_async(asynchronous::<Y>("Y", &[], init_x));
    let r = DepsBuilder::new(Deps::new()).begin_async(registry);
    assert_eq!(r.err(), Some(DepsError::MissingDependency));
}

#[test]
fn a_build_that_is_not_complete_hands_out_no_store() {
    let mut registry: Registry<Init, Init> = Registry::new();
    registry.submit_async(asynchronous::<X>("X", &[], init_x));
    registry.submit_async(asynchronous::<Y>("Y", &["X"], init_y));
    let mut build = DepsBuilder::new(Deps::new()).begin_async(registry).unwrap();
    let value = (build.current().unwrap().initializer)(build.deps()).unwrap();
    assert!(build.resolve(value));
    assert!(!build.is_complete());
    assert!(build.finish().is_none());
}

#[test]
fn a_complete_build_takes_no_further_value() {
    let registry: Registry<Init, Init> = Registry::new();
    let mut build = DepsBuilder::new(Deps::new()).begin_async(registry).unwrap();
    assert!(build.is_complete());
    assert!(!build.resolve(DependencyValue::new(X(1))));
    let deps = build.finish().unwrap();
    assert_eq!(deps.len(), 0);
    assert_eq!(deps.get::<X>(), Err(DepsError::MissingDependency));
}

#[test]
fn resolve_keeps_the_value_under_the_key_of_the_current_descriptor() {
    let mut registry: Registry<Init, Init> = Registry::new();
    registry.submit_async(asynchronous::<X>("X", &[], init_x));
    let mut build = DepsBuilder::new(Deps::new()).begin_async(registry).unwrap();
    assert!(build.resolve(DependencyValue::new(X(99))));
    let deps = build.finish().unwrap();
    assert!(deps.contains_key(&TypeId::of::<X>()));
    assert_eq!(deps.get::<X>(), Ok(X(99)));
}
