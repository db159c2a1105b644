//! Registrations of node factories by name.
use std::sync::Arc;

use cognet::FactoryRegistry;

/// What a registration carries here: a factory that builds a probe value.
struct Entry {
    factory: Arc<dyn Fn() -> Result<u32, String> + Send + Sync>,
    default_data: Option<u32>,
}

fn probe_factory() -> Entry {
    Entry { factory: Arc::new(|| Ok(7)), default_data: None }
}

#[test]
fn register_factory_with_name_owned_inserts_runtime_name() {
    let mut nm: FactoryRegistry<Entry> = FactoryRegistry::new();
    nm.register_factory_with_name_owned("VariantFactory_x_runtime".to_string(), probe_factory());
    assert!(nm.has_factory("VariantFactory_x_runtime"));
    assert!(nm.factory_meta_by_name("VariantFactory_x_runtime").is_some());
}

#[test]
fn register_factory_with_name_owned_does_not_releak_on_replace() {
    let mut nm: FactoryRegistry<Entry> = FactoryRegistry::new();
    nm.register_factory_with_name_owned("Foo".to_string(), probe_factory());
    let names_after_first = nm.registered_names().len();
    nm.register_factory_with_name_owned("Foo".to_string(), probe_factory());
    assert_eq!(nm.registered_names().len(), names_after_first);
}

#[test]
fn unregister_factory_by_name_returns_entry_and_removes() {
    let mut nm: FactoryRegistry<Entry> = FactoryRegistry::new();
    nm.register_factory_with_name_owned("Bar".to_string(), probe_factory());
    let removed = nm.unregister_factory_by_name("Bar");
    assert!(removed.is_some());
    assert!(!nm.has_factory("Bar"));
}

#[test]
fn restore_factory_registration_only_succeeds_for_known_name() {
    let mut nm: FactoryRegistry<Entry> = FactoryRegistry::new();
    nm.register_factory_with_name_owned("Baz".to_string(), probe_factory());
    let entry = nm.unregister_factory_by_name("Baz").expect("removed entry");
    assert!(nm.restore_factory_registration("Baz", entry).is_ok());
    assert!(nm.has_factory("Baz"));
}

#[test]
fn restore_factory_registration_rejects_unknown_name() {
    let mut nm: FactoryRegistry<Entry> = FactoryRegistry::new();
    let entry = probe_factory();
    let err = nm.restore_factory_registration("never_registered", entry).err();
    assert!(err.is_some(), "restore must reject unknown name");
}

#[test]
fn a_static_name_taken_out_cannot_be_put_back() {
    let mut nm: FactoryRegistry<Entry> = FactoryRegistry::new();
    nm.register_factory_with_name("Static", probe_factory());
    let entry = nm.unregister_factory_by_name("Static").expect("removed entry");
    let refused = nm.restore_factory_registration("Static", entry);
    assert!(refused.is_err());
    assert!(!nm.is_registered("Static"));
}

#[test]
fn restoring_a_live_name_replaces_its_entry() {
    let mut nm: FactoryRegistry<Entry> = FactoryRegistry::new();
    nm.register_factory_with_name("Live", probe_factory());
    let replacement = Entry { factory: Arc::new(|| Ok(9)), default_data: Some(1) };
    assert!(nm.restore_factory_registration("Live", replacement).is_ok());
    let meta = nm.factory_meta_by_name("Live").expect("registered");
    assert_eq!(meta.default_data, Some(1));
    assert_eq!((meta.factory)(), Ok(9));
}

#[test]
fn registered_names_lists_each_name_once() {
    let mut nm: FactoryRegistry<Entry> = FactoryRegistry::new();
    nm.register_factory_with_name("A", probe_factory());
    nm.register_factory_with_name_owned("B".to_string(), probe_factory());
    nm.register_factory_with_name("A", probe_factory());
    let mut names = nm.registered_names();
    names.sort();
    assert_eq!(names, vec!["A", "B"]);
    let probe = nm.factory_meta_by_name("B").expect("registered");
    assert_eq!((probe.factory)(), Ok(7));
}
