use gazelle_aggregate::registration::{asio_key, class_key, register, unregister, Recorded, RegistryWriter};

#[test]
fn registering_writes_the_two_keys_a_daw_looks_in() {
    let mut registry = Recorded::new();
    register(&mut registry, r"C:\Tools\gazelle_aggregate.dll").expect("an ordinary registration");

    assert_eq!(registry.value(r"SOFTWARE\ASIO\Gazelle Aggregate", "CLSID"), Some("{F18C80B4-2DE1-43B8-AC84-19DDC22EBFC8}"));
    assert_eq!(registry.value(r"SOFTWARE\ASIO\Gazelle Aggregate", "Description"), Some("Gazelle Aggregate"));

    let class = r"SOFTWARE\Classes\CLSID\{F18C80B4-2DE1-43B8-AC84-19DDC22EBFC8}";
    let inproc = format!(r"{class}\InprocServer32");
    assert_eq!(registry.value(class, ""), Some("Gazelle Aggregate"));
    assert_eq!(registry.value(&inproc, ""), Some(r"C:\Tools\gazelle_aggregate.dll"));
    assert_eq!(registry.value(&inproc, "ThreadingModel"), Some("Apartment"));
}

#[test]
fn every_key_is_made_before_it_is_written_to() {
    let mut registry = Recorded::new();
    register(&mut registry, r"C:\x.dll").expect("an ordinary registration");
    assert_eq!(registry.keys.len(), 3, "the entry, the class, and the DLL under it");
    assert!(registry.deleted.is_empty(), "registering deletes nothing");
}

#[test]
fn unregistering_takes_away_exactly_what_was_written() {
    let mut registry = Recorded::new();
    register(&mut registry, r"C:\x.dll").expect("an ordinary registration");
    let written: Vec<String> = registry.keys.clone();
    let mut registry = Recorded::new();
    unregister(&mut registry).expect("an ordinary unregistration");
    assert_eq!(registry.deleted, vec![asio_key(), class_key()]);
    // Everything written sits under one of the two trees that are removed.
    for key in written {
        assert!(key.starts_with(&asio_key()) || key.starts_with(&class_key()), "{key} would be left behind");
    }
}

#[test]
fn a_registry_that_says_no_is_passed_on_rather_than_half_written() {
    let mut registry = Recorded::new();
    registry.refuse = Some(asio_key());
    let error = register(&mut registry, r"C:\x.dll").expect_err("access denied");
    assert!(error.contains("access is denied"), "{error}");
    assert!(registry.values.is_empty(), "nothing was written");
}

#[test]
fn registering_needs_to_know_where_the_dll_is() {
    let mut registry = Recorded::new();
    assert!(register(&mut registry, "   ").is_err());
    assert!(registry.keys.is_empty());
}

#[test]
fn nothing_gazelle_installs_is_touched() {
    let mut registry = Recorded::new();
    register(&mut registry, r"C:\x.dll").expect("an ordinary registration");
    for key in registry.keys.iter().chain(registry.values.iter().map(|(k, _, _)| k)) {
        let lower = key.to_ascii_lowercase();
        assert!(
            lower.starts_with("software\\asio") || lower.starts_with("software\\classes\\clsid"),
            "{key} is outside the two places a driver registers"
        );
    }
}

#[test]
fn a_write_to_a_key_that_was_never_made_is_refused() {
    let mut registry = Recorded::new();
    let error = registry.set_value("SOFTWARE\\Nowhere", "x", "y").expect_err("never made");
    assert_eq!(error, "SOFTWARE\\Nowhere was written to before it was made");
    assert!(registry.values.is_empty());
}

#[test]
fn a_refusal_part_way_stops_the_rest_and_leaves_only_what_came_before_it() {
    let mut registry = Recorded::new();
    registry.refuse = Some(class_key());
    let error = register(&mut registry, r"C:\x.dll").expect_err("the class key is refused");
    assert_eq!(error, format!("{} could not be created: access is denied", class_key()));
    assert_eq!(registry.keys, vec![asio_key()]);
    assert_eq!(registry.values.len(), 2, "the entry's two values, and nothing under the class");
    assert!(registry.values.iter().all(|(key, _, _)| *key == asio_key()));
}
