use regstore::batch::{
    create, create_best_effort, delete_key, delete_key_best_effort, list, list_best_effort, put,
    put_best_effort,
};
use regstore::path::resolve;
use regstore::{PutRequest, RegError, RegStore, RegistryItemValue, RegistryType, ValueRecord};

fn val(name: &str, kind: RegistryType, bytes: &[u8]) -> ValueRecord {
    ValueRecord {
        name: name.to_string(),
        data: RegistryItemValue { raw_value: bytes.to_vec(), vtype: kind },
    }
}

fn keys(v: &[&str]) -> Vec<String> {
    v.iter().map(|s| s.to_string()).collect()
}

#[test]
fn list_returns_one_snapshot_per_address_in_order() {
    let mut store = RegStore::new();
    create(&mut store, &keys(&["HKCU\\A", "HKCU\\B"])).unwrap();

    let items = list(&store, &keys(&["HKCU\\A", "HKCU\\B", "HKCU\\C"])).unwrap();
    assert_eq!(items.len(), 3);
    assert_eq!(items[0].0, "HKCU\\A");
    assert!(items[0].1.exists);
    assert!(items[1].1.exists);
    assert_eq!(items[2].0, "HKCU\\C");
    assert!(!items[2].1.exists);
}

#[test]
fn fail_fast_list_returns_no_partial_results() {
    let mut store = RegStore::new();
    create(&mut store, &keys(&["HKCU\\A", "HKCU\\B"])).unwrap();

    let r = list(&store, &keys(&["HKCU\\A", "BAD\\x", "HKCU\\B"]));
    match r {
        Err(RegError::InvalidHive { token }) => assert_eq!(token, "BAD"),
        other => panic!("expected InvalidHive, got {:?}", other),
    }
}

#[test]
fn best_effort_list_skips_the_failing_address_and_keeps_the_rest() {
    let mut store = RegStore::new();
    create(&mut store, &keys(&["HKCU\\A", "HKCU\\B"])).unwrap();

    let items = list_best_effort(&store, &keys(&["HKCU\\A", "BAD\\x", "HKCU\\B"]));
    assert_eq!(items.len(), 2);
    assert_eq!(items[0].0, "HKCU\\A");
    assert_eq!(items[1].0, "HKCU\\B");
    assert!(items[0].1.exists && items[1].1.exists);
}

#[test]
fn fail_fast_create_stops_at_the_first_bad_address() {
    let mut store = RegStore::new();
    let r = create(&mut store, &keys(&["HKCU\\First", "BAD", "HKCU\\Third"]));
    assert!(matches!(r, Err(RegError::InvalidHive { .. })));

    // The address before the failure was applied; the one after was not.
    assert!(store.read(&resolve("HKCU\\First").unwrap()).exists);
    assert!(!store.read(&resolve("HKCU\\Third").unwrap()).exists);
}

#[test]
fn best_effort_create_attempts_every_address() {
    let mut store = RegStore::new();
    let outcomes = create_best_effort(&mut store, &keys(&["HKCU\\First", "BAD", "HKCU\\Third"]));
    assert_eq!(outcomes.len(), 3);
    assert!(outcomes[0].is_none());
    assert!(matches!(outcomes[1], Some(RegError::InvalidHive { .. })));
    assert!(outcomes[2].is_none());

    assert!(store.read(&resolve("HKCU\\First").unwrap()).exists);
    assert!(store.read(&resolve("HKCU\\Third").unwrap()).exists);
}

#[test]
fn put_applies_each_request_to_its_key() {
    let mut store = RegStore::new();
    let requests = vec![
        PutRequest {
            address: "HKLM\\App".to_string(),
            values: vec![val("a", RegistryType::RegSz, b"1")],
        },
        PutRequest {
            address: "HKCU\\Other".to_string(),
            values: vec![val("b", RegistryType::RegDword, &[7, 0, 0, 0])],
        },
    ];
    put(&mut store, &requests).unwrap();

    let one = store.read(&resolve("HKLM\\App").unwrap());
    assert_eq!(one.values[0].name, "a");
    let two = store.read(&resolve("HKCU\\Other").unwrap());
    assert_eq!(two.values[0].data.raw_value, vec![7, 0, 0, 0]);
}

#[test]
fn fail_fast_put_leaves_later_requests_unapplied() {
    let mut store = RegStore::new();
    let requests = vec![
        PutRequest {
            address: "HKCU\\Early".to_string(),
            values: vec![val("v", RegistryType::RegSz, b"x")],
        },
        PutRequest { address: "NOPE\\y".to_string(), values: vec![] },
        PutRequest {
            address: "HKCU\\Late".to_string(),
            values: vec![val("v", RegistryType::RegSz, b"y")],
        },
    ];
    let r = put(&mut store, &requests);
    assert!(matches!(r, Err(RegError::InvalidHive { .. })));
    assert!(store.read(&resolve("HKCU\\Early").unwrap()).exists);
    assert!(!store.read(&resolve("HKCU\\Late").unwrap()).exists);
}

#[test]
fn best_effort_put_applies_what_it_can() {
    let mut store = RegStore::new();
    let requests = vec![
        PutRequest {
            address: "HKCU\\Early".to_string(),
            values: vec![val("v", RegistryType::RegSz, b"x")],
        },
        PutRequest { address: "NOPE\\y".to_string(), values: vec![] },
        PutRequest {
            address: "HKCU\\Late".to_string(),
            values: vec![val("v", RegistryType::RegSz, b"y")],
        },
    ];
    let outcomes = put_best_effort(&mut store, &requests);
    assert_eq!(outcomes.len(), 3);
    assert!(outcomes[0].is_none());
    assert!(outcomes[1].is_some());
    assert!(outcomes[2].is_none());
    assert!(store.read(&resolve("HKCU\\Late").unwrap()).exists);
}

#[test]
fn fail_fast_delete_stops_at_the_first_failure() {
    let mut store = RegStore::new();
    create(&mut store, &keys(&["HKCU\\A", "HKCU\\C"])).unwrap();

    let r = delete_key(&mut store, &keys(&["HKCU\\A", "HKCU\\Missing", "HKCU\\C"]));
    match r {
        Err(RegError::StoreError { .. }) => {},
        other => panic!("expected StoreError, got {:?}", other),
    }
    // The delete before the failure happened; the one after was not
    // attempted.
    assert!(!store.read(&resolve("HKCU\\A").unwrap()).exists);
    assert!(store.read(&resolve("HKCU\\C").unwrap()).exists);
}

#[test]
fn best_effort_delete_attempts_every_address() {
    let mut store = RegStore::new();
    create(&mut store, &keys(&["HKCU\\A", "HKCU\\C"])).unwrap();

    let outcomes =
        delete_key_best_effort(&mut store, &keys(&["HKCU\\A", "HKCU\\Missing", "HKCU\\C"]));
    assert_eq!(outcomes.len(), 3);
    assert!(outcomes[0].is_none());
    assert!(matches!(outcomes[1], Some(RegError::StoreError { .. })));
    assert!(outcomes[2].is_none());

    assert!(!store.read(&resolve("HKCU\\A").unwrap()).exists);
    assert!(!store.read(&resolve("HKCU\\C").unwrap()).exists);
}

#[test]
fn deleting_a_subtree_through_the_batch_surface() {
    let mut store = RegStore::new();
    put(
        &mut store,
        &vec![PutRequest {
            address: "HKU\\Top\\Nested".to_string(),
            values: vec![val("n", RegistryType::RegSz, b"z")],
        }],
    )
    .unwrap();
    delete_key(&mut store, &keys(&["HKU\\Top"])).unwrap();
    assert!(!store.read(&resolve("HKU\\Top").unwrap()).exists);
    assert!(!store.read(&resolve("HKU\\Top\\Nested").unwrap()).exists);
}
