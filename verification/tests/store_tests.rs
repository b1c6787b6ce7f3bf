use regstore::path::resolve;
use regstore::{RegError, RegStore, RegistryItemValue, RegistryType, ValueRecord};

fn val(name: &str, kind: RegistryType, bytes: &[u8]) -> ValueRecord {
    ValueRecord {
        name: name.to_string(),
        data: RegistryItemValue { raw_value: bytes.to_vec(), vtype: kind },
    }
}

fn find<'a>(values: &'a [ValueRecord], name: &str) -> Option<&'a ValueRecord> {
    values.iter().find(|v| v.name == name)
}

#[test]
fn hive_roots_exist_from_the_start() {
    let store = RegStore::new();
    for token in ["HKLM", "HKCU", "HKCR", "HKU", "HKCC"] {
        let snap = store.read(&resolve(token).unwrap());
        assert!(snap.exists, "root {} should exist", token);
        assert!(snap.keys.is_empty());
        assert!(snap.values.is_empty());
    }
}

#[test]
fn reading_a_missing_key_is_not_an_error() {
    let store = RegStore::new();
    let snap = store.read(&resolve("HKCU\\No\\Such\\Key").unwrap());
    assert!(!snap.exists);
    assert!(snap.keys.is_empty());
    assert!(snap.values.is_empty());
}

#[test]
fn writing_creates_the_whole_chain_and_stores_the_value() {
    let mut store = RegStore::new();
    let addr = resolve("HKCU\\Software\\Vendor\\App").unwrap();
    store.put(&addr, &vec![val("Setting", RegistryType::RegBinary, &[1, 2, 3])]);

    let snap = store.read(&addr);
    assert!(snap.exists);
    let v = find(&snap.values, "Setting").expect("written value present");
    assert_eq!(v.data.vtype, RegistryType::RegBinary);
    assert_eq!(v.data.raw_value, vec![1, 2, 3]);

    // Every intermediate segment now exists.
    assert!(store.read(&resolve("HKCU\\Software").unwrap()).exists);
    assert!(store.read(&resolve("HKCU\\Software\\Vendor").unwrap()).exists);

    // The chain is visible as child listings.
    let root = store.read(&resolve("HKCU").unwrap());
    assert!(root.keys.contains(&"Software".to_string()));
    let vendor = store.read(&resolve("HKCU\\Software\\Vendor").unwrap());
    assert_eq!(vendor.keys, vec!["App".to_string()]);
}

#[test]
fn a_second_write_of_the_same_name_replaces_the_value() {
    let mut store = RegStore::new();
    let addr = resolve("HKCU\\App").unwrap();
    store.put(&addr, &vec![val("X", RegistryType::RegDword, &[1, 0, 0, 0])]);
    store.put(&addr, &vec![val("X", RegistryType::RegDword, &[2, 0, 0, 0])]);

    let snap = store.read(&addr);
    assert_eq!(snap.values.len(), 1);
    assert_eq!(snap.values[0].data.raw_value, vec![2, 0, 0, 0]);
}

#[test]
fn values_of_different_names_accumulate() {
    let mut store = RegStore::new();
    let addr = resolve("HKLM\\App").unwrap();
    store.put(
        &addr,
        &vec![
            val("A", RegistryType::RegSz, b"alpha"),
            val("B", RegistryType::RegQword, &[0; 8]),
        ],
    );
    let snap = store.read(&addr);
    assert_eq!(snap.values.len(), 2);
    assert_eq!(find(&snap.values, "A").unwrap().data.raw_value, b"alpha".to_vec());
    assert_eq!(find(&snap.values, "B").unwrap().data.vtype, RegistryType::RegQword);
}

#[test]
fn raw_bytes_pass_through_untouched() {
    let mut store = RegStore::new();
    let addr = resolve("HKCU\\Raw").unwrap();
    let bytes: Vec<u8> = (0..=255).collect();
    store.put(&addr, &vec![val("blob", RegistryType::RegNone, &bytes)]);
    let snap = store.read(&addr);
    assert_eq!(snap.values[0].data.raw_value, bytes);
}

#[test]
fn deleting_a_key_removes_it_and_every_descendant() {
    let mut store = RegStore::new();
    store.put(
        &resolve("HKCU\\A\\B\\C").unwrap(),
        &vec![val("v", RegistryType::RegSz, b"x")],
    );
    store.create_key(&resolve("HKCU\\A\\D").unwrap());

    store.delete(&resolve("HKCU\\A").unwrap()).unwrap();

    assert!(!store.read(&resolve("HKCU\\A").unwrap()).exists);
    assert!(!store.read(&resolve("HKCU\\A\\B").unwrap()).exists);
    assert!(!store.read(&resolve("HKCU\\A\\B\\C").unwrap()).exists);
    assert!(!store.read(&resolve("HKCU\\A\\D").unwrap()).exists);

    // Siblings outside the subtree are untouched.
    let root = store.read(&resolve("HKCU").unwrap());
    assert!(!root.keys.contains(&"A".to_string()));
}

#[test]
fn deleting_a_missing_key_is_an_error() {
    let mut store = RegStore::new();
    let r = store.delete(&resolve("HKCU\\Never\\Created").unwrap());
    match r {
        Err(RegError::StoreError { .. }) => {},
        other => panic!("expected StoreError, got {:?}", other),
    }
}

#[test]
fn a_hive_root_cannot_be_deleted() {
    let mut store = RegStore::new();
    let r = store.delete(&resolve("HKLM").unwrap());
    assert!(matches!(r, Err(RegError::StoreError { .. })));
    assert!(store.read(&resolve("HKLM").unwrap()).exists);
}

#[test]
fn create_alone_makes_an_empty_key() {
    let mut store = RegStore::new();
    store.create_key(&resolve("HKCR\\Deep\\Chain").unwrap());
    let snap = store.read(&resolve("HKCR\\Deep\\Chain").unwrap());
    assert!(snap.exists);
    assert!(snap.values.is_empty());
    assert!(store.read(&resolve("HKCR\\Deep").unwrap()).exists);
}
