use regstore::path::resolve;
use regstore::{RegError, RootHiveId};

#[test]
fn alias_alone_names_the_hive_root() {
    let a = resolve("HKCU").unwrap();
    assert_eq!(a.root, RootHiveId::CurrentUser);
    assert_eq!(a.subpath, "");
    assert!(a.segments.is_empty());
}

#[test]
fn canonical_name_with_subpath() {
    let a = resolve("HKEY_LOCAL_MACHINE\\Software\\Foo").unwrap();
    assert_eq!(a.root, RootHiveId::LocalMachine);
    assert_eq!(a.subpath, "Software\\Foo");
    assert_eq!(a.segments, vec!["Software".to_string(), "Foo".to_string()]);
}

#[test]
fn empty_address_fails_with_invalid_hive() {
    match resolve("") {
        Err(RegError::InvalidHive { token }) => assert_eq!(token, ""),
        other => panic!("expected InvalidHive, got {:?}", other),
    }
}

#[test]
fn unknown_root_token_fails_with_invalid_hive() {
    match resolve("NOT_A_HIVE\\x") {
        Err(RegError::InvalidHive { token }) => assert_eq!(token, "NOT_A_HIVE"),
        other => panic!("expected InvalidHive, got {:?}", other),
    }
}

#[test]
fn every_canonical_name_and_alias_resolves_in_any_case() {
    let table: [(&str, &str, RootHiveId); 5] = [
        ("HKEY_LOCAL_MACHINE", "HKLM", RootHiveId::LocalMachine),
        ("HKEY_CURRENT_USER", "HKCU", RootHiveId::CurrentUser),
        ("HKEY_CLASSES_ROOT", "HKCR", RootHiveId::ClassesRoot),
        ("HKEY_USERS", "HKU", RootHiveId::Users),
        ("HKEY_CURRENT_CONFIG", "HKCC", RootHiveId::CurrentConfig),
    ];
    for (name, alias, root) in table {
        for token in [name.to_string(), alias.to_string()] {
            let lower = token.to_lowercase();
            let mixed: String = token
                .chars()
                .enumerate()
                .map(|(i, c): (usize, char)| {
                    if i % 2 == 0 {
                        c.to_ascii_lowercase()
                    } else {
                        c.to_ascii_uppercase()
                    }
                })
                .collect();
            for t in [token, lower, mixed] {
                let a = resolve(&t).unwrap();
                assert_eq!(a.root, root, "token {:?}", t);
                assert_eq!(a.subpath, "");
            }
        }
    }
}

#[test]
fn case_of_the_token_does_not_change_the_root() {
    let a = resolve("hKcU\\Some\\Path").unwrap();
    let b = resolve("HKCU\\Some\\Path").unwrap();
    assert_eq!(a.root, b.root);
    assert_eq!(a.subpath, b.subpath);
}

#[test]
fn subpath_case_is_preserved() {
    let a = resolve("hklm\\SoFtWaRe").unwrap();
    assert_eq!(a.subpath, "SoFtWaRe");
}

#[test]
fn leading_and_trailing_separators_of_the_subpath_are_stripped() {
    let a = resolve("HKCU\\\\A\\B\\\\").unwrap();
    assert_eq!(a.subpath, "A\\B");
    assert_eq!(a.segments, vec!["A".to_string(), "B".to_string()]);

    let b = resolve("HKCU\\").unwrap();
    assert_eq!(b.subpath, "");
    assert!(b.segments.is_empty());
}

#[test]
fn segments_join_back_to_the_subpath() {
    let a = resolve("HKU\\one\\two\\three").unwrap();
    assert_eq!(a.segments.join("\\"), a.subpath);
}
