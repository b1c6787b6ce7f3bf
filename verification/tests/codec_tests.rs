use regstore::codec::{from_native, to_native};
use regstore::error::RegError;
use regstore::RegistryType;

const ALL_KINDS: [RegistryType; 12] = [
    RegistryType::RegNone,
    RegistryType::RegSz,
    RegistryType::RegExpandSz,
    RegistryType::RegBinary,
    RegistryType::RegDword,
    RegistryType::RegDwordBigEndian,
    RegistryType::RegLink,
    RegistryType::RegMultiSz,
    RegistryType::RegResourceList,
    RegistryType::RegFullResourceDescriptor,
    RegistryType::RegResourceRequirementsList,
    RegistryType::RegQword,
];

#[test]
fn every_kind_round_trips_through_its_tag() {
    for k in ALL_KINDS {
        let tag = to_native(k);
        assert_eq!(from_native(tag).unwrap(), k);
    }
}

#[test]
fn every_recognized_tag_round_trips_through_its_kind() {
    for tag in 0u32..12 {
        let kind = from_native(tag).unwrap();
        assert_eq!(to_native(kind), tag);
    }
}

#[test]
fn tags_are_the_native_constants() {
    assert_eq!(to_native(RegistryType::RegNone), 0);
    assert_eq!(to_native(RegistryType::RegSz), 1);
    assert_eq!(to_native(RegistryType::RegExpandSz), 2);
    assert_eq!(to_native(RegistryType::RegBinary), 3);
    assert_eq!(to_native(RegistryType::RegDword), 4);
    assert_eq!(to_native(RegistryType::RegDwordBigEndian), 5);
    assert_eq!(to_native(RegistryType::RegLink), 6);
    assert_eq!(to_native(RegistryType::RegMultiSz), 7);
    assert_eq!(to_native(RegistryType::RegResourceList), 8);
    assert_eq!(to_native(RegistryType::RegFullResourceDescriptor), 9);
    assert_eq!(to_native(RegistryType::RegResourceRequirementsList), 10);
    assert_eq!(to_native(RegistryType::RegQword), 11);
}

#[test]
fn unknown_tags_are_rejected_not_coerced() {
    assert_eq!(from_native(12), Err(RegError::UnknownTag { tag: 12 }));
    assert_eq!(from_native(999), Err(RegError::UnknownTag { tag: 999 }));
    assert_eq!(from_native(u32::MAX), Err(RegError::UnknownTag { tag: u32::MAX }));
}
