//! The codec between the closed set of value kinds and native type tags.
//!
//! A registry value carries a kind drawn from a closed set of twelve members.
//! The platform stores the kind as a small integer tag; the mapping between
//! the two spaces is total on the kinds, injective, and rejects every tag
//! outside the twelve recognized values instead of coercing it to a default.

use vstd::prelude::*;

use crate::error::RegError;

verus! {

/// The closed set of value kinds a registry value can carry.
///
/// The payload bytes of a value are never interpreted by this crate; the kind
/// only tells downstream consumers how they are meant to be read.
#[derive(Clone, Copy, PartialEq, Eq, Structural, Debug)]
pub enum RegistryType {
    RegNone,
    RegSz,
    RegExpandSz,
    RegBinary,
    RegDword,
    RegDwordBigEndian,
    RegLink,
    RegMultiSz,
    RegResourceList,
    RegFullResourceDescriptor,
    RegResourceRequirementsList,
    RegQword,
}

/// The native tag of each value kind: the platform's `REG_*` constants.
pub open spec fn spec_to_native(k: RegistryType) -> u32 {
    match k {
        RegistryType::RegNone => 0,
        RegistryType::RegSz => 1,
        RegistryType::RegExpandSz => 2,
        RegistryType::RegBinary => 3,
        RegistryType::RegDword => 4,
        RegistryType::RegDwordBigEndian => 5,
        RegistryType::RegLink => 6,
        RegistryType::RegMultiSz => 7,
        RegistryType::RegResourceList => 8,
        RegistryType::RegFullResourceDescriptor => 9,
        RegistryType::RegResourceRequirementsList => 10,
        RegistryType::RegQword => 11,
    }
}

/// The value kind a native tag denotes, or `None` for an unrecognized tag.
pub open spec fn spec_from_native(tag: u32) -> Option<RegistryType> {
    if tag == 0 {
        Some(RegistryType::RegNone)
    } else if tag == 1 {
        Some(RegistryType::RegSz)
    } else if tag == 2 {
        Some(RegistryType::RegExpandSz)
    } else if tag == 3 {
        Some(RegistryType::RegBinary)
    } else if tag == 4 {
        Some(RegistryType::RegDword)
    } else if tag == 5 {
        Some(RegistryType::RegDwordBigEndian)
    } else if tag == 6 {
        Some(RegistryType::RegLink)
    } else if tag == 7 {
        Some(RegistryType::RegMultiSz)
    } else if tag == 8 {
        Some(RegistryType::RegResourceList)
    } else if tag == 9 {
        Some(RegistryType::RegFullResourceDescriptor)
    } else if tag == 10 {
        Some(RegistryType::RegResourceRequirementsList)
    } else if tag == 11 {
        Some(RegistryType::RegQword)
    } else {
        None
    }
}

/// Encode a value kind as its native tag.
pub fn to_native(k: RegistryType) -> (tag: u32)
    ensures
        tag == spec_to_native(k),
{
    match k {
        RegistryType::RegNone => 0,
        RegistryType::RegSz => 1,
        RegistryType::RegExpandSz => 2,
        RegistryType::RegBinary => 3,
        RegistryType::RegDword => 4,
        RegistryType::RegDwordBigEndian => 5,
        RegistryType::RegLink => 6,
        RegistryType::RegMultiSz => 7,
        RegistryType::RegResourceList => 8,
        RegistryType::RegFullResourceDescriptor => 9,
        RegistryType::RegResourceRequirementsList => 10,
        RegistryType::RegQword => 11,
    }
}

/// Decode a native tag into a value kind; a tag outside the twelve
/// recognized values is rejected with `UnknownTag`, never coerced.
pub fn from_native(tag: u32) -> (r: Result<RegistryType, RegError>)
    ensures
        match r {
            Ok(k) => spec_from_native(tag) == Some(k),
            Err(e) => spec_from_native(tag) is None && e == (RegError::UnknownTag { tag }),
        },
{
    if tag == 0 {
        Ok(RegistryType::RegNone)
    } else if tag == 1 {
        Ok(RegistryType::RegSz)
    } else if tag == 2 {
        Ok(RegistryType::RegExpandSz)
    } else if tag == 3 {
        Ok(RegistryType::RegBinary)
    } else if tag == 4 {
        Ok(RegistryType::RegDword)
    } else if tag == 5 {
        Ok(RegistryType::RegDwordBigEndian)
    } else if tag == 6 {
        Ok(RegistryType::RegLink)
    } else if tag == 7 {
        Ok(RegistryType::RegMultiSz)
    } else if tag == 8 {
        Ok(RegistryType::RegResourceList)
    } else if tag == 9 {
        Ok(RegistryType::RegFullResourceDescriptor)
    } else if tag == 10 {
        Ok(RegistryType::RegResourceRequirementsList)
    } else if tag == 11 {
        Ok(RegistryType::RegQword)
    } else {
        Err(RegError::UnknownTag { tag })
    }
}

/// The codec is a bijection: decoding the tag of any kind yields that kind
/// back, and encoding the kind of any recognized tag yields that tag back.
pub proof fn lemma_codec_bijective()
    ensures
        forall|k: RegistryType| spec_from_native(spec_to_native(k)) == Some(k),
        forall|tag: u32|
            #[trigger] spec_from_native(tag) is Some ==> spec_to_native(
                spec_from_native(tag)->Some_0,
            ) == tag,
{
}

} // verus!
