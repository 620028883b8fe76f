//! The catalog of supported build variants.
//!
//! The [`VariantKind`] enum names each supported combination of OS
//! distribution and version.  Each kind has a canonical textual name;
//! [`VariantKind::as_ref`] and [`VariantKind::from_name`] convert between
//! the two representations.

use vstd::prelude::*;

verus! {

use vstd::string::StrSliceExecFns;
use vstd::string::StringSliceAdditionalSpecFns;
use crate::VariantError;
use crate::str_eq;

/// The supported build variants (OS distribution, version, etc).
#[derive(Debug, Clone, PartialEq, Hash, Eq)]
pub enum VariantKind {
    /// AlmaLinux 8.x
    ALMA8,
    /// CentOS 6.x
    CENTOS6,
    /// CentOS 7.x
    CENTOS7,
    /// CentOS 8.x
    CENTOS8,
    /// Oracle Linux 7.x
    ORACLE7,
    /// Debian 9.x (stretch)
    DEBIAN9,
    /// Debian 10.x (buster)
    DEBIAN10,
    /// Debian 11.x (bullseye)
    DEBIAN11,
    /// Debian 12.x (bookworm)
    DEBIAN12,
    /// RedHat Enterprise Linux 8.x
    RHEL8,
    /// Rocky Linux 8.x
    ROCKY8,
    /// Ubuntu 16.04 LTS (Xenial Xerus)
    UBUNTU1604,
    /// Ubuntu 18.04 LTS (Bionic Beaver)
    UBUNTU1804,
    /// Ubuntu 20.04 LTS (Focal Fossa)
    UBUNTU2004,
}

/// The canonical name of a build variant.
pub open spec fn kind_name(k: VariantKind) -> Seq<char> {
    match k {
        VariantKind::ALMA8 => "ALMA8"@,
        VariantKind::CENTOS6 => "CENTOS6"@,
        VariantKind::CENTOS7 => "CENTOS7"@,
        VariantKind::CENTOS8 => "CENTOS8"@,
        VariantKind::ORACLE7 => "ORACLE7"@,
        VariantKind::DEBIAN9 => "DEBIAN9"@,
        VariantKind::DEBIAN10 => "DEBIAN10"@,
        VariantKind::DEBIAN11 => "DEBIAN11"@,
        VariantKind::DEBIAN12 => "DEBIAN12"@,
        VariantKind::RHEL8 => "RHEL8"@,
        VariantKind::ROCKY8 => "ROCKY8"@,
        VariantKind::UBUNTU1604 => "UBUNTU1604"@,
        VariantKind::UBUNTU1804 => "UBUNTU1804"@,
        VariantKind::UBUNTU2004 => "UBUNTU2004"@,
    }
}

/// Whether `s` is the canonical name of some supported build variant.
pub open spec fn is_variant_name(s: Seq<char>) -> bool {
    exists|k: VariantKind| kind_name(k) == s
}

impl VariantKind {
    /// The canonical name of this build variant.
    pub fn as_ref(&self) -> (r: &'static str)
        ensures
            r@ == kind_name(*self),
    {
        match self {
            VariantKind::ALMA8 => "ALMA8",
            VariantKind::CENTOS6 => "CENTOS6",
            VariantKind::CENTOS7 => "CENTOS7",
            VariantKind::CENTOS8 => "CENTOS8",
            VariantKind::ORACLE7 => "ORACLE7",
            VariantKind::DEBIAN9 => "DEBIAN9",
            VariantKind::DEBIAN10 => "DEBIAN10",
            VariantKind::DEBIAN11 => "DEBIAN11",
            VariantKind::DEBIAN12 => "DEBIAN12",
            VariantKind::RHEL8 => "RHEL8",
            VariantKind::ROCKY8 => "ROCKY8",
            VariantKind::UBUNTU1604 => "UBUNTU1604",
            VariantKind::UBUNTU1804 => "UBUNTU1804",
            VariantKind::UBUNTU2004 => "UBUNTU2004",
        }
    }

    /// Look a build variant up by its canonical name.  Exactly the
    /// canonical names are accepted; any other string is rejected with
    /// `VariantError::BadVariant` carrying the offending name.
    pub fn from_name(name: &str) -> (r: Result<VariantKind, VariantError>)
        ensures
            match r {
                Ok(k) => kind_name(k) == name@,
                Err(e) => !is_variant_name(name@) && match e {
                    VariantError::BadVariant(s) => s@ == name@,
                },
            },
    {
        if str_eq(name, "ALMA8") {
            Ok(VariantKind::ALMA8)
        } else if str_eq(name, "CENTOS6") {
            Ok(VariantKind::CENTOS6)
        } else if str_eq(name, "CENTOS7") {
            Ok(VariantKind::CENTOS7)
        } else if str_eq(name, "CENTOS8") {
            Ok(VariantKind::CENTOS8)
        } else if str_eq(name, "ORACLE7") {
            Ok(VariantKind::ORACLE7)
        } else if str_eq(name, "DEBIAN9") {
            Ok(VariantKind::DEBIAN9)
        } else if str_eq(name, "DEBIAN10") {
            Ok(VariantKind::DEBIAN10)
        } else if str_eq(name, "DEBIAN11") {
            Ok(VariantKind::DEBIAN11)
        } else if str_eq(name, "DEBIAN12") {
            Ok(VariantKind::DEBIAN12)
        } else if str_eq(name, "RHEL8") {
            Ok(VariantKind::RHEL8)
        } else if str_eq(name, "ROCKY8") {
            Ok(VariantKind::ROCKY8)
        } else if str_eq(name, "UBUNTU1604") {
            Ok(VariantKind::UBUNTU1604)
        } else if str_eq(name, "UBUNTU1804") {
            Ok(VariantKind::UBUNTU1804)
        } else if str_eq(name, "UBUNTU2004") {
            Ok(VariantKind::UBUNTU2004)
        } else {
            proof {
                assert forall|k: VariantKind| kind_name(k) != name@ by {
                    match k {
                        VariantKind::ALMA8 => assert(kind_name(k) == "ALMA8"@),
                        VariantKind::CENTOS6 => assert(kind_name(k) == "CENTOS6"@),
                        VariantKind::CENTOS7 => assert(kind_name(k) == "CENTOS7"@),
                        VariantKind::CENTOS8 => assert(kind_name(k) == "CENTOS8"@),
                        VariantKind::ORACLE7 => assert(kind_name(k) == "ORACLE7"@),
                        VariantKind::DEBIAN9 => assert(kind_name(k) == "DEBIAN9"@),
                        VariantKind::DEBIAN10 => assert(kind_name(k) == "DEBIAN10"@),
                        VariantKind::DEBIAN11 => assert(kind_name(k) == "DEBIAN11"@),
                        VariantKind::DEBIAN12 => assert(kind_name(k) == "DEBIAN12"@),
                        VariantKind::RHEL8 => assert(kind_name(k) == "RHEL8"@),
                        VariantKind::ROCKY8 => assert(kind_name(k) == "ROCKY8"@),
                        VariantKind::UBUNTU1604 => assert(kind_name(k) == "UBUNTU1604"@),
                        VariantKind::UBUNTU1804 => assert(kind_name(k) == "UBUNTU1804"@),
                        VariantKind::UBUNTU2004 => assert(kind_name(k) == "UBUNTU2004"@),
                    }
                }
            }
            Err(VariantError::BadVariant(name.to_owned()))
        }
    }
}

impl core::str::FromStr for VariantKind {
    type Err = VariantError;

    fn from_str(s: &str) -> Result<VariantKind, VariantError> {
        VariantKind::from_name(s)
    }
}

/// The JSON catalog of the supported build variants, as text.
pub open spec fn json_def_text() -> Seq<u8> {
    "{\"format\":{\"version\":{\"major\":1,\"minor\":0}},\"order\":[\"ALMA8\",\"CENTOS6\",\"CENTOS7\",\"CENTOS8\",\"ORACLE7\",\"DEBIAN9\",\"DEBIAN10\",\"DEBIAN11\",\"DEBIAN12\",\"RHEL8\",\"ROCKY8\",\"UBUNTU1604\",\"UBUNTU1804\",\"UBUNTU2004\"]}".spec_bytes()
}

/// Return the JSON definition of the supported build variants.
pub fn get_json_def() -> (r: Vec<u8>)
    ensures
        r@ == json_def_text(),
{
    "{\"format\":{\"version\":{\"major\":1,\"minor\":0}},\"order\":[\"ALMA8\",\"CENTOS6\",\"CENTOS7\",\"CENTOS8\",\"ORACLE7\",\"DEBIAN9\",\"DEBIAN10\",\"DEBIAN11\",\"DEBIAN12\",\"RHEL8\",\"ROCKY8\",\"UBUNTU1604\",\"UBUNTU1804\",\"UBUNTU2004\"]}".as_bytes_vec()
}

} // verus!
