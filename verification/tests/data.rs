//! Tests for the build-variant catalog.

use std::str::FromStr;

use sp_variant::data::{get_json_def, VariantKind};
use sp_variant::{str_eq, VariantError};

const ALL_KINDS: [VariantKind; 14] = [
    VariantKind::ALMA8,
    VariantKind::CENTOS6,
    VariantKind::CENTOS7,
    VariantKind::CENTOS8,
    VariantKind::ORACLE7,
    VariantKind::DEBIAN9,
    VariantKind::DEBIAN10,
    VariantKind::DEBIAN11,
    VariantKind::DEBIAN12,
    VariantKind::RHEL8,
    VariantKind::ROCKY8,
    VariantKind::UBUNTU1604,
    VariantKind::UBUNTU1804,
    VariantKind::UBUNTU2004,
];

#[test]
fn kind_name_round_trip() {
    for kind in &ALL_KINDS {
        let name = kind.as_ref();
        let back = VariantKind::from_str(name).unwrap();
        assert_eq!(kind, &back);
    }
}

#[test]
fn from_name_rejects_unknown() {
    for name in ["", "ALMA", "alma8", "DEBIAN13", "UBUNTU2204"] {
        let res = VariantKind::from_name(name);
        assert_eq!(res, Err(VariantError::BadVariant(name.to_string())));
    }
}

#[test]
fn from_name_exact() {
    assert_eq!(
        VariantKind::from_name("DEBIAN11"),
        Ok(VariantKind::DEBIAN11)
    );
    assert_eq!(
        VariantKind::from_name("UBUNTU2004"),
        Ok(VariantKind::UBUNTU2004)
    );
    assert_eq!(VariantKind::DEBIAN9.as_ref(), "DEBIAN9");
}

#[test]
fn json_def_lists_all_kinds() {
    let bytes = get_json_def();
    let text = String::from_utf8(bytes).unwrap();
    assert!(text.starts_with('{'));
    assert!(text.ends_with('}'));
    for kind in &ALL_KINDS {
        let quoted = format!("\"{}\"", kind.as_ref());
        assert!(text.contains(&quoted), "missing {}", quoted);
    }
}

#[test]
fn str_eq_compares_contents() {
    assert!(str_eq("", ""));
    assert!(str_eq("abc", "abc"));
    assert!(!str_eq("abc", "abd"));
    assert!(!str_eq("abc", "abcd"));
    assert!(str_eq("Ünïcode", "Ünïcode"));
    assert!(!str_eq("Ünïcode", "Unicode"));
}
