use abi_stable::lib_header::{
    check_version, AbiHeader, ExpectedRootModule, LibHeader, LibraryError, RootLayout,
    RootModuleConsts, ABI_MAJOR, ABI_MINOR,
};
use abi_stable::type_layout::{Field, LayoutData, LayoutGraph, Primitive, TypeLayout};
use abi_stable::version::{VersionNumber, VersionStrings};

fn vs(s: &str) -> VersionStrings {
    VersionStrings { version: s.to_string() }
}

fn root_layout(field_type: Primitive, size: usize) -> RootLayout {
    RootLayout {
        graph: LayoutGraph {
            nodes: vec![
                TypeLayout {
                    name: "RootMod".to_string(),
                    size,
                    alignment: size,
                    data: LayoutData::Record(vec![Field {
                        name: "entry".to_string(),
                        layout: 1,
                        layout_only: false,
                        lifetimes: Vec::new(),
                    }]),
                    generic_params: Vec::new(),
                    tag: None,
                },
                TypeLayout {
                    name: "entry".to_string(),
                    size,
                    alignment: size,
                    data: LayoutData::Primitive(field_type),
                    generic_params: Vec::new(),
                    tag: None,
                },
            ],
        },
        root: 0,
    }
}

fn expected(version: &str) -> ExpectedRootModule {
    ExpectedRootModule {
        name: "text_ops".to_string(),
        version_strings: vs(version),
        layout: root_layout(Primitive::FnPointer, 8),
    }
}

fn library(version: &str, layout: Option<RootLayout>) -> LibHeader<u64> {
    LibHeader::from_constructor(
        77,
        RootModuleConsts { name: "text_ops".to_string(), version_strings: vs(version), layout },
    )
}

#[test]
fn framework_header_is_valid() {
    let h = AbiHeader::value();
    assert!(h.is_valid());
    assert_eq!(&h.magic_string, b"abi stable library for Rust     ");
    assert_eq!(h.abi_major, ABI_MAJOR);
    assert_eq!(h.abi_minor, ABI_MINOR);
}

#[test]
fn header_with_other_magic_is_rejected_first() {
    let mut magic = AbiHeader::value().magic_string;
    magic[0] = b'X';
    let consts = RootModuleConsts {
        name: "text_ops".to_string(),
        version_strings: vs("not a version"),
        layout: None,
    };
    let mut lib = LibHeader::new(AbiHeader::new(magic, ABI_MAJOR, ABI_MINOR), consts, 77u64);
    assert!(!lib.header().is_valid());
    match lib.load_root_module(&expected("1.0.0")) {
        Err(LibraryError::InvalidAbiHeader(h)) => assert_eq!(h.magic_string[0], b'X'),
        other => panic!("unexpected result {:?}", other),
    }
    assert!(lib.module().is_none());
}

#[test]
fn header_minor_version_under_major_zero() {
    let value = AbiHeader::value();
    let newer = AbiHeader::new(value.magic_string, 0, value.abi_minor + 1);
    let older = AbiHeader::new(value.magic_string, 0, value.abi_minor - 1);
    assert!(newer.is_compatible(&value));
    assert!(!older.is_compatible(&value));
    assert!(newer.is_valid());
    assert!(!older.is_valid());
    let other_major = AbiHeader::new(value.magic_string, 1, value.abi_minor);
    assert!(!other_major.is_valid());
}

#[test]
fn header_minor_version_free_under_later_majors() {
    let value = AbiHeader::value();
    let v1 = AbiHeader::new(value.magic_string, 1, 5);
    let older = AbiHeader::new(value.magic_string, 1, 2);
    assert!(older.is_compatible(&v1));
}

#[test]
fn version_strings_parse() {
    assert_eq!(
        VersionNumber::new(&vs("1.22.333")).ok(),
        Some(VersionNumber { major: 1, minor: 22, patch: 333 })
    );
    assert_eq!(
        VersionNumber::new(&vs("4294967295.0.7")).ok(),
        Some(VersionNumber { major: 4294967295, minor: 0, patch: 7 })
    );
    for bad in ["1.2", "1.2.3.4", "a.b.c", "1..3", "4294967296.0.0", "", "1.2.3 ", "-1.2.3"] {
        match VersionNumber::new(&vs(bad)) {
            Err(e) => assert_eq!(e.version, bad),
            Ok(v) => panic!("{} parsed as {:?}", bad, v),
        }
    }
}

#[test]
fn library_version_rules() {
    assert!(check_version(&expected("1.2.0"), &vs("1.0.5")).is_ok());
    assert!(check_version(&expected("0.9.0"), &vs("0.10.0")).is_ok());
    assert!(check_version(&expected("0.9.3"), &vs("0.9.0")).is_ok());
    match check_version(&expected("0.10.0"), &vs("0.9.0")) {
        Err(LibraryError::IncompatibleVersionNumber { library_name, expected_version, actual_version }) => {
            assert_eq!(library_name, "text_ops");
            assert_eq!(expected_version, VersionNumber { major: 0, minor: 10, patch: 0 });
            assert_eq!(actual_version, VersionNumber { major: 0, minor: 9, patch: 0 });
        }
        other => panic!("unexpected result {:?}", other),
    }
    assert!(matches!(
        check_version(&expected("1.0.0"), &vs("2.0.0")),
        Err(LibraryError::IncompatibleVersionNumber { .. })
    ));
}

#[test]
fn unparsable_version_is_its_own_error() {
    match check_version(&expected("1.0.0"), &vs("one.two")) {
        Err(LibraryError::ParseVersionError(e)) => assert_eq!(e.version, "one.two"),
        other => panic!("unexpected result {:?}", other),
    }
    match check_version(&expected("1.0"), &vs("1.0.0")) {
        Err(LibraryError::ParseVersionError(e)) => assert_eq!(e.version, "1.0"),
        other => panic!("unexpected result {:?}", other),
    }
}

#[test]
fn root_module_is_initialized_once() {
    let mut lib = library("1.4.0", Some(root_layout(Primitive::FnPointer, 8)));
    assert!(lib.module().is_none());
    assert_eq!(lib.init_root_module(&expected("1.0.0")).ok(), Some(77));
    assert_eq!(lib.module(), Some(77));
    assert_eq!(lib.load_root_module(&expected("1.0.0")).ok(), Some(77));
}

#[test]
fn incompatible_layout_is_reported_and_leaves_module_unset() {
    let mut lib = library("1.4.0", Some(root_layout(Primitive::U64, 8)));
    match lib.init_root_module(&expected("1.0.0")) {
        Err(LibraryError::AbiInstability(rep)) => {
            assert_eq!(rep.expected_name, "RootMod");
            assert_eq!(rep.findings.len(), 1);
        }
        other => panic!("unexpected result {:?}", other),
    }
    assert!(lib.module().is_none());
}

#[test]
fn version_is_checked_before_layout() {
    let mut lib = library("2.0.0", Some(root_layout(Primitive::U64, 8)));
    assert!(matches!(
        lib.init_root_module(&expected("1.0.0")),
        Err(LibraryError::IncompatibleVersionNumber { .. })
    ));
}

#[test]
fn module_without_layout_is_trusted() {
    let mut lib = library("1.0.0", None);
    assert!(lib.layout().is_none());
    assert_eq!(lib.load_root_module(&expected("1.0.0")).ok(), Some(77));
}

#[test]
fn header_accessors() {
    let lib = LibHeader::from_module(9u64, RootModuleConsts {
        name: "text_ops".to_string(),
        version_strings: vs("0.3.1"),
        layout: Some(root_layout(Primitive::U8, 1)),
    });
    assert_eq!(lib.module(), Some(9));
    assert_eq!(lib.version_strings().version, "0.3.1");
    assert_eq!(lib.root_mod_consts().name, "text_ops");
    assert_eq!(lib.layout().map(|l| l.root), Some(0));
    assert!(lib.header().is_valid());
}

#[test]
fn check_layout_alone_sets_the_module() {
    let mut lib = library("9.9.9", Some(root_layout(Primitive::FnPointer, 8)));
    let expected = root_layout(Primitive::FnPointer, 8);
    assert_eq!(lib.check_layout(&expected).ok(), Some(77));
    assert_eq!(lib.module(), Some(77));
    let mut bad = library("1.0.0", Some(root_layout(Primitive::FnPointer, 4)));
    assert!(matches!(bad.check_layout(&expected), Err(LibraryError::AbiInstability(_))));
    assert!(bad.module().is_none());
}

#[test]
fn unchecked_layout_skips_the_layout() {
    let mut lib = library("1.3.0", Some(root_layout(Primitive::U8, 1)));
    assert_eq!(lib.init_root_module_with_unchecked_layout(&expected("1.0.0")).ok(), Some(77));
    let mut old = library("0.1.0", Some(root_layout(Primitive::U8, 1)));
    assert!(matches!(
        old.init_root_module_with_unchecked_layout(&expected("0.2.0")),
        Err(LibraryError::IncompatibleVersionNumber { .. })
    ));
    assert!(old.module().is_none());
    assert_eq!(old.unchecked_layout(), 77);
    assert_eq!(old.module(), Some(77));
}

#[test]
fn graph_well_formedness() {
    let good = root_layout(Primitive::U8, 1);
    assert!(good.graph.is_wf());
    let mut bad = root_layout(Primitive::U8, 1);
    bad.graph.nodes.pop();
    assert!(!bad.graph.is_wf());
}

#[test]
fn invalid_header_is_rejected_whatever_the_layout() {
    let mut broken = root_layout(Primitive::U8, 1);
    broken.graph.nodes.pop();
    let consts = RootModuleConsts {
        name: "text_ops".to_string(),
        version_strings: vs("1.0.0"),
        layout: Some(broken),
    };
    let header = AbiHeader::new(AbiHeader::value().magic_string, ABI_MAJOR + 1, 0);
    let mut lib = LibHeader::new(header, consts, 77u64);
    assert!(matches!(
        lib.load_root_module(&expected("1.0.0")),
        Err(LibraryError::InvalidAbiHeader(h)) if h.abi_major == ABI_MAJOR + 1
    ));
}

#[test]
fn handshake_relays_the_version_error() {
    let mut lib = library("0.1.0", Some(root_layout(Primitive::U8, 1)));
    match lib.load_root_module(&expected("0.2.0")) {
        Err(LibraryError::IncompatibleVersionNumber { expected_version, actual_version, .. }) => {
            assert_eq!(expected_version.minor, 2);
            assert_eq!(actual_version.minor, 1);
        }
        other => panic!("unexpected result {:?}", other),
    }
}
