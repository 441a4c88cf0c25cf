use rust_scanner::path::{is_critical_skip_name, is_parent_or_same, Component, ScanPath};
use std::path::Path;

fn scan_path(path: &str) -> ScanPath {
    let components = Path::new(path)
        .components()
        .map(|c| match c {
            std::path::Component::RootDir => Component::RootDir,
            std::path::Component::CurDir => Component::CurDir,
            std::path::Component::ParentDir => Component::ParentDir,
            _ => Component::Normal(c.as_os_str().as_encoded_bytes().to_vec()),
        })
        .collect();
    ScanPath { components }
}

const PATHS: [&str; 22] = [
    "", "/", ".", "..", "/data", "/data/", "/data/a", "/data//a/b", "/database", "data", "./data",
    "data/..", "/data/./a", "/data/a/b/c", "//", "/.", "./", "././a", "/../a", "a/.b/..c/...",
    "//data", "/data/a/.//",
];

#[test]
fn components_agree_with_std_paths() {
    for path in PATHS {
        let split = ScanPath::from_bytes(path.as_bytes()).components;
        let expected = scan_path(path).components;
        assert_eq!(split.len(), expected.len(), "{path}");
        assert!(split.iter().zip(&expected).all(|(a, b)| a.same(b)), "{path}");
    }
}

#[test]
fn bytes_that_are_no_text_are_kept() {
    let split = ScanPath::from_bytes(b"/\xff\xfe/a").components;
    assert_eq!(split.len(), 3);
    assert!(split[1].same(&Component::Normal(b"\xff\xfe".to_vec())));
}

#[test]
fn separators_and_dots_in_excess_are_ignored() {
    let plain = ScanPath::from_bytes(b"/data/a");
    for spelled in ["/data/a/", "/data/a//", "//data//a", "/data/./a", "/./data/a/."] {
        let path = ScanPath::from_bytes(spelled.as_bytes());
        assert!(is_parent_or_same(&plain, &path), "{spelled}");
        assert!(is_parent_or_same(&path, &plain), "{spelled}");
    }
    let other = ScanPath::from_bytes(b"/data/x/../a");
    assert!(!is_parent_or_same(&plain, &other));
    assert_eq!(other.components.len(), 5);
    assert!(!is_parent_or_same(&ScanPath::from_bytes(b"./data"), &ScanPath::from_bytes(b"data")));
}

#[test]
fn a_directory_contains_what_is_named_below_it() {
    for directory in ["/data", "/", "data", ".."] {
        let below = format!("{directory}/x/y");
        let above = ScanPath::from_bytes(directory.as_bytes());
        assert!(is_parent_or_same(&above, &ScanPath::from_bytes(below.as_bytes())), "{directory}");
    }
}

#[test]
fn above_agrees_with_std_paths() {
    for parent in PATHS {
        for child in PATHS {
            assert_eq!(
                is_parent_or_same(&scan_path(parent), &scan_path(child)),
                Path::new(child).starts_with(Path::new(parent)),
                "{parent} and {child}"
            );
        }
    }
}

#[test]
fn file_name_agrees_with_std_paths() {
    for path in PATHS {
        let expected = Path::new(path)
            .file_name()
            .map(|name| name.as_encoded_bytes().to_vec());
        assert_eq!(scan_path(path).file_name().cloned(), expected, "{path}");
    }
}

#[test]
fn only_whole_components_match() {
    assert!(is_parent_or_same(&scan_path("/data"), &scan_path("/data/a")));
    assert!(is_parent_or_same(&scan_path("/data"), &scan_path("/data")));
    assert!(!is_parent_or_same(&scan_path("/data"), &scan_path("/database")));
    assert!(!is_parent_or_same(&scan_path("/data/a"), &scan_path("/data")));
}

#[test]
fn components_are_compared_by_kind_and_name() {
    let name = |bytes: &[u8]| Component::Normal(bytes.to_vec());
    assert!(Component::RootDir.same(&Component::RootDir));
    assert!(Component::CurDir.same(&Component::CurDir));
    assert!(Component::ParentDir.same(&Component::ParentDir));
    assert!(!Component::CurDir.same(&Component::ParentDir));
    assert!(name(b"a").same(&name(b"a")));
    assert!(!name(b"a").same(&name(b"ab")));
    assert!(!name(b"a").same(&name(b"b")));
    assert!(!name(b".").same(&Component::CurDir));
}

#[test]
fn critical_names_are_matched_exactly() {
    for name in [".snapshot", ".snapshots", ".zfs", "proc", "sys", "dev", ".nfs"] {
        assert!(is_critical_skip_name(name.as_bytes()), "{name}");
        assert!(scan_path(&format!("/mnt/{name}")).is_critical(), "{name}");
        assert!(!scan_path(&format!("/{name}/inner")).is_critical(), "{name}");
    }
    for name in ["", "Proc", "process", ".snap", ".nfs0001", "device"] {
        assert!(!is_critical_skip_name(name.as_bytes()), "{name}");
    }
    assert!(!is_critical_skip_name(b"proc\xff"));
    assert!(!scan_path("/").is_critical());
    assert!(!scan_path("/proc/..").is_critical());
}
