//! Scenario tests for the safe operations on the library's own path type.

use safe_path::{Component, ComponentPath, PathOps, SafePath, UnsafeOperation};

fn cp(s: &str) -> ComponentPath {
    let mut v = Vec::new();
    for c in camino::Utf8Path::new(s).components() {
        v.push(match c {
            camino::Utf8Component::Prefix(p) => Component::Prefix(p.as_str().to_string()),
            camino::Utf8Component::RootDir => Component::RootDir,
            camino::Utf8Component::CurDir => Component::CurDir,
            camino::Utf8Component::ParentDir => Component::ParentDir,
            camino::Utf8Component::Normal(n) => Component::Normal(n.to_string()),
        });
    }
    ComponentPath::from_components(v)
}

#[test]
fn join_normal_segment_succeeds() {
    let r = cp("x").safe_join(&cp("y"));
    assert_eq!(r, Ok(cp("x/y")));
}

#[test]
fn join_parent_dir_fails() {
    let r = cp("x").safe_join(&cp(".."));
    assert_eq!(r, Err(UnsafeOperation::Join));
}

#[test]
fn join_cur_dir_strict_fails_relaxed_succeeds() {
    assert_eq!(cp("x").safe_join(&cp(".")), Err(UnsafeOperation::Join));
    let r = cp("x").relaxed_safe_join(&cp("."));
    assert_eq!(r, Ok(cp("x")));
}

#[test]
fn join_onto_root_ascending_is_bounded() {
    // ascending from the root stays at the root, but makes no forward
    // progress, so strict mode still refuses it
    assert_eq!(cp("/").safe_join(&cp("..")), Err(UnsafeOperation::Join));
    assert_eq!(cp("/").relaxed_safe_join(&cp("..")), Ok(cp("/..")));
    assert_eq!(cp("/").safe_join(&cp("../y")), Ok(cp("/../y")));
}

#[test]
fn join_net_negative_fragment_fails() {
    assert_eq!(cp("x").safe_join(&cp("y/../../z")), Err(UnsafeOperation::Join));
}

#[test]
fn join_absolute_fragment_only_onto_root() {
    assert_eq!(cp("x").safe_join(&cp("/y")), Err(UnsafeOperation::Join));
    assert_eq!(cp("/").safe_join(&cp("/y")), Ok(cp("/y")));
}

#[test]
fn parent_of_normal_segment_succeeds() {
    assert_eq!(cp("x/y").safe_parent(), Ok(Some(cp("x"))));
    assert_eq!(cp("x").safe_parent(), Ok(Some(cp(""))));
}

#[test]
fn parent_of_root_strict_fails_relaxed_succeeds() {
    assert_eq!(cp("/").safe_parent(), Err(UnsafeOperation::Parent));
    assert_eq!(cp("/").relaxed_safe_parent(), Ok(None));
}

#[test]
fn parent_of_empty_and_markers() {
    assert_eq!(cp("").safe_parent(), Err(UnsafeOperation::Parent));
    assert_eq!(cp("").relaxed_safe_parent(), Ok(None));
    assert_eq!(cp(".").safe_parent(), Err(UnsafeOperation::Parent));
    assert_eq!(cp(".").relaxed_safe_parent(), Ok(Some(cp(""))));
}

#[test]
fn parent_of_trailing_parent_dir() {
    // a trailing `..` is accepted only relaxedly, and only when the level
    // above is already the root
    assert_eq!(cp("/..").safe_parent(), Err(UnsafeOperation::Parent));
    assert_eq!(cp("/..").relaxed_safe_parent(), Ok(Some(cp("/"))));
    assert_eq!(cp("x/..").relaxed_safe_parent(), Err(UnsafeOperation::Parent));
    assert_eq!(cp("..").relaxed_safe_parent(), Err(UnsafeOperation::Parent));
}

#[test]
fn root_detector() {
    assert!(cp("/").is_root());
    assert!(cp("/..").is_root());
    assert!(cp("/x/..").is_root());
    assert!(cp("/x/../y/..").is_root());
    assert!(cp("/./.").is_root());
    assert!(!cp("").is_root());
    assert!(!cp(".").is_root());
    assert!(!cp("..").is_root());
    assert!(!cp("x").is_root());
    assert!(!cp("x/..").is_root());
    assert!(!cp("/x").is_root());
    assert!(cp("/x/../..").is_root());
}

#[test]
fn starts_with_compares_whole_components() {
    assert!(cp("/etc/passwd").starts_with(&cp("/etc")));
    assert!(cp("/etc/passwd").starts_with(&cp("/")));
    assert!(cp("/etc/passwd").starts_with(&cp("/etc/passwd")));
    assert!(!cp("/etc/foo.rs").starts_with(&cp("/etc/foo")));
    assert!(!cp("/etc").starts_with(&cp("/etc/passwd")));
    assert!(!cp("/etc").starts_with(&cp("etc")));
}

#[test]
fn error_messages() {
    let j = cp("x").safe_join(&cp("..")).unwrap_err();
    assert_eq!(j.message(), "unsafe join operation");
    let p = cp("/").safe_parent().unwrap_err();
    assert_eq!(p.message(), "unsafe parent operation");
}

#[test]
fn relaxed_weakens_strict_on_samples() {
    let cases = [
        ("x", "y"),
        ("x", ".."),
        ("x", "."),
        ("/", ".."),
        ("/", "y"),
        ("", "y/.."),
        (".", "a/b/../.."),
        ("/a/b", "../.."),
    ];
    for (b, f) in cases {
        let base = cp(b);
        let frag = cp(f);
        if base.safe_join(&frag).is_ok() {
            assert!(base.relaxed_safe_join(&frag).is_ok(), "{b} {f}");
        }
        if base.safe_parent().is_ok() {
            assert!(base.relaxed_safe_parent().is_ok(), "{b}");
        }
    }
}

#[test]
fn normal_descent_always_safe() {
    let bases = ["", ".", "..", "/", "x", "/a/b", "a/..", "/.."];
    for b in bases {
        let base = cp(b);
        let joined = base.safe_join(&cp("s")).unwrap();
        assert!(joined.safe_parent().is_ok(), "{b}");
    }
}

#[test]
fn demo_functions() {
    assert_eq!(safe_path::demo::bar(), cp("x/y"));
    assert_eq!(safe_path::demo::baz(), Some(cp("")));
}

#[test]
fn attack_scenarios() {
    // an attacker-supplied fragment reaching for a file above the base
    assert!(cp("Documents").safe_join(&cp("../.bash_logout")).is_err());
    assert!(cp("Documents/..").safe_parent().is_err());
    // a fragment that dips outside and comes back is still refused
    assert!(cp("srv/www").safe_join(&cp("../www/index.html")).is_err());
    // staying inside is fine
    assert!(cp("srv/www").safe_join(&cp("static/../index.html")).is_ok());
}
