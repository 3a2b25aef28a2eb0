//! Scenario tests for the safe operations on camino paths, and agreement
//! between the camino-backed and the component-backed representations.

use camino::Utf8PathBuf;
use safe_path::{Component, ComponentPath, PathOps, SafePath, UnsafeOperation};

fn up(s: &str) -> Utf8PathBuf {
    Utf8PathBuf::from(s)
}

fn cp(s: &str) -> ComponentPath {
    let mut v = Vec::new();
    for c in camino::Utf8Path::new(s).components() {
        v.push(match c {
            camino::Utf8Component::Prefix(p) => Component::Prefix(p.as_str().to_string()),
            camino::Utf8Component::RootDir => Component::RootDir,
            camino::Utf8Component::CurDir => Component::CurDir,
            camino::Utf8Component::ParentDir => Component::ParentDir,
            camino::Utf8Component::Normal(n) => Component::Normal(n.to_string()),
        });
    }
    ComponentPath::from_components(v)
}

#[test]
fn camino_join_normal_segment() {
    assert_eq!(up("x").safe_join(&up("y")), Ok(up("x/y")));
}

#[test]
fn camino_join_parent_dir_fails() {
    assert_eq!(up("x").safe_join(&up("..")), Err(UnsafeOperation::Join));
}

#[test]
fn camino_join_cur_dir_modes() {
    assert_eq!(up("x").safe_join(&up(".")), Err(UnsafeOperation::Join));
    // camino compares paths by components, so `x/.` is the path `x`
    assert_eq!(up("x").relaxed_safe_join(&up(".")), Ok(up("x")));
}

#[test]
fn camino_join_onto_root() {
    assert_eq!(up("/").safe_join(&up("..")), Err(UnsafeOperation::Join));
    assert_eq!(up("/").relaxed_safe_join(&up("..")), Ok(up("/..")));
    assert_eq!(up("/").safe_join(&up("/y")), Ok(up("/y")));
    assert_eq!(up("x").safe_join(&up("/y")), Err(UnsafeOperation::Join));
}

#[test]
fn camino_join_net_negative_fragment_fails() {
    assert_eq!(up("x").safe_join(&up("y/../../z")), Err(UnsafeOperation::Join));
}

#[test]
fn camino_parent() {
    assert_eq!(up("x/y").safe_parent(), Ok(Some(up("x"))));
    assert_eq!(up("x").safe_parent(), Ok(Some(up(""))));
    assert_eq!(up("/").safe_parent(), Err(UnsafeOperation::Parent));
    assert_eq!(up("/").relaxed_safe_parent(), Ok(None));
    assert_eq!(up("/..").relaxed_safe_parent(), Ok(Some(up("/"))));
    assert_eq!(up("x/..").relaxed_safe_parent(), Err(UnsafeOperation::Parent));
}

#[test]
fn camino_root_detector() {
    assert!(up("/").is_root());
    assert!(up("/x/..").is_root());
    assert!(up("/..").is_root());
    assert!(!up("").is_root());
    assert!(!up("x").is_root());
    assert!(!up("x/..").is_root());
}

#[test]
fn camino_starts_with() {
    assert!(up("/etc/passwd").starts_with(&up("/etc")));
    assert!(!up("/etc/foo.rs").starts_with(&up("/etc/foo")));
    assert!(!up("/etc").starts_with(&up("/etc/passwd")));
}

#[test]
fn camino_components_decompose() {
    let comps = up("/a/./b/../c").components();
    assert_eq!(
        comps,
        vec![
            Component::RootDir,
            Component::Normal("a".to_string()),
            Component::Normal("b".to_string()),
            Component::ParentDir,
            Component::Normal("c".to_string()),
        ]
    );
}

#[test]
fn representations_agree() {
    let paths = [
        "", ".", "..", "/", "x", "x/y", "/x", "/x/y", "./x", "../x", "x/..", "/..", "/x/..",
        "a/b/../../..", "./..", "x/./y",
    ];
    for b in paths {
        assert_eq!(up(b).is_root(), cp(b).is_root(), "is_root {b}");
        assert_eq!(
            up(b).safe_parent().is_ok(),
            cp(b).safe_parent().is_ok(),
            "safe_parent {b}"
        );
        assert_eq!(
            up(b).relaxed_safe_parent().is_ok(),
            cp(b).relaxed_safe_parent().is_ok(),
            "relaxed_safe_parent {b}"
        );
        for f in paths {
            assert_eq!(
                up(b).safe_join(&up(f)).is_ok(),
                cp(b).safe_join(&cp(f)).is_ok(),
                "safe_join {b} {f}"
            );
            assert_eq!(
                up(b).relaxed_safe_join(&up(f)).is_ok(),
                cp(b).relaxed_safe_join(&cp(f)).is_ok(),
                "relaxed_safe_join {b} {f}"
            );
        }
    }
}
