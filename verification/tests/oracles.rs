//! Cross-checks against independently implemented normalizers: the
//! checks' verdicts must match what lexical normalization says about
//! containment, and the root detector must agree with normalization to
//! the root.

use lexiclean::Lexiclean;
use path_clean::PathClean;
use safe_path::{Component, ComponentPath, PathOps, SafePath};
use std::path::{Path, PathBuf};

fn cp(s: &str) -> ComponentPath {
    let mut v = Vec::new();
    for c in camino::Utf8Path::new(s).components() {
        v.push(match c {
            camino::Utf8Component::Prefix(p) => Component::Prefix(p.as_str().to_string()),
            camino::Utf8Component::RootDir => Component::RootDir,
            camino::Utf8Component::CurDir => Component::CurDir,
            camino::Utf8Component::ParentDir => Component::ParentDir,
            camino::Utf8Component::Normal(n) => Component::Normal(n.to_string()),
        });
    }
    ComponentPath::from_components(v)
}

/// Prepends `n` fresh ordinary segments in front of a relative path, so
/// that ascending above a relative starting point stays visible to a
/// normalizer.
fn paternalize(p: &Path, n: usize) -> PathBuf {
    if p.is_relative() {
        let mut q = PathBuf::new();
        for _ in 0..n {
            q.push("pad");
        }
        q.push(p);
        q
    } else {
        p.to_path_buf()
    }
}

/// The containment side of the guarantee, computed with an independent
/// normalization oracle: every prefix of the fragment, joined onto the
/// base, must normalize to something below the normalized base.
fn oracle_contained(base: &str, frag: &str, norm: &dyn Fn(&Path) -> PathBuf) -> bool {
    let base_p = Path::new(base);
    let frag_p = Path::new(frag);
    let n = base_p.components().count() + frag_p.components().count();
    let nb = norm(&paternalize(base_p, n));
    let comps: Vec<_> = frag_p.components().collect();
    for m in 0..=comps.len() {
        let prefix: PathBuf = comps[..m].iter().collect();
        let joined = base_p.join(&prefix);
        if !norm(&paternalize(&joined, n)).starts_with(&nb) {
            return false;
        }
    }
    true
}

/// The distinctness side of the strict guarantee: the full join must not
/// normalize back to the base itself.
fn oracle_distinct(base: &str, frag: &str, norm: &dyn Fn(&Path) -> PathBuf) -> bool {
    let base_p = Path::new(base);
    let frag_p = Path::new(frag);
    let n = base_p.components().count() + frag_p.components().count();
    norm(&paternalize(&base_p.join(frag_p), n)) != norm(&paternalize(base_p, n))
}

const CASES: [(&str, &str); 24] = [
    ("x", "y"),
    ("x", ".."),
    ("x", "."),
    ("/", ".."),
    ("/", "../y"),
    ("x", "y/../../z"),
    ("x", "/y"),
    ("/", "/y"),
    ("", "y"),
    ("", ".."),
    ("", ""),
    (".", "y/.."),
    ("./w", "y/../../z"),
    ("a/b", "../.."),
    ("a/b", ".."),
    ("/a", "../.."),
    ("..", "x"),
    ("..", ".."),
    ("/a/b", "c/./d/../.."),
    ("x", "./y"),
    ("/", "."),
    ("x/..", "y"),
    ("/x/..", "../y"),
    ("a", "b/c/../d"),
];

#[test]
fn join_containment_equivalence_lexiclean() {
    let norm: &dyn Fn(&Path) -> PathBuf = &|p: &Path| p.lexiclean();
    for (b, f) in CASES {
        let strict = cp(b).safe_join(&cp(f)).is_ok();
        let relaxed = cp(b).relaxed_safe_join(&cp(f)).is_ok();
        assert_eq!(relaxed, oracle_contained(b, f, norm), "relaxed {b:?} {f:?}");
        assert_eq!(
            strict,
            oracle_contained(b, f, norm) && oracle_distinct(b, f, norm),
            "strict {b:?} {f:?}"
        );
    }
}

#[test]
fn join_containment_equivalence_path_clean() {
    let norm: &dyn Fn(&Path) -> PathBuf = &|p: &Path| p.clean();
    for (b, f) in CASES {
        let strict = cp(b).safe_join(&cp(f)).is_ok();
        let relaxed = cp(b).relaxed_safe_join(&cp(f)).is_ok();
        assert_eq!(relaxed, oracle_contained(b, f, norm), "relaxed {b:?} {f:?}");
        assert_eq!(
            strict,
            oracle_contained(b, f, norm) && oracle_distinct(b, f, norm),
            "strict {b:?} {f:?}"
        );
    }
}

#[test]
fn oracles_agree_with_each_other() {
    let lex: &dyn Fn(&Path) -> PathBuf = &|p: &Path| p.lexiclean();
    let pc: &dyn Fn(&Path) -> PathBuf = &|p: &Path| p.clean();
    for (b, f) in CASES {
        assert_eq!(
            oracle_contained(b, f, lex),
            oracle_contained(b, f, pc),
            "contained {b:?} {f:?}"
        );
        assert_eq!(
            oracle_distinct(b, f, lex),
            oracle_distinct(b, f, pc),
            "distinct {b:?} {f:?}"
        );
    }
}

#[test]
fn root_detector_matches_normalization_to_depth_four() {
    let tokens = ["/", ".", "..", "x"];
    let mut stack: Vec<String> = tokens.iter().map(|t| t.to_string()).collect();
    let mut all: Vec<String> = Vec::new();
    for _ in 0..4 {
        let mut next = Vec::new();
        for s in &stack {
            all.push(s.clone());
            for t in tokens {
                next.push(format!("{s}/{t}"));
            }
        }
        stack = next;
    }
    for s in &all {
        let p = Path::new(s);
        let by_lexiclean = p.lexiclean() == Path::new("/");
        let by_path_clean = p.clean() == Path::new("/");
        let by_detector = cp(s).is_root();
        assert_eq!(by_detector, by_lexiclean, "lexiclean {s:?}");
        assert_eq!(by_detector, by_path_clean, "path_clean {s:?}");
    }
}

/// The parent-side containment oracle: either there is no parent, or the
/// base normalizes to something below the normalized parent.
fn oracle_parent_contained(base: &str, norm: &dyn Fn(&Path) -> PathBuf) -> bool {
    let base_p = Path::new(base);
    let n = base_p.components().count();
    match base_p.parent() {
        None => true,
        Some(parent) => {
            norm(&paternalize(base_p, n)).starts_with(norm(&paternalize(parent, n)))
        }
    }
}

/// The distinctness side of the strict parent guarantee.
fn oracle_parent_distinct(base: &str, norm: &dyn Fn(&Path) -> PathBuf) -> bool {
    let base_p = Path::new(base);
    let n = base_p.components().count();
    match base_p.parent() {
        None => false,
        Some(parent) => norm(&paternalize(parent, n)) != norm(&paternalize(base_p, n)),
    }
}

#[test]
fn parent_containment_equivalence() {
    let bases = [
        "", ".", "..", "/", "/..", "x", "x/y", "x/..", "/x", "/x/..", "/../..", "a/b/..",
        "../..", "./x", "/x/y/..",
    ];
    for norm in [
        &(|p: &Path| p.lexiclean()) as &dyn Fn(&Path) -> PathBuf,
        &(|p: &Path| p.clean()) as &dyn Fn(&Path) -> PathBuf,
    ] {
        for b in bases {
            let relaxed = cp(b).relaxed_safe_parent().is_ok();
            let strict = cp(b).safe_parent().is_ok();
            assert_eq!(relaxed, oracle_parent_contained(b, norm), "relaxed {b:?}");
            assert_eq!(
                strict,
                oracle_parent_contained(b, norm) && oracle_parent_distinct(b, norm),
                "strict {b:?}"
            );
        }
    }
}
