//! The component-wise safety semantics: what it means for a join or a
//! parent operation to stay inside the base, and what the native join and
//! parent operations do, stated over component sequences.

use crate::component::{is_anchor, Comp};
use vstd::prelude::*;

verus! {

/// One step of the root detector's walk. `n` is the optional depth below
/// the most recent root anchor; it stays unset until an anchor is seen,
/// and it never drops below zero (descending past a detected root leaves
/// the verdict unchanged).
pub open spec fn root_step(n: Option<int>, c: Comp) -> Option<int> {
    match c {
        Comp::Prefix(_) => Some(0int),
        Comp::RootDir => Some(0int),
        Comp::CurDir => n,
        Comp::ParentDir => match n {
            None => None,
            Some(k) => Some(if k <= 0 { k } else { k - 1 }),
        },
        Comp::Normal(_) => match n {
            None => None,
            Some(k) => Some(k + 1),
        },
    }
}

/// The root detector's walk over a whole component sequence.
pub open spec fn root_fold(s: Seq<Comp>) -> Option<int>
    decreases s.len(),
{
    if s.len() == 0 {
        None
    } else {
        root_step(root_fold(s.drop_last()), s.last())
    }
}

/// A path is logically the root when it is anchored at a root and every
/// later `..`/name pair cancels out exactly. A path without an anchor is
/// never the root.
pub open spec fn is_root_comps(s: Seq<Comp>) -> bool {
    root_fold(s) == Some(0int)
}

/// One step of the join-safety walk over the fragment. `n` counts how many
/// ordinary segments deep the walk currently is below the base; `None`
/// records that the walk has already failed.
///
/// An anchor in the fragment discards the base under native join
/// semantics, so it is tolerated only when the base is itself the root
/// (the accounting then restarts at the root). A `..` at depth zero tries
/// to ascend out of the base, which only the root can absorb.
pub open spec fn join_step(base_root: bool, n: Option<int>, c: Comp) -> Option<int> {
    match n {
        None => None,
        Some(k) => match c {
            Comp::Prefix(_) => if base_root {
                Some(0int)
            } else {
                None
            },
            Comp::RootDir => if base_root {
                Some(0int)
            } else {
                None
            },
            Comp::CurDir => Some(k),
            Comp::ParentDir => if k <= 0 {
                if base_root {
                    Some(k)
                } else {
                    None
                }
            } else {
                Some(k - 1)
            },
            Comp::Normal(_) => Some(k + 1),
        },
    }
}

/// The join-safety walk over a whole fragment.
pub open spec fn join_fold(base_root: bool, s: Seq<Comp>) -> Option<int>
    decreases s.len(),
{
    if s.len() == 0 {
        Some(0int)
    } else {
        join_step(base_root, join_fold(base_root, s.drop_last()), s.last())
    }
}

/// Joining `frag` onto `base` is safe when the walk never fails and ends
/// at positive depth; at depth zero the join makes no forward progress
/// (the result names the base itself), which only relaxed mode accepts.
pub open spec fn join_safe(base: Seq<Comp>, frag: Seq<Comp>, relaxed: bool) -> bool {
    match join_fold(is_root_comps(base), frag) {
        None => false,
        Some(n) => n > 0 || (relaxed && n == 0),
    }
}

/// Drops a leading `.`; decomposing a path keeps `.` only at the front,
/// and appending such a fragment behind a non-empty base drops it.
pub open spec fn strip_leading_cur(s: Seq<Comp>) -> Seq<Comp> {
    if s.len() > 0 && s[0] is CurDir {
        s.drop_first()
    } else {
        s
    }
}

/// What the native join operation does, at the level of components, for
/// prefix-free paths: an absolute fragment replaces the base entirely,
/// and a relative fragment is appended behind the base.
pub open spec fn join_comps(a: Seq<Comp>, b: Seq<Comp>) -> Seq<Comp> {
    if b.len() > 0 && is_anchor(b[0]) {
        b
    } else if a.len() == 0 {
        b
    } else {
        a + strip_leading_cur(b)
    }
}

/// What the native parent operation does, at the level of components:
/// nothing for an empty path or one that ends in a root anchor, and
/// otherwise the path without its final component.
pub open spec fn parent_comps(s: Seq<Comp>) -> Option<Seq<Comp>> {
    if s.len() == 0 || is_anchor(s.last()) {
        None
    } else {
        Some(s.drop_last())
    }
}

/// Taking the parent of `base` is safe in the strict sense only when the
/// final component is an ordinary segment: removing it cannot move above
/// the segment's own directory. Every degenerate case (no components, a
/// trailing anchor or `.`) is accepted only in relaxed mode, and a
/// trailing `..` additionally requires that the level above is already
/// the root, so the ascent is bounded.
pub open spec fn parent_safe(s: Seq<Comp>, relaxed: bool) -> bool {
    if s.len() == 0 {
        relaxed
    } else {
        match s.last() {
            Comp::Prefix(_) => relaxed,
            Comp::RootDir => relaxed,
            Comp::CurDir => relaxed,
            Comp::ParentDir => relaxed && match parent_comps(s) {
                None => true,
                Some(p) => is_root_comps(p),
            },
            Comp::Normal(_) => true,
        }
    }
}

} // verus!
