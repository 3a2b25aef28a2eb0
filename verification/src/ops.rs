//! The path-like interface and the safe operations built on it.
//!
//! [`PathOps`] is the capability set a path type must expose: decomposition
//! into components, the native join and parent operations, and a
//! component-wise prefix test. The safety checks and the root detector are
//! provided once, generically, on top of `components`. [`SafePath`] wraps
//! the checks and the native operations into the four safe operations.

use crate::component::{comps_view, prefix_free, Comp, Component};
use crate::safety::{
    is_root_comps, join_comps, join_fold, join_safe, join_step, parent_comps, parent_safe,
    root_fold, root_step,
};
use vstd::prelude::*;

verus! {

/// The single error kind: the requested join or parent operation could
/// escape the base, or (in strict mode) would make no forward progress.
#[derive(Debug, Clone, Copy, PartialEq, Eq)]
pub enum UnsafeOperation {
    /// A join would escape the base, or names the base itself.
    Join,
    /// A parent would move above the base, or names the base itself.
    Parent,
}

impl UnsafeOperation {
    /// A human-readable description of the failed operation.
    pub fn message(&self) -> (r: &'static str)
        ensures
            self is Join ==> r@ == "unsafe join operation"@,
            self is Parent ==> r@ == "unsafe parent operation"@,
    {
        match self {
            UnsafeOperation::Join => "unsafe join operation",
            UnsafeOperation::Parent => "unsafe parent operation",
        }
    }
}

/// Relates the walk over a growing prefix of a sequence to one more step.
proof fn lemma_root_fold_take(s: Seq<Comp>, i: int)
    requires
        0 <= i < s.len(),
    ensures
        root_fold(s.take(i + 1)) == root_step(root_fold(s.take(i)), s[i]),
{
    assert(s.take(i + 1).drop_last() =~= s.take(i));
    assert(s.take(i + 1).last() == s[i]);
}

/// Relates the join-safety walk over a growing prefix to one more step.
pub proof fn lemma_join_fold_take(base_root: bool, s: Seq<Comp>, i: int)
    requires
        0 <= i < s.len(),
    ensures
        join_fold(base_root, s.take(i + 1)) == join_step(
            base_root,
            join_fold(base_root, s.take(i)),
            s[i],
        ),
{
    assert(s.take(i + 1).drop_last() =~= s.take(i));
    assert(s.take(i + 1).last() == s[i]);
}

/// Once the join-safety walk has failed on a prefix, it has failed on the
/// whole sequence.
pub proof fn lemma_join_fold_none(base_root: bool, s: Seq<Comp>, j: int)
    requires
        0 <= j <= s.len(),
        join_fold(base_root, s.take(j)) is None,
    ensures
        join_fold(base_root, s) is None,
    decreases s.len() - j,
{
    if j == s.len() {
        assert(s.take(j) =~= s);
    } else {
        lemma_join_fold_take(base_root, s, j);
        lemma_join_fold_none(base_root, s, j + 1);
    }
}

/// The operations a path type must expose so that the safety checks can
/// reason about it. The checks themselves (`is_root`,
/// `check_join_safety`, `check_parent_safety`) are provided generically.
pub trait PathOps: Sized {
    /// The components of the path, in order.
    spec fn comps(&self) -> Seq<Comp>;

    /// Decomposes the path into its components.
    fn components(&self) -> (r: Vec<Component>)
        ensures
            comps_view(r@) == self.comps(),
    ;

    /// The native join operation. On prefix-free paths (every path of a
    /// platform without drive letters) it appends a relative fragment
    /// behind the base and lets an absolute fragment replace the base.
    fn join(&self, path: &Self) -> (r: Self)
        ensures
            prefix_free(self.comps()) && prefix_free(path.comps()) ==> r.comps() == join_comps(
                self.comps(),
                path.comps(),
            ),
    ;

    /// The native parent operation: the path without its final component,
    /// or nothing for an empty path or a bare root anchor.
    fn parent(&self) -> (r: Option<Self>)
        ensures
            r is Some <==> parent_comps(self.comps()) is Some,
            r matches Some(p) ==> Some(p.comps()) == parent_comps(self.comps()),
    ;

    /// Component-wise prefix test.
    fn starts_with(&self, base: &Self) -> (r: bool)
        ensures
            prefix_free(self.comps()) && prefix_free(base.comps()) ==> r == base.comps()
                .is_prefix_of(self.comps()),
    ;

    /// The root detector: true when the path normalizes to the root.
    fn is_root(&self) -> (r: bool)
        ensures
            r == is_root_comps(self.comps()),
    {
        let comps = self.components();
        let ghost cs = self.comps();
        let mut anchored: bool = false;
        let mut n: usize = 0;
        let mut i: usize = 0;
        while i < comps.len()
            invariant
                i <= comps.len(),
                n <= i,
                cs == comps_view(comps@),
                cs == self.comps(),
                anchored ==> root_fold(cs.take(i as int)) == Some(n as int),
                !anchored ==> root_fold(cs.take(i as int)) is None,
            decreases comps.len() - i,
        {
            proof {
                lemma_root_fold_take(cs, i as int);
                assert(cs[i as int] == comps@[i as int]@);
            }
            match &comps[i] {
                Component::Prefix(_) => {
                    anchored = true;
                    n = 0;
                },
                Component::RootDir => {
                    anchored = true;
                    n = 0;
                },
                Component::CurDir => {},
                Component::ParentDir => {
                    if anchored && n > 0 {
                        n = n - 1;
                    }
                },
                Component::Normal(_) => {
                    if anchored {
                        n = n + 1;
                    }
                },
            }
            i = i + 1;
        }
        proof {
            assert(cs.take(cs.len() as int) =~= cs);
        }
        anchored && n == 0
    }

    /// Decides whether joining `path` onto `self` is safe: every prefix of
    /// `path` keeps the result inside `self`, and (unless `relaxed`) the
    /// full join makes forward progress.
    fn check_join_safety(&self, path: &Self, relaxed: bool) -> (r: Result<(), UnsafeOperation>)
        ensures
            r is Ok <==> join_safe(self.comps(), path.comps(), relaxed),
            r matches Err(e) ==> e is Join,
    {
        let base_root = self.is_root();
        let comps = path.components();
        let ghost cs = path.comps();
        let mut n: usize = 0;
        let mut i: usize = 0;
        while i < comps.len()
            invariant
                i <= comps.len(),
                n <= i,
                cs == comps_view(comps@),
                cs == path.comps(),
                base_root == is_root_comps(self.comps()),
                join_fold(base_root, cs.take(i as int)) == Some(n as int),
            decreases comps.len() - i,
        {
            proof {
                lemma_join_fold_take(base_root, cs, i as int);
                assert(cs[i as int] == comps@[i as int]@);
            }
            match &comps[i] {
                Component::Prefix(_) => {
                    if !base_root {
                        proof {
                            lemma_join_fold_none(base_root, cs, i as int + 1);
                        }
                        return Err(UnsafeOperation::Join);
                    }
                    n = 0;
                },
                Component::RootDir => {
                    if !base_root {
                        proof {
                            lemma_join_fold_none(base_root, cs, i + 1);
                        }
                        return Err(UnsafeOperation::Join);
                    }
                    n = 0;
                },
                Component::CurDir => {},
                Component::ParentDir => {
                    if n == 0 {
                        if !base_root {
                            proof {
                                lemma_join_fold_none(base_root, cs, i + 1);
                            }
                            return Err(UnsafeOperation::Join);
                        }
                    } else {
                        n = n - 1;
                    }
                },
                Component::Normal(_) => {
                    n = n + 1;
                },
            }
            i = i + 1;
        }
        proof {
            assert(cs.take(cs.len() as int) =~= cs);
        }
        if n > 0 || (relaxed && n == 0) {
            Ok(())
        } else {
            Err(UnsafeOperation::Join)
        }
    }

    /// Decides whether taking the parent of `self` is safe: strict mode
    /// accepts only a trailing ordinary segment; relaxed mode also accepts
    /// the degenerate cases, and a trailing `..` only when the level above
    /// is already the root.
    fn check_parent_safety(&self, relaxed: bool) -> (r: Result<(), UnsafeOperation>)
        ensures
            r is Ok <==> parent_safe(self.comps(), relaxed),
            r matches Err(e) ==> e is Parent,
    {
        let comps = self.components();
        let ghost cs = self.comps();
        if comps.len() == 0 {
            if relaxed {
                Ok(())
            } else {
                Err(UnsafeOperation::Parent)
            }
        } else {
            proof {
                assert(cs.last() == comps@[comps@.len() - 1]@);
            }
            match &comps[comps.len() - 1] {
                Component::Prefix(_) | Component::RootDir | Component::CurDir => {
                    if relaxed {
                        Ok(())
                    } else {
                        Err(UnsafeOperation::Parent)
                    }
                },
                Component::ParentDir => {
                    if !relaxed {
                        Err(UnsafeOperation::Parent)
                    } else {
                        match self.parent() {
                            None => Ok(()),
                            Some(p) => {
                                if p.is_root() {
                                    Ok(())
                                } else {
                                    Err(UnsafeOperation::Parent)
                                }
                            },
                        }
                    }
                },
                Component::Normal(_) => Ok(()),
            }
        }
    }
}

/// The four safe operations: each runs the corresponding check and
/// performs the native operation only when the check succeeds.
pub trait SafePath: PathOps {
    /// Returns `self.join(path)` if, for every prefix of `path`, the join
    /// stays inside `self`, and the full join does not name `self` itself.
    fn safe_join(&self, path: &Self) -> (r: Result<Self, UnsafeOperation>)
        ensures
            r is Ok <==> join_safe(self.comps(), path.comps(), false),
            r matches Ok(p) ==> (prefix_free(self.comps()) && prefix_free(path.comps())
                ==> p.comps() == join_comps(self.comps(), path.comps())),
            r matches Err(e) ==> e is Join,
    {
        match self.check_join_safety(path, false) {
            Ok(_) => Ok(self.join(path)),
            Err(e) => Err(e),
        }
    }

    /// Like `safe_join`, but also accepts a join whose result names
    /// `self` itself.
    fn relaxed_safe_join(&self, path: &Self) -> (r: Result<Self, UnsafeOperation>)
        ensures
            r is Ok <==> join_safe(self.comps(), path.comps(), true),
            r matches Ok(p) ==> (prefix_free(self.comps()) && prefix_free(path.comps())
                ==> p.comps() == join_comps(self.comps(), path.comps())),
            r matches Err(e) ==> e is Join,
    {
        match self.check_join_safety(path, true) {
            Ok(_) => Ok(self.join(path)),
            Err(e) => Err(e),
        }
    }

    /// Returns `self.parent()` if removing the final component cannot move
    /// above the base: the final component must be an ordinary segment.
    fn safe_parent(&self) -> (r: Result<Option<Self>, UnsafeOperation>)
        ensures
            r is Ok <==> parent_safe(self.comps(), false),
            r matches Ok(o) ==> (o is Some <==> parent_comps(self.comps()) is Some),
            r matches Ok(o) ==> (o matches Some(p) ==> Some(p.comps()) == parent_comps(
                self.comps(),
            )),
            r matches Err(e) ==> e is Parent,
    {
        match self.check_parent_safety(false) {
            Ok(_) => Ok(self.parent()),
            Err(e) => Err(e),
        }
    }

    /// Like `safe_parent`, but also accepts the degenerate cases: an empty
    /// path, a bare root anchor, a trailing `.`, and a trailing `..`
    /// whose level above is already the root.
    fn relaxed_safe_parent(&self) -> (r: Result<Option<Self>, UnsafeOperation>)
        ensures
            r is Ok <==> parent_safe(self.comps(), true),
            r matches Ok(o) ==> (o is Some <==> parent_comps(self.comps()) is Some),
            r matches Ok(o) ==> (o matches Some(p) ==> Some(p.comps()) == parent_comps(
                self.comps(),
            )),
            r matches Err(e) ==> e is Parent,
    {
        match self.check_parent_safety(true) {
            Ok(_) => Ok(self.parent()),
            Err(e) => Err(e),
        }
    }
}

impl<P: PathOps> SafePath for P {

}

} // verus!
