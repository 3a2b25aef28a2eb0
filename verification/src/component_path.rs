//! A path held directly as its sequence of components.
//!
//! This is the reference path representation: every operation on it,
//! including the native join and parent operations themselves, is verified
//! against the component-level semantics.

use crate::component::{
    append_components, clone_components, component_eq, comps_view, Comp, Component,
};
use crate::ops::PathOps;
use crate::safety::strip_leading_cur;
use vstd::prelude::*;

verus! {

/// A path as an owned sequence of components.
#[derive(Debug, Clone, PartialEq, Eq)]
pub struct ComponentPath {
    components: Vec<Component>,
}

impl ComponentPath {
    /// The path with the given components, in order.
    pub fn from_components(components: Vec<Component>) -> (r: Self)
        ensures
            r.comps() == comps_view(components@),
    {
        ComponentPath { components }
    }
}

impl PathOps for ComponentPath {
    closed spec fn comps(&self) -> Seq<Comp> {
        comps_view(self.components@)
    }

    fn components(&self) -> (r: Vec<Component>) {
        clone_components(&self.components)
    }

    fn join(&self, path: &Self) -> (r: Self) {
        let absolute = path.components.len() > 0 && (matches!(
            &path.components[0],
            Component::Prefix(_),
        ) || matches!(&path.components[0], Component::RootDir));
        if absolute || self.components.len() == 0 {
            proof {
                if absolute {
                    assert(path.comps()[0] == path.components@[0]@);
                }
            }
            ComponentPath { components: clone_components(&path.components) }
        } else {
            let skip: usize = if path.components.len() > 0 && matches!(
                &path.components[0],
                Component::CurDir,
            ) {
                1
            } else {
                0
            };
            proof {
                if path.components.len() > 0 {
                    assert(path.comps()[0] == path.components@[0]@);
                }
                assert(strip_leading_cur(path.comps()) =~= path.comps().skip(skip as int));
            }
            let mut out = clone_components(&self.components);
            append_components(&mut out, &path.components, skip);
            proof {
                assert(comps_view(path.components@).skip(skip as int) =~= comps_view(
                    path.components@.skip(skip as int),
                ));
            }
            ComponentPath { components: out }
        }
    }

    fn parent(&self) -> (r: Option<Self>) {
        if self.components.len() == 0 {
            return None;
        }
        let anchored_end = matches!(&self.components[self.components.len() - 1], Component::Prefix(_))
            || matches!(&self.components[self.components.len() - 1], Component::RootDir);
        proof {
            assert(self.comps().last() == self.components@[self.components@.len() - 1]@);
        }
        if anchored_end {
            None
        } else {
            let mut out = clone_components(&self.components);
            out.pop();
            proof {
                assert(comps_view(out@) =~= self.comps().drop_last());
            }
            Some(ComponentPath { components: out })
        }
    }

    fn starts_with(&self, base: &Self) -> (r: bool) {
        if base.components.len() > self.components.len() {
            proof {
                assert(!base.comps().is_prefix_of(self.comps()));
            }
            return false;
        }
        let mut i: usize = 0;
        while i < base.components.len()
            invariant
                i <= base.components@.len() <= self.components@.len(),
                forall|j: int| 0 <= j < i ==> base.comps()[j] == self.comps()[j],
            decreases base.components@.len() - i,
        {
            if !component_eq(&self.components[i], &base.components[i]) {
                proof {
                    assert(base.comps()[i as int] == base.components@[i as int]@);
                    assert(self.comps()[i as int] == self.components@[i as int]@);
                    assert(!base.comps().is_prefix_of(self.comps()));
                }
                return false;
            }
            proof {
                assert(base.comps()[i as int] == base.components@[i as int]@);
                assert(self.comps()[i as int] == self.components@[i as int]@);
            }
            i = i + 1;
        }
        proof {
            assert(base.comps() =~= self.comps().subrange(0, base.comps().len() as int));
        }
        true
    }
}

} // verus!
