//! Small end-to-end exercises of the native operations on the library's
//! own path type, with their results pinned down exactly.

use crate::component::{prefix_free, Comp, Component};
use crate::component_path::ComponentPath;
use crate::ops::PathOps;
use vstd::prelude::*;

verus! {

broadcast use vstd::string::to_string_from_display_ensures_for_str;

/// Joins the fragment `./y` onto the directory `x` with the native join;
/// the result is the path `x/y`.
pub fn bar() -> (r: ComponentPath)
    ensures
        r.comps() == seq![Comp::Normal("x"@), Comp::Normal("y"@)],
{
    let dir = ComponentPath::from_components(vec![Component::Normal("x".to_string())]);
    let dot = ComponentPath::from_components(vec![Component::CurDir]);
    let y = ComponentPath::from_components(vec![Component::Normal("y".to_string())]);
    proof {
        assert(prefix_free(dir.comps()));
        assert(prefix_free(dot.comps()));
        assert(prefix_free(y.comps()));
    }
    let path = dot.join(&y);
    proof {
        assert(path.comps() =~= seq![Comp::CurDir, Comp::Normal("y"@)]);
        assert(prefix_free(path.comps()));
    }
    let r = dir.join(&path);
    proof {
        assert(r.comps() =~= seq![Comp::Normal("x"@), Comp::Normal("y"@)]);
    }
    r
}

/// Takes the native parent of the single-segment path `x`; the result is
/// the empty path.
pub fn baz() -> (r: Option<ComponentPath>)
    ensures
        r is Some,
        r matches Some(p) ==> p.comps() == Seq::<Comp>::empty(),
{
    let dir = ComponentPath::from_components(vec![Component::Normal("x".to_string())]);
    let r = dir.parent();
    proof {
        assert(dir.comps().last() == Comp::Normal("x"@));
        assert(dir.comps().drop_last() =~= Seq::<Comp>::empty());
    }
    r
}

} // verus!
