//! The component model: a path is an ordered sequence of components.

use vstd::prelude::*;

verus! {

/// Specification-level form of a path component. Names are sequences of
/// characters; the safety checks themselves never look at the characters,
/// but join and parent results are stated over them.
pub ghost enum Comp {
    /// A platform volume anchor (a drive prefix); treated like a root.
    Prefix(Seq<char>),
    /// The filesystem root anchor.
    RootDir,
    /// The current-directory marker `.`.
    CurDir,
    /// The parent-directory marker `..`.
    ParentDir,
    /// An ordinary path segment.
    Normal(Seq<char>),
}

/// Executable form of a path component.
#[derive(Debug, Clone, PartialEq, Eq)]
pub enum Component {
    /// A platform volume anchor (a drive prefix); treated like a root.
    Prefix(String),
    /// The filesystem root anchor.
    RootDir,
    /// The current-directory marker `.`.
    CurDir,
    /// The parent-directory marker `..`.
    ParentDir,
    /// An ordinary path segment.
    Normal(String),
}

impl View for Component {
    type V = Comp;

    open spec fn view(&self) -> Comp {
        match self {
            Component::Prefix(s) => Comp::Prefix(s@),
            Component::RootDir => Comp::RootDir,
            Component::CurDir => Comp::CurDir,
            Component::ParentDir => Comp::ParentDir,
            Component::Normal(s) => Comp::Normal(s@),
        }
    }
}

/// The component-level view of a sequence of executable components.
pub open spec fn comps_view(s: Seq<Component>) -> Seq<Comp> {
    s.map_values(|c: Component| c@)
}

/// True of the anchoring components, which pin a path to a known root.
pub open spec fn is_anchor(c: Comp) -> bool {
    c is RootDir || c is Prefix
}

/// A component sequence as it can come out of decomposing a real path:
/// a root anchor only at the front (or right after a volume prefix), a
/// volume prefix only at the very front, and `.` only as the first
/// component. Decomposition drops every other occurrence of `.`.
pub open spec fn wf_comps(s: Seq<Comp>) -> bool {
    forall|i: int|
        0 < i < s.len() ==> ((#[trigger] s[i]) is ParentDir || s[i] is Normal || (i == 1
            && s[i] is RootDir && s[0] is Prefix))
}

/// True when the sequence holds no volume prefix; every path on a
/// platform without drive letters satisfies it.
pub open spec fn prefix_free(s: Seq<Comp>) -> bool {
    forall|i: int| 0 <= i < s.len() ==> !((#[trigger] s[i]) is Prefix)
}

/// Copies a component; the copy has the same view.
pub fn clone_component(c: &Component) -> (r: Component)
    ensures
        r@ == c@,
{
    match c {
        Component::Prefix(s) => Component::Prefix(s.clone()),
        Component::RootDir => Component::RootDir,
        Component::CurDir => Component::CurDir,
        Component::ParentDir => Component::ParentDir,
        Component::Normal(s) => Component::Normal(s.clone()),
    }
}

/// Copies a whole component sequence; the copy has the same view.
pub fn clone_components(src: &Vec<Component>) -> (r: Vec<Component>)
    ensures
        comps_view(r@) == comps_view(src@),
        r@.len() == src@.len(),
{
    let mut out: Vec<Component> = Vec::new();
    let mut i: usize = 0;
    while i < src.len()
        invariant
            i <= src.len(),
            out@.len() == i,
            comps_view(out@) == comps_view(src@).take(i as int),
        decreases src.len() - i,
    {
        out.push(clone_component(&src[i]));
        proof {
            assert(comps_view(out@) =~= comps_view(src@).take(i as int + 1));
        }
        i = i + 1;
    }
    proof {
        assert(comps_view(src@).take(src@.len() as int) =~= comps_view(src@));
    }
    out
}

/// Appends copies of `src`'s components, from index `from` on, behind the
/// components already in `out`.
pub fn append_components(out: &mut Vec<Component>, src: &Vec<Component>, from: usize)
    requires
        from <= src@.len(),
    ensures
        comps_view(final(out)@) == comps_view(old(out)@) + comps_view(src@).skip(from as int),
{
    let ghost base = out@;
    let mut i: usize = from;
    while i < src.len()
        invariant
            from <= i <= src.len(),
            comps_view(out@) == comps_view(base) + comps_view(src@).subrange(
                from as int,
                i as int,
            ),
        decreases src.len() - i,
    {
        let c = clone_component(&src[i]);
        proof {
            assert(c@ == comps_view(src@)[i as int]);
        }
        let ghost before = out@;
        out.push(c);
        proof {
            assert(comps_view(out@) =~= comps_view(before).push(c@));
            assert(comps_view(before).push(c@) =~= comps_view(base) + comps_view(src@).subrange(
                from as int,
                i as int + 1,
            ));
        }
        i = i + 1;
    }
    proof {
        assert(comps_view(src@).subrange(from as int, src@.len() as int) =~= comps_view(
            src@,
        ).skip(from as int));
        assert(base == old(out)@);
    }
}

/// Compares two components at the level of their views.
pub fn component_eq(a: &Component, b: &Component) -> (r: bool)
    ensures
        r == (a@ == b@),
{
    match (a, b) {
        (Component::Prefix(x), Component::Prefix(y)) => *x == *y,
        (Component::RootDir, Component::RootDir) => true,
        (Component::CurDir, Component::CurDir) => true,
        (Component::ParentDir, Component::ParentDir) => true,
        (Component::Normal(x), Component::Normal(y)) => *x == *y,
        _ => false,
    }
}

} // verus!
