//! UTF-8 paths from the camino crate as a second path representation.
//!
//! `camino::Utf8PathBuf` delegates its path operations to `std::path`, so
//! the operations here are trusted wrappers whose contracts state, at the
//! level of this library's component model, what the platform's own
//! decomposition, join and parent operations are documented to do. The
//! safety checks and the root detector on top of them are the verified
//! generic ones.

use crate::component::{comps_view, prefix_free, Comp, Component};
use crate::ops::PathOps;
use crate::safety::{join_comps, parent_comps};
use vstd::prelude::*;

verus! {

/// Declares camino's owned UTF-8 path type; its values are opaque here
/// and are read only through the wrappers below.
#[verifier::external_type_specification]
#[verifier::external_body]
pub struct ExUtf8PathBuf(camino::Utf8PathBuf);

/// The components of a camino path, in this library's component model.
pub uninterp spec fn utf8_view(p: camino::Utf8PathBuf) -> Seq<Comp>;

/// Relies on camino::Utf8Path::components (std::path::Path::components
/// underneath): decomposes the path into a volume prefix, a root anchor,
/// `.`, `..` and ordinary segments, in order.
#[verifier::external_body]
fn utf8_components(p: &camino::Utf8PathBuf) -> (r: Vec<Component>)
    ensures
        comps_view(r@) == utf8_view(*p),
{
    camino::Utf8Path::components(p.as_path())
        .map(|c| match c {
            camino::Utf8Component::Prefix(q) => Component::Prefix(q.as_str().to_string()),
            camino::Utf8Component::RootDir => Component::RootDir,
            camino::Utf8Component::CurDir => Component::CurDir,
            camino::Utf8Component::ParentDir => Component::ParentDir,
            camino::Utf8Component::Normal(s) => Component::Normal(s.to_string()),
        })
        .collect()
}

/// Relies on camino::Utf8Path::join (std::path::Path::join underneath).
/// On prefix-free paths an absolute fragment replaces the base, and a
/// relative fragment is appended behind it, a leading `.` of the fragment
/// being dropped behind a non-empty base. Paths with a volume prefix are
/// left unstated: the platform handles them specially.
#[verifier::external_body]
fn utf8_join(base: &camino::Utf8PathBuf, path: &camino::Utf8PathBuf) -> (r: camino::Utf8PathBuf)
    ensures
        prefix_free(utf8_view(*base)) && prefix_free(utf8_view(*path)) ==> utf8_view(r)
            == join_comps(utf8_view(*base), utf8_view(*path)),
{
    camino::Utf8Path::join(base.as_path(), path.as_path())
}

/// Relies on camino::Utf8Path::parent (std::path::Path::parent
/// underneath): the path without its final component, and nothing for an
/// empty path or one that terminates in a root anchor or volume prefix.
#[verifier::external_body]
fn utf8_parent(p: &camino::Utf8PathBuf) -> (r: Option<camino::Utf8PathBuf>)
    ensures
        r is Some <==> parent_comps(utf8_view(*p)) is Some,
        r matches Some(q) ==> Some(utf8_view(q)) == parent_comps(utf8_view(*p)),
{
    camino::Utf8Path::parent(p.as_path()).map(camino::Utf8Path::to_path_buf)
}

/// Relies on camino::Utf8Path::starts_with (std::path::Path::starts_with
/// underneath): whole-component prefix comparison.
#[verifier::external_body]
fn utf8_starts_with(p: &camino::Utf8PathBuf, base: &camino::Utf8PathBuf) -> (r: bool)
    ensures
        prefix_free(utf8_view(*p)) && prefix_free(utf8_view(*base)) ==> r == utf8_view(
            *base,
        ).is_prefix_of(utf8_view(*p)),
{
    camino::Utf8Path::starts_with(p.as_path(), base)
}

impl PathOps for camino::Utf8PathBuf {
    closed spec fn comps(&self) -> Seq<Comp> {
        utf8_view(*self)
    }

    fn components(&self) -> (r: Vec<Component>) {
        utf8_components(self)
    }

    fn join(&self, path: &Self) -> (r: Self) {
        utf8_join(self, path)
    }

    fn parent(&self) -> (r: Option<Self>) {
        utf8_parent(self)
    }

    fn starts_with(&self, base: &Self) -> (r: bool) {
        utf8_starts_with(self, base)
    }
}

} // verus!
