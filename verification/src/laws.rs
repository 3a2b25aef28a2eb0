//! Provable properties of the safety checks.

use crate::component::{is_anchor, prefix_free, wf_comps, Comp};
use crate::normalize::{
    all_normal, anchor_len, lemma_norm_shape, lemma_pad_relative, norm_step, normalize,
};
use crate::ops::{lemma_join_fold_none, lemma_join_fold_take};
use crate::safety::{
    is_root_comps, join_comps, join_fold, join_safe, join_step, parent_comps, parent_safe,
    root_fold, strip_leading_cur,
};
use vstd::prelude::*;

verus! {

/// A path is absolute when its first component anchors it.
pub open spec fn is_absolute(s: Seq<Comp>) -> bool {
    s.len() > 0 && is_anchor(s[0])
}

/// Prepends the padding in front of a relative path; an absolute path
/// stands as it is. With enough ordinary segments as padding, ascending
/// above a relative starting point stays visible to the normalizer
/// instead of vanishing at the sequence's front.
pub open spec fn paternalize(pad: Seq<Comp>, s: Seq<Comp>) -> Seq<Comp> {
    if is_absolute(s) {
        s
    } else {
        pad + s
    }
}

/// Containment of one fragment prefix: joining the first `m` components
/// of `frag` onto `base` yields a path still below `base`, both seen
/// through the reference normalizer after padding.
pub open spec fn prefix_contained(base: Seq<Comp>, frag: Seq<Comp>, pad: Seq<Comp>, m: int) -> bool {
    normalize(paternalize(pad, base)).is_prefix_of(
        normalize(paternalize(pad, join_comps(base, frag.take(m)))),
    )
}

/// Relaxed mode only weakens strict mode: a join that is safe strictly is
/// also safe relaxedly.
pub proof fn lemma_relaxed_weakens_join(base: Seq<Comp>, frag: Seq<Comp>)
    ensures
        join_safe(base, frag, false) ==> join_safe(base, frag, true),
{
}

/// Relaxed mode only weakens strict mode: a parent that is safe strictly
/// is also safe relaxedly.
pub proof fn lemma_relaxed_weakens_parent(base: Seq<Comp>)
    ensures
        parent_safe(base, false) ==> parent_safe(base, true),
{
}

/// Descending into an ordinary segment is always strictly join-safe, and
/// taking the parent of the result is always strictly parent-safe.
pub proof fn lemma_normal_descent(base: Seq<Comp>, name: Seq<char>)
    ensures
        join_safe(base, seq![Comp::Normal(name)], false),
        parent_safe(join_comps(base, seq![Comp::Normal(name)]), false),
{
    let frag = seq![Comp::Normal(name)];
    assert(frag.len() == 1);
    assert(frag.last() == Comp::Normal(name));
    assert(frag.drop_last() =~= Seq::<Comp>::empty());
    assert(join_fold(is_root_comps(base), frag.drop_last()) == Some(0int));
    assert(join_fold(is_root_comps(base), frag) == Some(1int));
    assert(!is_anchor(frag[0]));
    assert(strip_leading_cur(frag) == frag);
    let j = join_comps(base, frag);
    if base.len() == 0 {
        assert(j.last() == Comp::Normal(name));
    } else {
        assert(j == base + frag);
        assert(j.last() == Comp::Normal(name));
    }
}

/// A prefix-free base that is the root normalizes, after padding, to the
/// bare root anchor.
proof fn lemma_nb_root(base: Seq<Comp>, pad: Seq<Comp>)
    requires
        wf_comps(base),
        prefix_free(base),
        is_root_comps(base),
    ensures
        is_absolute(base),
        normalize(paternalize(pad, base)) == seq![Comp::RootDir],
{
    lemma_norm_shape(base);
    let a = anchor_len(base);
    assert(a >= 1);
    assert(base[0] is Prefix || base[0] is RootDir);
    assert(!(base[0] is Prefix));
    assert(a == 1);
    assert(is_absolute(base));
    assert(paternalize(pad, base) == base);
    let t = normalize(base);
    assert(t.len() == 1);
    assert(t.take(1) == base.take(1));
    assert(t[0] == base.take(1)[0]);
    assert(t[0] == base[0]);
    assert(t =~= seq![Comp::RootDir]);
}

/// A prefix-free base that is not the root normalizes, after padding, to
/// something that ends in an ordinary segment and is not below the bare
/// root anchor.
proof fn lemma_nb_not_root(base: Seq<Comp>, pad: Seq<Comp>)
    requires
        wf_comps(base),
        prefix_free(base),
        !is_root_comps(base),
        all_normal(pad),
        pad.len() >= base.len() + 1,
    ensures
        normalize(paternalize(pad, base)).len() >= 1,
        normalize(paternalize(pad, base)).last() is Normal,
        !normalize(paternalize(pad, base)).is_prefix_of(seq![Comp::RootDir]),
{
    lemma_norm_shape(base);
    let nb = normalize(paternalize(pad, base));
    match root_fold(base) {
        None => {
            assert(anchor_len(base) == 0);
            assert(!is_absolute(base)) by {
                if base.len() > 0 && is_anchor(base[0]) {
                    assert(anchor_len(base) >= 1);
                }
            }
            lemma_pad_relative(base, pad);
            assert(nb == normalize(pad + base));
            assert(nb.len() >= pad.len() - base.len() >= 1);
            assert(nb.last() is Normal);
            if nb.is_prefix_of(seq![Comp::RootDir]) {
                assert(nb.len() == 1);
                assert(nb[0] == seq![Comp::RootDir].subrange(0, 1)[0]);
                assert(false);
            }
        },
        Some(k) => {
            assert(k != 0);
            let a = anchor_len(base);
            assert(a >= 1);
            assert(base[0] is Prefix || base[0] is RootDir);
            assert(is_absolute(base));
            assert(nb == normalize(base));
            assert(nb.len() == a + k);
            assert(nb.last() == nb.skip(a)[k - 1]);
            assert(nb.last() is Normal);
            assert(nb.len() >= 2);
        },
    }
}

/// One non-anchor fragment component moves the normalized, padded join
/// result by exactly one normalization step.
proof fn lemma_join_u_step(base: Seq<Comp>, frag: Seq<Comp>, pad: Seq<Comp>, m0: int)
    requires
        0 <= m0 < frag.len(),
        !is_anchor(frag[m0]),
    ensures
        normalize(paternalize(pad, join_comps(base, frag.take(m0 + 1)))) == norm_step(
            normalize(paternalize(pad, join_comps(base, frag.take(m0)))),
            frag[m0],
        ),
{
    let c = frag[m0];
    let t0 = frag.take(m0);
    let t1 = frag.take(m0 + 1);
    assert(t1 =~= t0.push(c));
    let j0 = join_comps(base, t0);
    let j1 = join_comps(base, t1);
    let collapse = c is CurDir && base.len() > 0 && m0 == 0;
    if t1.len() > 0 && is_anchor(t1[0]) {
        assert(m0 >= 1) by {
            if m0 == 0 {
                assert(t1[0] == c);
            }
        }
        assert(t0[0] == t1[0]);
        assert(j0 == t0 && j1 == t1);
        assert(j1 == j0.push(c));
    } else if base.len() == 0 {
        assert(j0 == t0 && j1 == t1);
        assert(j1 == j0.push(c));
    } else {
        if m0 == 0 {
            assert(t0 =~= Seq::<Comp>::empty());
            assert(strip_leading_cur(t0) =~= Seq::<Comp>::empty());
            assert(j0 =~= base);
            if c is CurDir {
                assert(t1 =~= seq![c]);
                assert(strip_leading_cur(t1) =~= Seq::<Comp>::empty());
                assert(j1 =~= base);
                assert(j1 == j0);
            } else {
                assert(strip_leading_cur(t1) =~= seq![c]);
                assert(j1 =~= base + seq![c]);
                assert(j0.push(c) =~= base + seq![c]);
                assert(j1 == j0.push(c));
            }
        } else {
            assert(t0.len() > 0);
            assert(t1[0] == t0[0]);
            assert(strip_leading_cur(t1) =~= strip_leading_cur(t0).push(c));
            assert(j1 =~= j0.push(c));
        }
    }
    if collapse {
        assert(j1 == j0);
        assert(norm_step(normalize(paternalize(pad, j0)), c) == normalize(paternalize(pad, j0)));
    } else {
        assert(j1 == j0.push(c));
        let p0 = paternalize(pad, j0);
        let p1 = paternalize(pad, j1);
        assert(p1 == p0.push(c)) by {
            if is_absolute(j0) {
                assert(j1[0] == j0[0]);
                assert(is_absolute(j1));
            } else {
                assert(!is_absolute(j1)) by {
                    if j1.len() > 0 && is_anchor(j1[0]) {
                        if j0.len() == 0 {
                            assert(j1[0] == c);
                        } else {
                            assert(j1[0] == j0[0]);
                        }
                        assert(false);
                    }
                }
                assert(pad + j0.push(c) =~= (pad + j0).push(c));
            }
        }
        assert(p1.drop_last() =~= p0);
        assert(p1.last() == c);
        assert(p1.len() > 0);
        assert(normalize(p1) == norm_step(normalize(p0), c));
    }
}

/// The join-safety walk's depth counter measures exactly how far the
/// normalized, padded join result extends below the normalized, padded
/// base: the base's normal form is kept as a prefix and is followed by
/// `k` ordinary segments.
proof fn lemma_walk_shape(base: Seq<Comp>, frag: Seq<Comp>, pad: Seq<Comp>, m: int)
    requires
        wf_comps(base),
        wf_comps(frag),
        prefix_free(base),
        prefix_free(frag),
        all_normal(pad),
        pad.len() >= base.len() + frag.len() + 1,
        0 <= m <= frag.len(),
        join_fold(is_root_comps(base), frag.take(m)) is Some,
    ensures
        (join_fold(is_root_comps(base), frag.take(m)) matches Some(k) ==> (k >= 0 && normalize(
            paternalize(pad, join_comps(base, frag.take(m))),
        ).len() == normalize(paternalize(pad, base)).len() + k && normalize(
            paternalize(pad, join_comps(base, frag.take(m))),
        ).take(normalize(paternalize(pad, base)).len() as int) == normalize(paternalize(pad, base))
            && all_normal(
            normalize(paternalize(pad, join_comps(base, frag.take(m)))).skip(
                normalize(paternalize(pad, base)).len() as int,
            ),
        ))),
    decreases m,
{
    let br = is_root_comps(base);
    let nb = normalize(paternalize(pad, base));
    if m == 0 {
        assert(frag.take(0) =~= Seq::<Comp>::empty());
        assert(join_fold(br, frag.take(0)) == Some(0int));
        let j = join_comps(base, frag.take(0));
        if base.len() == 0 {
            assert(j =~= base);
        } else {
            assert(strip_leading_cur(frag.take(0)) =~= Seq::<Comp>::empty());
            assert(j =~= base);
        }
        let u = normalize(paternalize(pad, j));
        assert(u == nb);
        assert(u.take(nb.len() as int) =~= nb);
        assert(all_normal(u.skip(nb.len() as int)));
    } else {
        let m0 = m - 1;
        let c = frag[m0];
        lemma_join_fold_take(br, frag, m0);
        assert(join_fold(br, frag.take(m)) == join_step(br, join_fold(br, frag.take(m0)), c));
        assert(join_fold(br, frag.take(m0)) is Some);
        lemma_walk_shape(base, frag, pad, m0);
        let k0 = join_fold(br, frag.take(m0))->Some_0;
        let u0 = normalize(paternalize(pad, join_comps(base, frag.take(m0))));
        let u1 = normalize(paternalize(pad, join_comps(base, frag.take(m))));
        assert(u0.len() == nb.len() + k0);
        match c {
            Comp::Prefix(_) => {
                assert(false);
            },
            Comp::RootDir => {
                assert(br);
                assert(m0 == 0) by {
                    if m0 > 0 {
                        assert(frag[m0] is ParentDir || frag[m0] is Normal || (m0 == 1
                            && frag[m0] is RootDir && frag[0] is Prefix));
                        assert(!(frag[0] is Prefix));
                    }
                }
                let t1 = frag.take(1);
                assert(t1 =~= seq![c]);
                assert(c == Comp::RootDir);
                let j1 = join_comps(base, t1);
                assert(is_anchor(t1[0]));
                assert(j1 == t1);
                lemma_nb_root(base, pad);
                assert(is_absolute(j1));
                assert(j1.drop_last() =~= Seq::<Comp>::empty());
                assert(normalize(j1) == norm_step(normalize(j1.drop_last()), j1.last()));
                assert(u1 =~= seq![Comp::RootDir]);
                assert(join_fold(br, frag.take(m)) == Some(0int));
                assert(u1.take(nb.len() as int) =~= nb);
                assert(all_normal(u1.skip(nb.len() as int)));
            },
            Comp::CurDir => {
                lemma_join_u_step(base, frag, pad, m0);
                assert(u1 == u0);
                assert(join_fold(br, frag.take(m)) == Some(k0));
            },
            Comp::Normal(_) => {
                lemma_join_u_step(base, frag, pad, m0);
                assert(u1 == u0.push(c));
                assert(join_fold(br, frag.take(m)) == Some(k0 + 1));
                assert(u1.take(nb.len() as int) =~= u0.take(nb.len() as int));
                assert(all_normal(u1.skip(nb.len() as int))) by {
                    assert(forall|i: int|
                        0 <= i < k0 ==> (#[trigger] u1.skip(nb.len() as int)[i]) == u0.skip(
                            nb.len() as int,
                        )[i]);
                    assert(u1.skip(nb.len() as int)[k0] == c);
                }
            },
            Comp::ParentDir => {
                lemma_join_u_step(base, frag, pad, m0);
                assert(u1 == norm_step(u0, c));
                if k0 > 0 {
                    assert(join_fold(br, frag.take(m)) == Some(k0 - 1));
                    assert(u0.last() == u0.skip(nb.len() as int)[k0 - 1]);
                    assert(u0.last() is Normal);
                    assert(u1 == u0.drop_last());
                    assert(u1.take(nb.len() as int) =~= u0.take(nb.len() as int));
                    assert(all_normal(u1.skip(nb.len() as int))) by {
                        assert(forall|i: int|
                            0 <= i < k0 - 1 ==> (#[trigger] u1.skip(nb.len() as int)[i]) == u0.skip(
                                nb.len() as int,
                            )[i]);
                    }
                } else {
                    assert(br);
                    assert(join_fold(br, frag.take(m)) == Some(k0));
                    lemma_nb_root(base, pad);
                    assert(u0.take(nb.len() as int) =~= u0);
                    assert(u0 == nb);
                    assert(nb.last() == Comp::RootDir);
                    assert(u1 == nb);
                }
            },
        }
    }
}

/// A failed walk fails at a first component: some prefix still walks to a
/// depth, and the next component refuses.
proof fn lemma_join_first_failure(br: bool, s: Seq<Comp>)
    requires
        join_fold(br, s) is None,
    ensures
        exists|m: int|
            0 <= m < s.len() && (#[trigger] join_fold(br, s.take(m))) is Some && join_step(
                br,
                join_fold(br, s.take(m)),
                s[m],
            ) is None,
    decreases s.len(),
{
    assert(s.len() > 0);
    let s0 = s.drop_last();
    if join_fold(br, s0) is None {
        lemma_join_first_failure(br, s0);
        let m = choose|m: int|
            0 <= m < s0.len() && (#[trigger] join_fold(br, s0.take(m))) is Some && join_step(
                br,
                join_fold(br, s0.take(m)),
                s0[m],
            ) is None;
        assert(s0.take(m) =~= s.take(m));
        assert(s0[m] == s[m]);
        assert(join_fold(br, s.take(m)) is Some && join_step(
            br,
            join_fold(br, s.take(m)),
            s[m],
        ) is None);
    } else {
        let m = s.len() - 1;
        assert(s.take(m) =~= s0);
        assert(join_fold(br, s) == join_step(br, join_fold(br, s0), s.last()));
        assert(join_fold(br, s.take(m)) is Some && join_step(
            br,
            join_fold(br, s.take(m)),
            s[m],
        ) is None);
    }
}

/// Where the walk refuses a component, containment of the fragment prefix
/// up to and including that component fails.
proof fn lemma_walk_failure(base: Seq<Comp>, frag: Seq<Comp>, pad: Seq<Comp>, m: int)
    requires
        wf_comps(base),
        wf_comps(frag),
        prefix_free(base),
        prefix_free(frag),
        all_normal(pad),
        pad.len() >= base.len() + frag.len() + 1,
        0 <= m < frag.len(),
        join_fold(is_root_comps(base), frag.take(m)) is Some,
        join_step(is_root_comps(base), join_fold(is_root_comps(base), frag.take(m)), frag[m])
            is None,
    ensures
        !prefix_contained(base, frag, pad, m + 1),
{
    let br = is_root_comps(base);
    let c = frag[m];
    let k0 = join_fold(br, frag.take(m))->Some_0;
    let nb = normalize(paternalize(pad, base));
    lemma_walk_shape(base, frag, pad, m);
    let u1 = normalize(paternalize(pad, join_comps(base, frag.take(m + 1))));
    if is_anchor(c) {
        assert(!br);
        assert(!(c is Prefix));
        assert(m == 0) by {
            if m > 0 {
                assert(frag[m] is ParentDir || frag[m] is Normal || (m == 1 && frag[m] is RootDir
                    && frag[0] is Prefix));
                assert(!(frag[0] is Prefix));
            }
        }
        let t1 = frag.take(1);
        assert(t1 =~= seq![c]);
        assert(c == Comp::RootDir);
        let j1 = join_comps(base, t1);
        assert(is_anchor(t1[0]));
        assert(j1 == t1);
        assert(is_absolute(j1));
        assert(j1.drop_last() =~= Seq::<Comp>::empty());
        assert(normalize(j1) == norm_step(normalize(j1.drop_last()), j1.last()));
        assert(u1 =~= seq![Comp::RootDir]);
        lemma_nb_not_root(base, pad);
        assert(!nb.is_prefix_of(u1));
    } else {
        assert(c is ParentDir && k0 <= 0);
        assert(!br);
        assert(k0 == 0);
        let u0 = normalize(paternalize(pad, join_comps(base, frag.take(m))));
        assert(u0.take(nb.len() as int) =~= u0);
        assert(u0 == nb);
        lemma_join_u_step(base, frag, pad, m);
        assert(u1 == norm_step(nb, c));
        lemma_nb_not_root(base, pad);
        assert(nb.last() is Normal);
        assert(u1 == nb.drop_last());
        assert(u1.len() < nb.len());
        assert(!nb.is_prefix_of(u1));
    }
}

/// Containment equivalence of the relaxed join check: joining is safe in
/// relaxed mode exactly when every prefix of the fragment, joined onto
/// the base, stays below the base under the reference normalizer. The
/// padding stands for the unknown directories above a relative base: any
/// sequence of ordinary segments at least as long as both paths together.
pub proof fn lemma_join_containment_relaxed(base: Seq<Comp>, frag: Seq<Comp>, pad: Seq<Comp>)
    requires
        wf_comps(base),
        wf_comps(frag),
        prefix_free(base),
        prefix_free(frag),
        all_normal(pad),
        pad.len() >= base.len() + frag.len() + 1,
    ensures
        join_safe(base, frag, true) <==> (forall|m: int|
            0 <= m <= frag.len() ==> prefix_contained(base, frag, pad, m)),
{
    let br = is_root_comps(base);
    let nb = normalize(paternalize(pad, base));
    if join_safe(base, frag, true) {
        assert forall|m: int| 0 <= m <= frag.len() implies prefix_contained(
            base,
            frag,
            pad,
            m,
        ) by {
            if join_fold(br, frag.take(m)) is None {
                lemma_join_fold_none(br, frag, m);
                assert(false);
            }
            lemma_walk_shape(base, frag, pad, m);
            let u = normalize(paternalize(pad, join_comps(base, frag.take(m))));
            assert(nb =~= u.subrange(0, nb.len() as int));
            assert(nb.is_prefix_of(u));
        }
    } else {
        match join_fold(br, frag) {
            Some(k) => {
                assert(frag.take(frag.len() as int) =~= frag);
                lemma_walk_shape(base, frag, pad, frag.len() as int);
                assert(k >= 0);
                assert(false);
            },
            None => {},
        }
        lemma_join_first_failure(br, frag);
        let m = choose|m: int|
            0 <= m < frag.len() && (#[trigger] join_fold(br, frag.take(m))) is Some && join_step(
                br,
                join_fold(br, frag.take(m)),
                frag[m],
            ) is None;
        lemma_walk_failure(base, frag, pad, m);
        assert(0 <= m + 1 <= frag.len() && !prefix_contained(base, frag, pad, m + 1));
    }
}

/// Containment equivalence of the strict join check: joining is safe in
/// strict mode exactly when every fragment prefix stays below the base
/// and the full join additionally normalizes to something other than the
/// base itself.
pub proof fn lemma_join_containment_strict(base: Seq<Comp>, frag: Seq<Comp>, pad: Seq<Comp>)
    requires
        wf_comps(base),
        wf_comps(frag),
        prefix_free(base),
        prefix_free(frag),
        all_normal(pad),
        pad.len() >= base.len() + frag.len() + 1,
    ensures
        join_safe(base, frag, false) <==> ((forall|m: int|
            0 <= m <= frag.len() ==> prefix_contained(base, frag, pad, m)) && normalize(
            paternalize(pad, join_comps(base, frag)),
        ) != normalize(paternalize(pad, base))),
{
    lemma_join_containment_relaxed(base, frag, pad);
    let br = is_root_comps(base);
    let nb = normalize(paternalize(pad, base));
    assert(frag.take(frag.len() as int) =~= frag);
    let u = normalize(paternalize(pad, join_comps(base, frag)));
    if join_safe(base, frag, false) {
        lemma_walk_shape(base, frag, pad, frag.len() as int);
        assert(u.len() > nb.len());
    } else {
        if join_safe(base, frag, true) {
            lemma_walk_shape(base, frag, pad, frag.len() as int);
            assert(join_fold(br, frag)->Some_0 == 0);
            assert(u.take(nb.len() as int) =~= u);
            assert(u == nb);
        }
    }
}

/// Containment for the parent operation: either there is no parent to
/// take, or the parent stays above the base, both seen through the
/// reference normalizer after padding.
pub open spec fn parent_contained(base: Seq<Comp>, pad: Seq<Comp>) -> bool {
    match parent_comps(base) {
        None => true,
        Some(p) => normalize(paternalize(pad, p)).is_prefix_of(
            normalize(paternalize(pad, base)),
        ),
    }
}

/// Containment equivalence of the relaxed parent check: taking the parent
/// is safe in relaxed mode exactly when the native parent, if there is
/// one, normalizes to something above the base.
pub proof fn lemma_parent_containment_relaxed(base: Seq<Comp>, pad: Seq<Comp>)
    requires
        wf_comps(base),
        prefix_free(base),
        all_normal(pad),
        pad.len() >= base.len() + 1,
    ensures
        parent_safe(base, true) <==> parent_contained(base, pad),
{
    lemma_parent_containment_shape(base, pad);
}

/// Containment equivalence of the strict parent check: taking the parent
/// is safe in strict mode exactly when there is a parent, it stays above
/// the base, and it normalizes to something other than the base itself.
pub proof fn lemma_parent_containment_strict(base: Seq<Comp>, pad: Seq<Comp>)
    requires
        wf_comps(base),
        prefix_free(base),
        all_normal(pad),
        pad.len() >= base.len() + 1,
    ensures
        parent_safe(base, false) <==> (parent_comps(base) is Some && parent_contained(base, pad)
            && normalize(paternalize(pad, parent_comps(base)->Some_0)) != normalize(
            paternalize(pad, base),
        )),
{
    lemma_parent_containment_shape(base, pad);
}

/// The shared case analysis behind both parent containment equivalences.
proof fn lemma_parent_containment_shape(base: Seq<Comp>, pad: Seq<Comp>)
    requires
        wf_comps(base),
        prefix_free(base),
        all_normal(pad),
        pad.len() >= base.len() + 1,
    ensures
        parent_safe(base, true) <==> parent_contained(base, pad),
        parent_safe(base, false) <==> (parent_comps(base) is Some && parent_contained(base, pad)
            && normalize(paternalize(pad, parent_comps(base)->Some_0)) != normalize(
            paternalize(pad, base),
        )),
{
    if base.len() == 0 || is_anchor(base.last()) {
        assert(parent_comps(base) is None);
    } else {
        let p = base.drop_last();
        let c = base.last();
        assert(parent_comps(base) == Some(p));
        assert(wf_comps(p) && prefix_free(p)) by {
            assert(forall|i: int| 0 <= i < p.len() ==> (#[trigger] p[i]) == base[i]);
        }
        let np = normalize(paternalize(pad, p));
        let nb = normalize(paternalize(pad, base));
        // the padded base is the padded parent with the final component
        // appended, except when the final component is a leading `.`
        if c is CurDir {
            assert(base.len() == 1) by {
                assert(base[base.len() - 1] == c);
            }
            assert(p =~= Seq::<Comp>::empty());
            assert(!is_absolute(base) && !is_absolute(p));
            assert(pad + p =~= pad);
            crate::normalize::lemma_norm_all_normal(pad);
            assert(np == pad);
            assert(pad + base =~= pad.push(c));
            assert((pad.push(c)).drop_last() =~= pad);
            assert(nb == norm_step(pad, c));
            assert(nb == pad);
            assert(np =~= nb.subrange(0, np.len() as int));
            assert(np.is_prefix_of(nb));
        } else {
            assert(paternalize(pad, base) == paternalize(pad, p).push(c)) by {
                if is_absolute(base) {
                    assert(base[0] == p[0]) by {
                        if p.len() == 0 {
                            assert(base =~= seq![c]);
                        }
                    }
                    assert(is_absolute(p));
                    assert(base =~= p.push(c));
                } else {
                    assert(!is_absolute(p)) by {
                        if p.len() > 0 {
                            assert(p[0] == base[0]);
                        }
                    }
                    assert(pad + base =~= (pad + p).push(c));
                }
            }
            assert(paternalize(pad, base).drop_last() =~= paternalize(pad, p));
            assert(paternalize(pad, base).len() > 0);
            assert(nb == norm_step(np, c));
            if c is Normal {
                assert(nb == np.push(c));
                assert(np =~= nb.subrange(0, np.len() as int));
                assert(np.is_prefix_of(nb));
                assert(np.len() < nb.len());
                assert(np != nb);
            } else {
                assert(c is ParentDir);
                if is_root_comps(p) {
                    lemma_nb_root(p, pad);
                    assert(np == seq![Comp::RootDir]);
                    assert(nb == np);
                    assert(np =~= nb.subrange(0, np.len() as int));
                    assert(np.is_prefix_of(nb));
                } else {
                    lemma_nb_not_root(p, pad);
                    assert(np.last() is Normal);
                    assert(nb == np.drop_last());
                    assert(nb.len() < np.len());
                    assert(!np.is_prefix_of(nb));
                }
            }
        }
    }
}

} // verus!
