//! An independent reference normalizer over component sequences, used to
//! state and prove what the walk-based checks guarantee.
//!
//! The normalizer collapses `.`, cancels a `..` against a preceding
//! ordinary segment, lets a `..` at a root anchor stay put (the root is
//! its own parent), and keeps a `..` that cannot be cancelled (a relative
//! path may ascend above its starting point).

use crate::component::{is_anchor, wf_comps, Comp};
use crate::safety::{root_fold, root_step};
use vstd::prelude::*;

verus! {

/// One step of normalization: how an already-normalized accumulator
/// absorbs the next component.
pub open spec fn norm_step(acc: Seq<Comp>, c: Comp) -> Seq<Comp> {
    match c {
        Comp::CurDir => acc,
        Comp::Prefix(_) => acc.push(c),
        Comp::RootDir => acc.push(c),
        Comp::Normal(_) => acc.push(c),
        Comp::ParentDir => if acc.len() > 0 && acc.last() is Normal {
            acc.drop_last()
        } else if acc.len() > 0 && is_anchor(acc.last()) {
            acc
        } else {
            acc.push(c)
        },
    }
}

/// Normalization of a whole component sequence, left to right.
pub open spec fn normalize(s: Seq<Comp>) -> Seq<Comp>
    decreases s.len(),
{
    if s.len() == 0 {
        s
    } else {
        norm_step(normalize(s.drop_last()), s.last())
    }
}

/// A normalized form that denotes the filesystem root: nothing but root
/// anchors.
pub open spec fn is_root_form(t: Seq<Comp>) -> bool {
    t.len() > 0 && (forall|i: int| 0 <= i < t.len() ==> is_anchor(#[trigger] t[i]))
}

/// Every component is an ordinary segment.
pub open spec fn all_normal(t: Seq<Comp>) -> bool {
    forall|i: int| 0 <= i < t.len() ==> (#[trigger] t[i]) is Normal
}

/// The first `d` components are `..` and the rest are ordinary segments:
/// the shape of every normalized relative path.
pub open spec fn parent_normal_form(t: Seq<Comp>, d: int) -> bool {
    &&& 0 <= d <= t.len()
    &&& forall|i: int| 0 <= i < d ==> (#[trigger] t[i]) is ParentDir
    &&& forall|i: int| d <= i < t.len() ==> (#[trigger] t[i]) is Normal
}

/// How many leading components of `s` anchor it: a volume prefix, a root,
/// or a prefix followed by its root.
pub open spec fn anchor_len(s: Seq<Comp>) -> int {
    if s.len() > 0 && s[0] is Prefix {
        if s.len() > 1 && s[1] is RootDir {
            2
        } else {
            1
        }
    } else if s.len() > 0 && s[0] is RootDir {
        1
    } else {
        0
    }
}

/// The shape of a normalized well-formed path. An unanchored path
/// normalizes to leading `..` markers followed by ordinary segments. An
/// anchored path normalizes to its own anchor followed by exactly as many
/// ordinary segments as the root detector's depth counter reports.
pub proof fn lemma_norm_shape(s: Seq<Comp>)
    requires
        wf_comps(s),
    ensures
        normalize(s).len() <= s.len(),
        root_fold(s) is None ==> anchor_len(s) == 0 && (exists|d: int|
            parent_normal_form(normalize(s), d)),
        root_fold(s) matches Some(k) ==> (k >= 0 && 1 <= anchor_len(s) <= s.len()
            && normalize(s).len() == anchor_len(s) + k && normalize(s).take(anchor_len(s))
            == s.take(anchor_len(s)) && all_normal(normalize(s).skip(anchor_len(s)))),
    decreases s.len(),
{
    if s.len() == 0 {
        assert(parent_normal_form(normalize(s), 0));
    } else {
        let s0 = s.drop_last();
        let c = s.last();
        assert(wf_comps(s0)) by {
            assert(forall|i: int| 0 <= i < s0.len() ==> (#[trigger] s0[i]) == s[i]);
        }
        lemma_norm_shape(s0);
        let t0 = normalize(s0);
        let t = normalize(s);
        assert(t == norm_step(t0, c));
        if s0.len() == 0 {
            // a single component
            match c {
                Comp::Prefix(_) => {
                    assert(t =~= seq![c]);
                    assert(t.take(1) =~= s.take(1));
                    assert(all_normal(t.skip(1)));
                },
                Comp::RootDir => {
                    assert(t =~= seq![c]);
                    assert(t.take(1) =~= s.take(1));
                    assert(all_normal(t.skip(1)));
                },
                Comp::CurDir => {
                    assert(t == t0);
                    assert(parent_normal_form(t, 0));
                },
                Comp::ParentDir => {
                    assert(t =~= seq![c]);
                    assert(parent_normal_form(t, 1));
                },
                Comp::Normal(_) => {
                    assert(t =~= seq![c]);
                    assert(parent_normal_form(t, 0));
                },
            }
        } else {
            // c is at an index greater than zero, so well-formedness
            // restricts what it can be.
            assert(s[s.len() - 1] == c);
            match c {
                Comp::Prefix(_) => {
                    assert(false);
                },
                Comp::CurDir => {
                    assert(false);
                },
                Comp::RootDir => {
                    // only possible right after a leading volume prefix
                    assert(s.len() == 2 && s[0] is Prefix);
                    assert(s0 =~= seq![s[0]]);
                    assert(t0 =~= seq![s[0]]);
                    assert(t =~= seq![s[0], c]);
                    assert(root_fold(s) == Some(0int));
                    assert(anchor_len(s) == 2);
                    assert(t.take(2) =~= s.take(2));
                    assert(all_normal(t.skip(2)));
                },
                Comp::ParentDir => {
                    match root_fold(s0) {
                        None => {
                            assert(root_fold(s) is None);
                            let d0 = choose|d: int| parent_normal_form(t0, d);
                            if t0.len() > 0 && t0.last() is Normal {
                                assert(parent_normal_form(t, d0));
                            } else if t0.len() > 0 && is_anchor(t0.last()) {
                                assert(false);
                            } else {
                                // empty or all leading `..`: push one more
                                assert(d0 == t0.len());
                                assert(parent_normal_form(t, d0 + 1));
                            }
                            assert(exists|d: int| parent_normal_form(t, d));
                        },
                        Some(k0) => {
                            let a = anchor_len(s0);
                            assert(anchor_len(s) == a);
                            if k0 > 0 {
                                assert(t0.last() == t0.skip(a)[t0.len() - a - 1]);
                                assert(t0.last() is Normal);
                                assert(t == t0.drop_last());
                                assert(root_fold(s) == Some(k0 - 1));
                                assert(t.take(a) =~= t0.take(a));
                                assert(all_normal(t.skip(a))) by {
                                    assert(forall|i: int|
                                        0 <= i < t.len() - a ==> t.skip(a)[i] == t0.skip(a)[i]);
                                }
                            } else {
                                // at the root: `..` stays put
                                assert(t0.len() == a);
                                assert(t0.last() == t0.take(a)[a - 1]);
                                assert(t0.last() == s0.take(a)[a - 1]);
                                assert(is_anchor(t0.last())) by {
                                    if a == 1 {
                                        assert(s0[0] is Prefix || s0[0] is RootDir);
                                    } else {
                                        assert(s0[1] is RootDir);
                                    }
                                }
                                assert(t == t0);
                                assert(root_fold(s) == Some(0int));
                                assert(t.take(a) == s.take(a)) by {
                                    assert(s.take(a) =~= s0.take(a));
                                }
                            }
                        },
                    }
                },
                Comp::Normal(_) => {
                    assert(t == t0.push(c));
                    match root_fold(s0) {
                        None => {
                            assert(root_fold(s) is None);
                            let d0 = choose|d: int| parent_normal_form(t0, d);
                            assert(parent_normal_form(t, d0));
                            assert(exists|d: int| parent_normal_form(t, d));
                        },
                        Some(k0) => {
                            let a = anchor_len(s0);
                            assert(anchor_len(s) == a);
                            assert(root_fold(s) == Some(k0 + 1));
                            assert(t.take(a) =~= t0.take(a));
                            assert(s.take(a) =~= s0.take(a));
                            assert(all_normal(t.skip(a))) by {
                                assert(forall|i: int|
                                    0 <= i < t0.len() - a ==> t.skip(a)[i] == t0.skip(a)[i]);
                                assert(t.skip(a)[t.len() - a - 1] == c);
                            }
                        },
                    }
                },
            }
        }
    }
}

/// Normalization leaves a sequence of ordinary segments untouched.
pub proof fn lemma_norm_all_normal(t: Seq<Comp>)
    requires
        all_normal(t),
    ensures
        normalize(t) == t,
    decreases t.len(),
{
    if t.len() > 0 {
        assert(all_normal(t.drop_last())) by {
            assert(forall|i: int| 0 <= i < t.len() - 1 ==> (#[trigger] t.drop_last()[i]) == t[i]);
        }
        lemma_norm_all_normal(t.drop_last());
        assert(t.last() is Normal);
        assert(normalize(t) == t.drop_last().push(t.last()));
        assert(t.drop_last().push(t.last()) =~= t);
    }
}

/// Prepending enough ordinary segments in front of an unanchored path
/// makes it normalize to ordinary segments alone: the padding absorbs
/// every `..` the path can produce.
pub proof fn lemma_pad_relative(s: Seq<Comp>, pad: Seq<Comp>)
    requires
        wf_comps(s),
        crate::component::prefix_free(s),
        root_fold(s) is None,
        all_normal(pad),
        pad.len() >= s.len(),
    ensures
        all_normal(normalize(pad + s)),
        normalize(pad + s).len() >= pad.len() - s.len(),
    decreases s.len(),
{
    if s.len() == 0 {
        assert(pad + s =~= pad);
        lemma_norm_all_normal(pad);
    } else {
        let s0 = s.drop_last();
        let c = s.last();
        assert(wf_comps(s0) && crate::component::prefix_free(s0)) by {
            assert(forall|i: int| 0 <= i < s0.len() ==> (#[trigger] s0[i]) == s[i]);
        }
        assert(root_fold(s0) is None) by {
            match root_fold(s0) {
                None => {},
                Some(k) => {
                    assert(root_fold(s) == root_step(Some(k), c));
                    assert(root_fold(s) is Some);
                },
            }
        }
        lemma_pad_relative(s0, pad);
        assert((pad + s).drop_last() =~= pad + s0);
        assert((pad + s).last() == c);
        assert(normalize(pad + s) == norm_step(normalize(pad + s0), c));
        let t0 = normalize(pad + s0);
        let t = normalize(pad + s);
        assert(s[s.len() - 1] == c);
        match c {
            Comp::Prefix(_) => {
                assert(false);
            },
            Comp::RootDir => {
                // a root anchor would have anchored the walk
                if s.len() == 1 {
                    assert(root_fold(s) == Some(0int));
                }
                assert(false);
            },
            Comp::CurDir => {
                assert(t == t0);
            },
            Comp::ParentDir => {
                assert(t0.len() >= pad.len() - s0.len() >= 1);
                assert(t0.last() is Normal);
                assert(t == t0.drop_last());
                assert(all_normal(t)) by {
                    assert(forall|i: int| 0 <= i < t.len() ==> (#[trigger] t[i]) == t0[i]);
                }
            },
            Comp::Normal(_) => {
                assert(t == t0.push(c));
                assert(all_normal(t)) by {
                    assert(forall|i: int|
                        0 <= i < t.len() ==> (#[trigger] t[i]) == if i < t0.len() {
                            t0[i]
                        } else {
                            c
                        });
                }
            },
        }
    }
}

/// The root detector agrees with the reference normalizer: a well-formed
/// path is the root exactly when its normalized form denotes the root.
pub proof fn lemma_root_detector_correct(s: Seq<Comp>)
    requires
        wf_comps(s),
    ensures
        crate::safety::is_root_comps(s) <==> is_root_form(normalize(s)),
{
    lemma_norm_shape(s);
    let t = normalize(s);
    match root_fold(s) {
        None => {
            if is_root_form(t) {
                let d = choose|d: int| parent_normal_form(t, d);
                assert(is_anchor(t[0]));
                assert(false);
            }
        },
        Some(k) => {
            let a = anchor_len(s);
            if k == 0 {
                assert forall|i: int| 0 <= i < t.len() implies is_anchor(t[i]) by {
                    assert(t[i] == t.take(a)[i]);
                    assert(t.take(a)[i] == s.take(a)[i]);
                    if a == 2 {
                        assert(s[0] is Prefix && s[1] is RootDir);
                    } else {
                        assert(s[0] is Prefix || s[0] is RootDir);
                    }
                }
                assert(is_root_form(t));
            } else {
                assert(t.skip(a)[t.len() - a - 1] == t[t.len() - 1]);
                assert(t[t.len() - 1] is Normal);
                assert(!is_root_form(t));
            }
        },
    }
}

} // verus!
