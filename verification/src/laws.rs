//! Laws tying the diff engine to the patch applier: diffing a tree against
//! itself yields nothing, a singleton child list collapses, a computed patch
//! applies cleanly and reproduces the new tree, and the applier's two errors
//! arise exactly where they should.

use vstd::prelude::*;

use crate::apply::apply_children_full;
use crate::apply::apply_children_rec;
use crate::apply::apply_node;
use crate::apply::truncate_seq;
use crate::diff::diff_entries_from;
use crate::diff::diff_spec;
use crate::diff::lemma_diff_none_iff;
use crate::diff::lemma_no_diff_seq;
use crate::diff::lemma_text_bounded_child;
use crate::diff::lemma_texts_bounded;
use crate::diff::min_len;
use crate::diff::no_diff;
use crate::diff::no_diff_seq;
use crate::diff::text_bounded;
use crate::diff::texts_bounded;
use crate::node::NodeV;
use crate::patch::PatchErrorV;
use crate::patch::PatchV;
use crate::patch::node_kind;
use crate::patch::patch_kind;
use crate::text_patch::lemma_text_patch_round_trip;

verus! {

/// The normal form of a tree: every singleton child list, anywhere in the
/// tree, is collapsed into its sole element. Two trees are semantically
/// equal for diffing and patching exactly when their normal forms are equal.
pub open spec fn norm(n: NodeV) -> NodeV
    decreases n,
{
    match n {
        NodeV::Children(xs) => if xs.len() == 1 {
            norm(xs[0])
        } else {
            NodeV::Children(norm_seq(xs))
        },
        NodeV::Spoiler(x) => NodeV::Spoiler(Box::new(norm(*x))),
        NodeV::Bold(x) => NodeV::Bold(Box::new(norm(*x))),
        NodeV::Italic(x) => NodeV::Italic(Box::new(norm(*x))),
        NodeV::Quoted(x) => NodeV::Quoted(Box::new(norm(*x))),
        _ => n,
    }
}

/// Normal forms of a sequence of trees, elementwise.
pub open spec fn norm_seq(s: Seq<NodeV>) -> Seq<NodeV>
    decreases s,
{
    if s.len() == 0 {
        Seq::empty()
    } else {
        seq![norm(s[0])] + norm_seq(s.subrange(1, s.len() as int))
    }
}

/// `norm_seq` maps the sequence elementwise.
pub proof fn lemma_norm_seq(s: Seq<NodeV>)
    ensures
        (#[trigger] norm_seq(s)).len() == s.len(),
        forall|i: int| 0 <= i < s.len() ==> #[trigger] norm_seq(s)[i] == norm(s[i]),
    decreases s.len(),
{
    if s.len() > 0 {
        let s1 = s.subrange(1, s.len() as int);
        lemma_norm_seq(s1);
        assert(norm_seq(s) == seq![norm(s[0])] + norm_seq(s1));
        assert forall|i: int| 0 <= i < s.len() implies #[trigger] norm_seq(s)[i] == norm(s[i]) by {
            if i > 0 {
                assert(norm_seq(s)[i] == norm_seq(s1)[i - 1]);
                assert(s1[i - 1] == s[i]);
            }
        };
    }
}

/// Diffing a tree against itself yields nothing, for every variant.
pub proof fn lemma_no_diff_refl(t: NodeV)
    ensures
        no_diff(t, t),
    decreases t,
{
    match t {
        NodeV::Children(xs) => {
            assert forall|i: int| 0 <= i < min_len(xs, xs) implies #[trigger] no_diff(
                xs[i],
                xs[i],
            ) by {
                lemma_no_diff_refl(xs[i]);
            };
            lemma_no_diff_seq(xs, xs);
            assert(no_diff(t, t) == (xs.len() == xs.len() && no_diff_seq(xs, xs)));
        },
        NodeV::Spoiler(x) => lemma_no_diff_refl(*x),
        NodeV::Bold(x) => lemma_no_diff_refl(*x),
        NodeV::Italic(x) => lemma_no_diff_refl(*x),
        NodeV::Quoted(x) => lemma_no_diff_refl(*x),
        _ => {},
    }
}

/// Idempotent no-op: diffing any tree against itself yields nothing.
pub proof fn lemma_diff_identity(t: NodeV)
    ensures
        diff_spec(t, t) is None,
{
    lemma_no_diff_refl(t);
    lemma_diff_none_iff(t, t);
}

/// Singleton collapse: a one-element child list and its bare element diff to
/// nothing, in either order, for any non-list element.
pub proof fn lemma_singleton_collapse(x: NodeV)
    requires
        !(x is Children),
    ensures
        diff_spec(NodeV::Children(seq![x]), x) is None,
        diff_spec(x, NodeV::Children(seq![x])) is None,
{
    lemma_no_diff_refl(x);
    let s = seq![x];
    assert(no_diff(NodeV::Children(s), x) == (s.len() == 1 && no_diff(s[0], x)));
    assert(no_diff(x, NodeV::Children(s)) == (s.len() == 1 && no_diff(x, s[0])));
    lemma_diff_none_iff(NodeV::Children(s), x);
    lemma_diff_none_iff(x, NodeV::Children(s));
}

/// Trees that diff to nothing have the same normal form.
pub proof fn lemma_no_diff_norm(a: NodeV, b: NodeV)
    requires
        no_diff(a, b),
    ensures
        norm(a) == norm(b),
    decreases a, b,
{
    match (a, b) {
        (NodeV::Children(x), NodeV::Children(y)) => {
            assert(no_diff(a, b) == (x.len() == y.len() && no_diff_seq(x, y)));
            lemma_no_diff_seq(x, y);
            if x.len() == 1 {
                assert(no_diff(x[0], y[0]));
                lemma_no_diff_norm(x[0], y[0]);
            } else {
                lemma_norm_seq(x);
                lemma_norm_seq(y);
                assert forall|i: int| 0 <= i < x.len() implies #[trigger] norm_seq(x)[i]
                    == norm_seq(y)[i] by {
                    assert(no_diff(x[i], y[i]));
                    lemma_no_diff_norm(x[i], y[i]);
                };
                assert(norm_seq(x) =~= norm_seq(y));
            }
        },
        (NodeV::Children(x), _) => {
            assert(no_diff(a, b) == (x.len() == 1 && no_diff(x[0], b)));
            lemma_no_diff_norm(x[0], b);
        },
        (_, NodeV::Children(y)) => {
            assert(no_diff(a, b) == (y.len() == 1 && no_diff(a, y[0])));
            lemma_no_diff_norm(a, y[0]);
        },
        (NodeV::Spoiler(x), NodeV::Spoiler(y)) => lemma_no_diff_norm(*x, *y),
        (NodeV::Bold(x), NodeV::Bold(y)) => lemma_no_diff_norm(*x, *y),
        (NodeV::Italic(x), NodeV::Italic(y)) => lemma_no_diff_norm(*x, *y),
        (NodeV::Quoted(x), NodeV::Quoted(y)) => lemma_no_diff_norm(*x, *y),
        _ => {},
    }
}

/// When the new side is not a child list, the diff never yields a `Children`
/// patch.
proof fn lemma_diff_not_children(a: NodeV, b: NodeV)
    requires
        !(b is Children),
    ensures
        !(diff_spec(a, b) matches Some(PatchV::Children { .. })),
    decreases a,
{
    match a {
        NodeV::Children(o) => {
            if o.len() == 1 {
                lemma_diff_not_children(o[0], b);
            }
        },
        _ => {},
    }
}

/// Applying the computed positional entries from index `j` onward to a list
/// that still agrees with the old list there succeeds, rewriting the shared
/// range to the normal form of the new list and leaving the rest untouched.
proof fn lemma_entries_round_trip(o: Seq<NodeV>, n: Seq<NodeV>, list: Seq<NodeV>, j: int)
    requires
        0 <= j <= min_len(o, n),
        list.len() == o.len(),
        texts_bounded(o),
        forall|idx: int| j <= idx < o.len() ==> #[trigger] list[idx] == o[idx],
    ensures
        ({
            let sub = apply_children_rec(list, diff_entries_from(o, n, j));
            sub.1 is None && sub.0.len() == list.len() && (forall|idx: int|
                0 <= idx < j ==> #[trigger] sub.0[idx] == list[idx]) && (forall|idx: int|
                j <= idx < min_len(o, n) ==> norm(#[trigger] sub.0[idx]) == norm(n[idx])) && (
            forall|idx: int|
                min_len(o, n) <= idx < list.len() ==> #[trigger] sub.0[idx] == list[idx])
        }),
    decreases o, n, min_len(o, n) - j,
{
    let m = min_len(o, n);
    lemma_texts_bounded(o);
    if j >= m {
        assert(diff_entries_from(o, n, j) =~= Seq::<(int, PatchV)>::empty());
    } else {
        let entries = diff_entries_from(o, n, j);
        let rest = diff_entries_from(o, n, j + 1);
        match diff_spec(o[j], n[j]) {
            None => {
                assert(entries == rest);
                lemma_diff_none_iff(o[j], n[j]);
                lemma_no_diff_norm(o[j], n[j]);
                lemma_entries_round_trip(o, n, list, j + 1);
                assert(list[j] == o[j]);
            },
            Some(p) => {
                assert(entries == seq![(j, p)] + rest);
                lemma_round_trip(o[j], n[j]);
                assert(list[j] == o[j]);
                let sub0 = apply_node(list[j], p);
                assert(sub0.1 is None && norm(sub0.0) == norm(n[j]));
                let l2 = list.update(j, sub0.0);
                assert(entries[0] == (j, p));
                assert(entries.subrange(1, entries.len() as int) =~= rest);
                assert(apply_children_rec(list, entries) == apply_children_rec(l2, rest));
                lemma_entries_round_trip(o, n, l2, j + 1);
                let sub = apply_children_rec(l2, rest);
                assert(sub.0[j] == l2[j]);
            },
        }
    }
}

/// Round-trip: on any tree whose textual leaves fit the 16-bit bound,
/// either the diff yields nothing and the trees share a normal form, or the
/// computed patch applies without error and the result has the normal form
/// of the new tree.
pub proof fn lemma_round_trip(a: NodeV, b: NodeV)
    requires
        text_bounded(a),
    ensures
        match diff_spec(a, b) {
            None => norm(a) == norm(b),
            Some(p) => ({
                let sub = apply_node(a, p);
                sub.1 is None && norm(sub.0) == norm(b)
            }),
        },
    decreases a, b, 0int,
{
    lemma_diff_none_iff(a, b);
    if diff_spec(a, b) is None {
        lemma_no_diff_norm(a, b);
    } else {
        let p = diff_spec(a, b)->Some_0;
        match (a, b) {
            (NodeV::Children(o), NodeV::Children(n)) => {
                let m = min_len(o, n);
                let entries = diff_entries_from(o, n, 0);
                let truncate = if n.len() < o.len() {
                    Some(n.len() as int)
                } else {
                    None
                };
                let append = if o.len() < n.len() {
                    n.subrange(o.len() as int, n.len() as int)
                } else {
                    Seq::<NodeV>::empty()
                };
                assert(diff_spec(a, b) == (if entries.len() == 0 && truncate is None
                    && append.len() == 0 {
                    None
                } else {
                    Some(PatchV::Children { patch: entries, truncate, append })
                }));
                assert(p == PatchV::Children { patch: entries, truncate, append });
                lemma_entries_round_trip(o, n, o, 0);
                let sub = apply_children_rec(o, entries);
                assert(apply_node(a, p) == apply_children_full(o, entries, truncate, append));
                let l3 = match truncate {
                    Some(l) => truncate_seq(sub.0, l),
                    None => sub.0,
                };
                let fl = l3 + append;
                assert(apply_node(a, p) == (NodeV::Children(fl), None::<PatchErrorV>));
                assert(fl.len() == n.len());
                assert forall|idx: int| 0 <= idx < n.len() implies norm(#[trigger] fl[idx])
                    == norm(n[idx]) by {
                    if idx < m {
                        assert(fl[idx] == sub.0[idx]);
                    } else {
                        assert(fl[idx] == append[idx - o.len()]);
                        assert(append[idx - o.len()] == n[idx]);
                    }
                };
                if fl.len() == 1 {
                    assert(norm(NodeV::Children(fl)) == norm(fl[0]));
                    assert(norm(b) == norm(n[0]));
                } else {
                    lemma_norm_seq(fl);
                    lemma_norm_seq(n);
                    assert(norm_seq(fl) =~= norm_seq(n));
                    assert(norm(NodeV::Children(fl)) == NodeV::Children(norm_seq(fl)));
                    assert(norm(b) == NodeV::Children(norm_seq(n)));
                }
            },
            (NodeV::Children(o), _) => {
                assert(diff_spec(a, b) == (if o.len() == 1 {
                    diff_spec(o[0], b)
                } else {
                    Some(PatchV::Replace(b))
                }));
                if o.len() == 1 {
                    lemma_text_bounded_child(o, 0);
                    lemma_round_trip(o[0], b);
                    lemma_diff_not_children(o[0], b);
                    match p {
                        PatchV::Replace(v) => {
                            assert(apply_node(a, p) == (v, None::<PatchErrorV>));
                            assert(apply_node(o[0], p) == (v, None::<PatchErrorV>));
                        },
                        PatchV::Text(_) => {
                            assert(apply_node(a, p) == apply_node(o[0], p));
                        },
                        PatchV::Wrapped(_) => {
                            assert(apply_node(a, p) == apply_node(o[0], p));
                        },
                        PatchV::Children { .. } => {
                            assert(false);
                        },
                    }
                } else {
                    assert(p == PatchV::Replace(b));
                    assert(apply_node(a, p) == (b, None::<PatchErrorV>));
                }
            },
            (_, NodeV::Children(n)) => {
                assert(diff_spec(a, b) == (if n.len() == 1 {
                    diff_spec(a, n[0])
                } else {
                    Some(PatchV::Replace(b))
                }));
                if n.len() == 1 {
                    lemma_round_trip(a, n[0]);
                    assert(norm(b) == norm(n[0]));
                } else {
                    assert(p == PatchV::Replace(b));
                }
            },
            (NodeV::Text(s), NodeV::Text(t)) => {
                assert(p == PatchV::Text(crate::text_patch::text_patch_of(s, t)));
                lemma_text_patch_round_trip(s, t);
            },
            (NodeV::URL(s), NodeV::URL(t)) => {
                assert(p == PatchV::Text(crate::text_patch::text_patch_of(s, t)));
                lemma_text_patch_round_trip(s, t);
            },
            (NodeV::Code(s), NodeV::Code(t)) => {
                assert(p == PatchV::Text(crate::text_patch::text_patch_of(s, t)));
                lemma_text_patch_round_trip(s, t);
            },
            (NodeV::Spoiler(x), NodeV::Spoiler(y)) => {
                lemma_round_trip(*x, *y);
                let q = diff_spec(*x, *y)->Some_0;
                assert(p == PatchV::Wrapped(Box::new(q)));
                assert(norm(b) == NodeV::Spoiler(Box::new(norm(*y))));
            },
            (NodeV::Bold(x), NodeV::Bold(y)) => {
                lemma_round_trip(*x, *y);
                let q = diff_spec(*x, *y)->Some_0;
                assert(p == PatchV::Wrapped(Box::new(q)));
                assert(norm(b) == NodeV::Bold(Box::new(norm(*y))));
            },
            (NodeV::Italic(x), NodeV::Italic(y)) => {
                lemma_round_trip(*x, *y);
                let q = diff_spec(*x, *y)->Some_0;
                assert(p == PatchV::Wrapped(Box::new(q)));
                assert(norm(b) == NodeV::Italic(Box::new(norm(*y))));
            },
            (NodeV::Quoted(x), NodeV::Quoted(y)) => {
                lemma_round_trip(*x, *y);
                let q = diff_spec(*x, *y)->Some_0;
                assert(p == PatchV::Wrapped(Box::new(q)));
                assert(norm(b) == NodeV::Quoted(Box::new(norm(*y))));
            },
            _ => {
                assert(p == PatchV::Replace(b));
            },
        }
    }
}

/// Applying positional entries whose prefix up to `k` succeeds, and whose
/// entry at `k` names an index outside the list, stops at `k` with the
/// out-of-bounds error, keeping the prefix's mutations.
proof fn lemma_rec_out_of_bounds(list: Seq<NodeV>, ps: Seq<(int, PatchV)>, k: int)
    requires
        0 <= k < ps.len(),
        !(0 <= ps[k].0 < list.len()),
        apply_children_rec(list, ps.subrange(0, k)).1 is None,
    ensures
        apply_children_rec(list, ps) == (
            apply_children_rec(list, ps.subrange(0, k)).0,
            Some(PatchErrorV::OutOfBounds { index: ps[k].0, len: list.len() as int }),
        ),
    decreases k,
{
    let pre = ps.subrange(0, k);
    if k == 0 {
        assert(pre =~= Seq::<(int, PatchV)>::empty());
        assert(apply_children_rec(list, pre) == (list, None::<PatchErrorV>));
        assert(apply_children_rec(list, ps) == (
            list,
            Some(PatchErrorV::OutOfBounds { index: ps[0].0, len: list.len() as int }),
        ));
    } else {
        let i0 = ps[0].0;
        let sp0 = ps[0].1;
        assert(pre[0] == ps[0]);
        let sub0 = apply_node(list[i0], sp0);
        assert(0 <= i0 < list.len());
        assert(!(sub0.1 is Some));
        let l2 = list.update(i0, sub0.0);
        let ps1 = ps.subrange(1, ps.len() as int);
        let pre1 = pre.subrange(1, pre.len() as int);
        assert(pre1 =~= ps1.subrange(0, k - 1));
        assert(apply_children_rec(list, pre) == apply_children_rec(l2, pre1));
        assert(apply_children_rec(list, ps) == apply_children_rec(l2, ps1));
        assert(ps1[k - 1] == ps[k]);
        assert(l2.len() == list.len());
        lemma_rec_out_of_bounds(l2, ps1, k - 1);
    }
}

/// Boundary: a `Children` patch whose positional entry at `k` names an index
/// at or beyond the destination list's length fails with the out-of-bounds
/// error carrying that index and the length — and the entries before `k`,
/// having already applied, remain applied in the result (no rollback);
/// truncation and appending never happen.
pub proof fn lemma_children_out_of_bounds(
    list: Seq<NodeV>,
    ps: Seq<(int, PatchV)>,
    tr: Option<int>,
    ap: Seq<NodeV>,
    k: int,
)
    requires
        0 <= k < ps.len(),
        !(0 <= ps[k].0 < list.len()),
        apply_children_rec(list, ps.subrange(0, k)).1 is None,
    ensures
        ({
            let partial = apply_children_rec(list, ps.subrange(0, k)).0;
            apply_node(
                NodeV::Children(list),
                PatchV::Children { patch: ps, truncate: tr, append: ap },
            ) == (
                NodeV::Children(partial),
                Some(PatchErrorV::OutOfBounds { index: ps[k].0, len: list.len() as int }),
            )
        }),
{
    lemma_rec_out_of_bounds(list, ps, k);
    assert(apply_node(
        NodeV::Children(list),
        PatchV::Children { patch: ps, truncate: tr, append: ap },
    ) == apply_children_full(list, ps, tr, ap));
}

/// Mismatch: a `Text` patch applied to a destination that is neither a
/// textual leaf nor a singleton child list fails with the type-mismatch
/// error naming both variants, and leaves the destination unchanged.
pub proof fn lemma_text_patch_mismatch(t: NodeV, tp: crate::text_patch::TextPatchV)
    requires
        !(t is Text),
        !(t is URL),
        !(t is Code),
        !(t matches NodeV::Children(xs) && xs.len() == 1),
    ensures
        apply_node(t, PatchV::Text(tp)) == (
            t,
            Some(
                PatchErrorV::TypeMismatch {
                    node: node_kind(t),
                    patch: patch_kind(PatchV::Text(tp)),
                },
            ),
        ),
{
}

} // verus!
