//! The tree diff engine: a positional, single-pass comparison of two trees
//! that emits a patch describing only the positions that differ.

use vstd::prelude::*;

use crate::node::Node;
use crate::node::NodeV;
use crate::node::chars_of;
use crate::node::lemma_seq_view;
use crate::node::seq_view;
use crate::node::str_eq;
use crate::patch::Patch;
use crate::patch::PatchV;
use crate::patch::entries_view;
use crate::patch::lemma_entries_view;
use crate::text_patch::TextPatch;
use crate::text_patch::text_patch_of;

verus! {

/// Every textual leaf (`Text`, `URL`, `Code`) holds at most 65535 scalars,
/// the range addressable by a 16-bit text patch. Trees beyond this bound are
/// a boundary condition callers must guard against upstream.
pub open spec fn text_bounded(n: NodeV) -> bool
    decreases n,
{
    match n {
        NodeV::Children(xs) => texts_bounded(xs),
        NodeV::Text(s) => s.len() <= u16::MAX,
        NodeV::URL(s) => s.len() <= u16::MAX,
        NodeV::Code(s) => s.len() <= u16::MAX,
        NodeV::Spoiler(x) => text_bounded(*x),
        NodeV::Bold(x) => text_bounded(*x),
        NodeV::Italic(x) => text_bounded(*x),
        NodeV::Quoted(x) => text_bounded(*x),
        _ => true,
    }
}

/// Every element of the list is text-bounded.
pub open spec fn texts_bounded(xs: Seq<NodeV>) -> bool
    decreases xs,
{
    xs.len() == 0 || (text_bounded(xs[0]) && texts_bounded(xs.subrange(1, xs.len() as int)))
}

/// `texts_bounded` holds exactly when each element is bounded.
pub proof fn lemma_texts_bounded(xs: Seq<NodeV>)
    ensures
        texts_bounded(xs) <==> (forall|i: int|
            0 <= i < xs.len() ==> #[trigger] text_bounded(xs[i])),
    decreases xs.len(),
{
    if xs.len() > 0 {
        let t = xs.subrange(1, xs.len() as int);
        lemma_texts_bounded(t);
        assert(texts_bounded(xs) == (text_bounded(xs[0]) && texts_bounded(t)));
        if texts_bounded(xs) {
            assert forall|i: int| 0 <= i < xs.len() implies #[trigger] text_bounded(xs[i]) by {
                if i > 0 {
                    assert(t[i - 1] == xs[i]);
                    assert(text_bounded(t[i - 1]));
                }
            };
        }
        if forall|i: int| 0 <= i < xs.len() ==> #[trigger] text_bounded(xs[i]) {
            assert forall|i: int| 0 <= i < t.len() implies #[trigger] text_bounded(t[i]) by {
                assert(t[i] == xs[i + 1]);
            };
            assert(texts_bounded(t));
        }
    }
}

/// A bounded child list has bounded elements.
pub proof fn lemma_text_bounded_child(xs: Seq<NodeV>, i: int)
    requires
        text_bounded(NodeV::Children(xs)),
        0 <= i < xs.len(),
    ensures
        text_bounded(xs[i]),
{
    assert(text_bounded(NodeV::Children(xs)) == texts_bounded(xs));
    lemma_texts_bounded(xs);
}

/// Diffing `a` against `b` yields nothing: the two trees are observably
/// equal, up to the interchange of a singleton child list with its element
/// at the point of comparison.
pub open spec fn no_diff(a: NodeV, b: NodeV) -> bool
    decreases a, b,
{
    match (a, b) {
        (NodeV::Children(x), NodeV::Children(y)) => x.len() == y.len() && no_diff_seq(x, y),
        (NodeV::Children(x), _) => x.len() == 1 && no_diff(x[0], b),
        (_, NodeV::Children(y)) => y.len() == 1 && no_diff(a, y[0]),
        (NodeV::Spoiler(x), NodeV::Spoiler(y)) => no_diff(*x, *y),
        (NodeV::Bold(x), NodeV::Bold(y)) => no_diff(*x, *y),
        (NodeV::Italic(x), NodeV::Italic(y)) => no_diff(*x, *y),
        (NodeV::Quoted(x), NodeV::Quoted(y)) => no_diff(*x, *y),
        _ => a == b,
    }
}

/// Pairwise `no_diff` over the indices present in both lists.
pub open spec fn no_diff_seq(x: Seq<NodeV>, y: Seq<NodeV>) -> bool
    decreases x, y,
{
    x.len() == 0 || y.len() == 0 || (no_diff(x[0], y[0]) && no_diff_seq(
        x.subrange(1, x.len() as int),
        y.subrange(1, y.len() as int),
    ))
}

/// `no_diff_seq` holds exactly when every pair in the shared range diffs to
/// nothing.
pub proof fn lemma_no_diff_seq(x: Seq<NodeV>, y: Seq<NodeV>)
    ensures
        no_diff_seq(x, y) <==> (forall|i: int|
            0 <= i < min_len(x, y) ==> #[trigger] no_diff(x[i], y[i])),
    decreases x.len(),
{
    if x.len() > 0 && y.len() > 0 {
        let xt = x.subrange(1, x.len() as int);
        let yt = y.subrange(1, y.len() as int);
        lemma_no_diff_seq(xt, yt);
        assert(no_diff_seq(x, y) == (no_diff(x[0], y[0]) && no_diff_seq(xt, yt)));
        if no_diff_seq(x, y) {
            assert forall|i: int| 0 <= i < min_len(x, y) implies #[trigger] no_diff(x[i], y[i]) by {
                if i > 0 {
                    assert(xt[i - 1] == x[i] && yt[i - 1] == y[i]);
                    assert(no_diff(xt[i - 1], yt[i - 1]));
                }
            };
        }
        if forall|i: int| 0 <= i < min_len(x, y) ==> #[trigger] no_diff(x[i], y[i]) {
            assert forall|i: int| 0 <= i < min_len(xt, yt) implies #[trigger] no_diff(
                xt[i],
                yt[i],
            ) by {
                assert(xt[i] == x[i + 1] && yt[i] == y[i + 1]);
            };
            assert(no_diff_seq(xt, yt));
        }
    }
}

/// The shorter of the two lists' lengths: the range walked pairwise.
pub open spec fn min_len(o: Seq<NodeV>, n: Seq<NodeV>) -> int {
    if o.len() <= n.len() {
        o.len() as int
    } else {
        n.len() as int
    }
}

/// The positional sub-patches for indices `j` and onward: for each index
/// present in both lists where the pair diffs to something, the pair
/// `(index, sub-patch)`, in index order.
pub open spec fn diff_entries_from(o: Seq<NodeV>, n: Seq<NodeV>, j: int) -> Seq<(int, PatchV)>
    decreases o, n, min_len(o, n) - j,
{
    if j < 0 || j >= min_len(o, n) {
        Seq::empty()
    } else {
        match diff_spec(o[j], n[j]) {
            Some(p) => seq![(j, p)] + diff_entries_from(o, n, j + 1),
            None => diff_entries_from(o, n, j + 1),
        }
    }
}

/// The diff of `b` against `a`: `None` when the trees are observably equal,
/// otherwise the patch that rewrites `a` into `b`. Cases, in priority order:
/// equal atoms; pairwise child-list walk with truncate/append for the
/// outrun; unwrap of a singleton child list on either side; scalar-sequence
/// diff of same-kind textual leaves; recursion into same-kind wrappers;
/// otherwise wholesale replacement when unequal.
pub open spec fn diff_spec(a: NodeV, b: NodeV) -> Option<PatchV>
    decreases a, b, 0int,
{
    match (a, b) {
        (NodeV::Empty, NodeV::Empty) => None,
        (NodeV::NewLine, NodeV::NewLine) => None,
        (NodeV::Children(o), NodeV::Children(n)) => {
            let entries = diff_entries_from(o, n, 0);
            let truncate = if n.len() < o.len() {
                Some(n.len() as int)
            } else {
                None
            };
            let append = if o.len() < n.len() {
                n.subrange(o.len() as int, n.len() as int)
            } else {
                Seq::empty()
            };
            if entries.len() == 0 && truncate is None && append.len() == 0 {
                None
            } else {
                Some(PatchV::Children { patch: entries, truncate, append })
            }
        },
        (NodeV::Children(o), _) => if o.len() == 1 {
            diff_spec(o[0], b)
        } else {
            Some(PatchV::Replace(b))
        },
        (_, NodeV::Children(n)) => if n.len() == 1 {
            diff_spec(a, n[0])
        } else {
            Some(PatchV::Replace(b))
        },
        (NodeV::Text(s), NodeV::Text(t)) => if s == t {
            None
        } else {
            Some(PatchV::Text(text_patch_of(s, t)))
        },
        (NodeV::URL(s), NodeV::URL(t)) => if s == t {
            None
        } else {
            Some(PatchV::Text(text_patch_of(s, t)))
        },
        (NodeV::Code(s), NodeV::Code(t)) => if s == t {
            None
        } else {
            Some(PatchV::Text(text_patch_of(s, t)))
        },
        (NodeV::Spoiler(x), NodeV::Spoiler(y)) => match diff_spec(*x, *y) {
            Some(p) => Some(PatchV::Wrapped(Box::new(p))),
            None => None,
        },
        (NodeV::Bold(x), NodeV::Bold(y)) => match diff_spec(*x, *y) {
            Some(p) => Some(PatchV::Wrapped(Box::new(p))),
            None => None,
        },
        (NodeV::Italic(x), NodeV::Italic(y)) => match diff_spec(*x, *y) {
            Some(p) => Some(PatchV::Wrapped(Box::new(p))),
            None => None,
        },
        (NodeV::Quoted(x), NodeV::Quoted(y)) => match diff_spec(*x, *y) {
            Some(p) => Some(PatchV::Wrapped(Box::new(p))),
            None => None,
        },
        _ => if a == b {
            None
        } else {
            Some(PatchV::Replace(b))
        },
    }
}

/// The positional entries from `j` onward are empty exactly when every
/// remaining pair diffs to nothing.
proof fn lemma_entries_empty(o: Seq<NodeV>, n: Seq<NodeV>, j: int)
    requires
        0 <= j,
    ensures
        diff_entries_from(o, n, j).len() == 0 <==> (forall|i: int|
            j <= i < min_len(o, n) ==> #[trigger] diff_spec(o[i], n[i]) is None),
    decreases min_len(o, n) - j,
{
    if j >= min_len(o, n) {
    } else {
        lemma_entries_empty(o, n, j + 1);
        match diff_spec(o[j], n[j]) {
            Some(p) => {
                assert(diff_entries_from(o, n, j).len() > 0);
                assert(!(diff_spec(o[j], n[j]) is None));
            },
            None => {
                assert(diff_entries_from(o, n, j) == diff_entries_from(o, n, j + 1));
                if diff_entries_from(o, n, j).len() == 0 {
                    assert forall|i: int| j <= i < min_len(o, n) implies #[trigger] diff_spec(
                        o[i],
                        n[i],
                    ) is None by {
                        if i > j {
                            assert(diff_entries_from(o, n, j + 1).len() == 0);
                        }
                    };
                }
                if forall|i: int| j <= i < min_len(o, n) ==> #[trigger] diff_spec(o[i], n[i])
                    is None {
                    assert forall|i: int| j + 1 <= i < min_len(o, n) implies #[trigger] diff_spec(
                        o[i],
                        n[i],
                    ) is None by {
                        assert(diff_spec(o[i], n[i]) is None);
                    };
                    assert(diff_entries_from(o, n, j + 1).len() == 0);
                }
            },
        }
    }
}

/// Diffing yields nothing exactly on observably equal trees.
pub proof fn lemma_diff_none_iff(a: NodeV, b: NodeV)
    ensures
        diff_spec(a, b) is None <==> no_diff(a, b),
    decreases a, b,
{
    match (a, b) {
        (NodeV::Children(o), NodeV::Children(n)) => {
            lemma_entries_empty(o, n, 0);
            lemma_no_diff_seq(o, n);
            assert forall|i: int| 0 <= i < min_len(o, n) implies (#[trigger] diff_spec(
                o[i],
                n[i],
            ) is None <==> no_diff(o[i], n[i])) by {
                lemma_diff_none_iff(o[i], n[i]);
            };
            assert(no_diff(a, b) == (o.len() == n.len() && no_diff_seq(o, n)));
            let entries = diff_entries_from(o, n, 0);
            let truncate = if n.len() < o.len() {
                Some(n.len() as int)
            } else {
                None
            };
            let append = if o.len() < n.len() {
                n.subrange(o.len() as int, n.len() as int)
            } else {
                Seq::empty()
            };
            assert(diff_spec(a, b) == (if entries.len() == 0 && truncate is None && append.len()
                == 0 {
                None
            } else {
                Some(PatchV::Children { patch: entries, truncate, append })
            }));
            if diff_spec(a, b) is None {
                assert(entries.len() == 0 && o.len() == n.len());
                assert forall|i: int| 0 <= i < min_len(o, n) implies #[trigger] no_diff(
                    o[i],
                    n[i],
                ) by {
                    assert(diff_spec(o[i], n[i]) is None);
                };
                assert(no_diff_seq(o, n));
                assert(no_diff(a, b));
            }
            if no_diff(a, b) {
                assert(o.len() == n.len());
                assert forall|i: int| 0 <= i < min_len(o, n) implies #[trigger] diff_spec(
                    o[i],
                    n[i],
                ) is None by {
                    assert(no_diff(o[i], n[i]));
                };
                assert(entries.len() == 0);
                assert(diff_spec(a, b) is None);
            }
        },
        (NodeV::Children(o), _) => {
            if o.len() == 1 {
                lemma_diff_none_iff(o[0], b);
            }
        },
        (_, NodeV::Children(n)) => {
            if n.len() == 1 {
                lemma_diff_none_iff(a, n[0]);
            }
        },
        (NodeV::Spoiler(x), NodeV::Spoiler(y)) => lemma_diff_none_iff(*x, *y),
        (NodeV::Bold(x), NodeV::Bold(y)) => lemma_diff_none_iff(*x, *y),
        (NodeV::Italic(x), NodeV::Italic(y)) => lemma_diff_none_iff(*x, *y),
        (NodeV::Quoted(x), NodeV::Quoted(y)) => lemma_diff_none_iff(*x, *y),
        _ => {},
    }
}

impl Node {
    /// Diff the new tree against this one. Yields `None` exactly when the
    /// trees are observably equal (no patch need be transmitted); otherwise
    /// the patch whose application rewrites this tree into `new`.
    #[verifier::loop_isolation(false)]
    pub fn diff(&self, new: &Node) -> (r: Option<Patch>)
        requires
            text_bounded(self@),
        ensures
            r matches Some(p) ==> diff_spec(self@, new@) == Some(p@),
            r is None <==> diff_spec(self@, new@) is None,
            r is None <==> no_diff(self@, new@),
        decreases self, new,
    {
        proof {
            lemma_diff_none_iff(self@, new@);
        }
        match (self, new) {
            (Node::Empty, Node::Empty) => None,
            (Node::NewLine, Node::NewLine) => None,
            (Node::Children(o), Node::Children(n)) => {
                let ghost ov = seq_view(o@);
                let ghost nv = seq_view(n@);
                proof {
                    lemma_seq_view(o@);
                    lemma_seq_view(n@);
                }
                let o_len: usize = o.len();
                let n_len: usize = n.len();
                let m: usize = if o_len <= n_len { o_len } else { n_len };
                let mut entries: Vec<(usize, Patch)> = Vec::new();
                let mut i: usize = 0;
                while i < m
                    invariant
                        0 <= i <= m,
                        m == min_len(ov, nv),
                        entries_view(entries@) + diff_entries_from(ov, nv, i as int)
                            == diff_entries_from(ov, nv, 0),
                    decreases m - i,
                {
                    proof {
                        assert(decreases_to!(*self => (*self)->Children_0));
                        assert(decreases_to!((*self)->Children_0 => (*self)->Children_0@));
                        assert(decreases_to!((*self)->Children_0@ => (*self)->Children_0@[
                            i as int
                        ]));
                        assert((*self)->Children_0@[i as int] == o@[i as int]);
                        assert(decreases_to!(*self => o@[i as int]));
                        assert(self@ == NodeV::Children(ov));
                        lemma_text_bounded_child(ov, i as int);
                    }
                    let ghost entries_prev = entries@;
                    let sub = o[i].diff(&n[i]);
                    match sub {
                        Some(p) => {
                            entries.push((i, p));
                            proof {
                                lemma_entries_view(entries_prev);
                                lemma_entries_view(entries@);
                                assert(entries@ =~= entries_prev.push((i, p)));
                                assert(entries_view(entries@) =~= entries_view(entries_prev)
                                    + seq![(i as int, p@)]);
                                assert(diff_entries_from(ov, nv, i as int) == seq![
                                    (i as int, p@),
                                ] + diff_entries_from(ov, nv, i + 1));
                                assert(entries_view(entries@) + diff_entries_from(ov, nv, i + 1)
                                    =~= diff_entries_from(ov, nv, 0));
                            }
                        },
                        None => {
                            proof {
                                assert(diff_entries_from(ov, nv, i as int)
                                    == diff_entries_from(ov, nv, i + 1));
                            }
                        },
                    }
                    i = i + 1;
                }
                proof {
                    assert(diff_entries_from(ov, nv, m as int).len() == 0);
                    assert(entries_view(entries@) =~= diff_entries_from(ov, nv, 0));
                    lemma_entries_view(entries@);
                }
                let truncate: Option<usize> = if n_len < o_len {
                    Some(n_len)
                } else {
                    None
                };
                let mut append: Vec<Node> = Vec::new();
                if o_len < n_len {
                    let mut j: usize = o_len;
                    while j < n_len
                        invariant
                            o_len <= j <= n_len,
                            o_len < n_len,
                            seq_view(append@) == nv.subrange(o_len as int, j as int),
                        decreases n_len - j,
                    {
                        let ghost append_prev = append@;
                        let c = n[j].clone();
                        append.push(c);
                        proof {
                            lemma_seq_view(append_prev);
                            lemma_seq_view(append@);
                            assert(seq_view(append@).len() == append@.len());
                            assert forall|k: int| 0 <= k < append@.len() implies seq_view(
                                append@,
                            )[k] == nv.subrange(o_len as int, j + 1)[k] by {
                                assert(seq_view(append@)[k] == append@[k]@);
                                if k < append@.len() - 1 {
                                    assert(append@[k] == append_prev[k]);
                                    assert(seq_view(append_prev)[k] == append_prev[k]@);
                                    assert(seq_view(append_prev)[k] == nv.subrange(
                                        o_len as int,
                                        j as int,
                                    )[k]);
                                } else {
                                    assert(append@[k] == c);
                                    assert(c@ == nv[j as int]);
                                }
                            };
                            assert(seq_view(append@) =~= nv.subrange(o_len as int, j + 1));
                        }
                        j = j + 1;
                    }
                }
                proof {
                    lemma_seq_view(append@);
                    if o_len < n_len {
                        assert(seq_view(append@) == nv.subrange(o_len as int, n_len as int));
                    } else {
                        assert(seq_view(append@) =~= Seq::<NodeV>::empty());
                    }
                }
                proof {
                    assert(self@ == NodeV::Children(ov));
                    assert(new@ == NodeV::Children(nv));
                    let sentries = diff_entries_from(ov, nv, 0);
                    let strunc = if nv.len() < ov.len() {
                        Some(nv.len() as int)
                    } else {
                        None
                    };
                    let sapp = if ov.len() < nv.len() {
                        nv.subrange(ov.len() as int, nv.len() as int)
                    } else {
                        Seq::<NodeV>::empty()
                    };
                    assert(diff_spec(self@, new@) == (if sentries.len() == 0 && strunc is None
                        && sapp.len() == 0 {
                        None
                    } else {
                        Some(PatchV::Children { patch: sentries, truncate: strunc, append: sapp })
                    }));
                    lemma_entries_view(entries@);
                    assert(entries_view(entries@) == sentries);
                    assert(seq_view(append@) == sapp);
                }
                if entries.len() == 0 && truncate.is_none() && append.len() == 0 {
                    None
                } else {
                    let r = Some(Patch::Children { patch: entries, truncate, append });
                    proof {
                        lemma_entries_view(entries@);
                    }
                    r
                }
            },
            (Node::Children(o), _) => {
                proof {
                    lemma_seq_view(o@);
                    assert(self@ == NodeV::Children(seq_view(o@)));
                    assert(diff_spec(self@, new@) == (if seq_view(o@).len() == 1 {
                        diff_spec(seq_view(o@)[0], new@)
                    } else {
                        Some(PatchV::Replace(new@))
                    }));
                }
                if o.len() == 1 {
                    proof {
                        lemma_seq_view(o@);
                        assert(decreases_to!(*self => (*self)->Children_0));
                        assert(decreases_to!((*self)->Children_0 => (*self)->Children_0@));
                        assert(decreases_to!((*self)->Children_0@ => (*self)->Children_0@[0]));
                        assert((*self)->Children_0@[0] == o@[0]);
                        assert(decreases_to!(*self => o@[0]));
                        assert(self@ == NodeV::Children(seq_view(o@)));
                        lemma_text_bounded_child(seq_view(o@), 0);
                    }
                    o[0].diff(new)
                } else {
                    Some(Patch::Replace(new.clone()))
                }
            },
            (_, Node::Children(n)) => {
                proof {
                    lemma_seq_view(n@);
                    assert(new@ == NodeV::Children(seq_view(n@)));
                    assert(diff_spec(self@, new@) == (if seq_view(n@).len() == 1 {
                        diff_spec(self@, seq_view(n@)[0])
                    } else {
                        Some(PatchV::Replace(new@))
                    }));
                }
                if n.len() == 1 {
                    proof {
                        lemma_seq_view(n@);
                        assert(decreases_to!(*new => (*new)->Children_0));
                        assert(decreases_to!((*new)->Children_0 => (*new)->Children_0@));
                        assert(decreases_to!((*new)->Children_0@ => (*new)->Children_0@[0]));
                        assert((*new)->Children_0@[0] == n@[0]);
                        assert(decreases_to!(*new => n@[0]));
                    }
                    self.diff(&n[0])
                } else {
                    proof {
                        lemma_seq_view(n@);
                    }
                    Some(Patch::Replace(new.clone()))
                }
            },
            (Node::Text(a), Node::Text(b)) => {
                proof {
                    assert(diff_spec(self@, new@) == (if a@ == b@ {
                        None
                    } else {
                        Some(PatchV::Text(text_patch_of(a@, b@)))
                    }));
                }
                if str_eq(a, b) {
                    None
                } else {
                    let oc = chars_of(a.as_str());
                    let nc = chars_of(b.as_str());
                    Some(Patch::Text(TextPatch::new(oc.as_slice(), nc.as_slice())))
                }
            },
            (Node::URL(a), Node::URL(b)) => {
                proof {
                    assert(diff_spec(self@, new@) == (if a@ == b@ {
                        None
                    } else {
                        Some(PatchV::Text(text_patch_of(a@, b@)))
                    }));
                }
                if str_eq(a, b) {
                    None
                } else {
                    let oc = chars_of(a.as_str());
                    let nc = chars_of(b.as_str());
                    Some(Patch::Text(TextPatch::new(oc.as_slice(), nc.as_slice())))
                }
            },
            (Node::Code(a), Node::Code(b)) => {
                proof {
                    assert(diff_spec(self@, new@) == (if a@ == b@ {
                        None
                    } else {
                        Some(PatchV::Text(text_patch_of(a@, b@)))
                    }));
                }
                if str_eq(a, b) {
                    None
                } else {
                    let oc = chars_of(a.as_str());
                    let nc = chars_of(b.as_str());
                    Some(Patch::Text(TextPatch::new(oc.as_slice(), nc.as_slice())))
                }
            },
            (Node::Spoiler(a), Node::Spoiler(b)) => {
                proof {
                    assert(diff_spec(self@, new@) == (match diff_spec((**a)@, (**b)@) {
                        Some(p) => Some(PatchV::Wrapped(Box::new(p))),
                        None => None,
                    }));
                }
                match (&**a).diff(&**b) {
                    Some(p) => Some(Patch::Wrapped(Box::new(p))),
                    None => None,
                }
            },
            (Node::Bold(a), Node::Bold(b)) => {
                proof {
                    assert(diff_spec(self@, new@) == (match diff_spec((**a)@, (**b)@) {
                        Some(p) => Some(PatchV::Wrapped(Box::new(p))),
                        None => None,
                    }));
                }
                match (&**a).diff(&**b) {
                    Some(p) => Some(Patch::Wrapped(Box::new(p))),
                    None => None,
                }
            },
            (Node::Italic(a), Node::Italic(b)) => {
                proof {
                    assert(diff_spec(self@, new@) == (match diff_spec((**a)@, (**b)@) {
                        Some(p) => Some(PatchV::Wrapped(Box::new(p))),
                        None => None,
                    }));
                }
                match (&**a).diff(&**b) {
                    Some(p) => Some(Patch::Wrapped(Box::new(p))),
                    None => None,
                }
            },
            (Node::Quoted(a), Node::Quoted(b)) => {
                proof {
                    assert(diff_spec(self@, new@) == (match diff_spec((**a)@, (**b)@) {
                        Some(p) => Some(PatchV::Wrapped(Box::new(p))),
                        None => None,
                    }));
                }
                match (&**a).diff(&**b) {
                    Some(p) => Some(Patch::Wrapped(Box::new(p))),
                    None => None,
                }
            },
            _ => {
                proof {
                    assert(diff_spec(self@, new@) == (if self@ == new@ {
                        None
                    } else {
                        Some(PatchV::Replace(new@))
                    }));
                }
                if self.same(new) {
                    None
                } else {
                    Some(Patch::Replace(new.clone()))
                }
            },
        }
    }
}

} // verus!
