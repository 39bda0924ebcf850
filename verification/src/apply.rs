//! The tree patch applier: consumes a patch and mutates a tree in place,
//! reporting out-of-bounds child indices and node/patch shape mismatches.

use vstd::prelude::*;

use crate::node::Node;
use crate::node::NodeV;
use crate::node::chars_of;
use crate::node::lemma_seq_view;
use crate::node::seq_view;
use crate::node::string_from_chars;
use crate::patch::Patch;
use crate::patch::PatchError;
use crate::patch::PatchErrorV;
use crate::patch::PatchKind;
use crate::patch::PatchV;
use crate::patch::entries_view;
use crate::patch::lemma_entries_view;
use crate::patch::node_kind;
use crate::patch::patch_kind;
use crate::text_patch::apply_text;

verus! {

/// A child list truncated to length `l`; a length at or beyond the current
/// one leaves the list unchanged.
pub open spec fn truncate_seq(s: Seq<NodeV>, l: int) -> Seq<NodeV> {
    if 0 <= l <= s.len() {
        s.subrange(0, l)
    } else {
        s
    }
}

/// The model of an optional truncation length.
pub open spec fn opt_len_view(t: Option<usize>) -> Option<int> {
    match t {
        Some(l) => Some(l as int),
        None => None,
    }
}

/// Apply the positional sub-patches `ps` to `list`, left to right: each
/// entry patches the child at its index in place. The first out-of-bounds
/// index or failing sub-patch aborts with that error; mutations already made
/// persist.
pub open spec fn apply_children_rec(list: Seq<NodeV>, ps: Seq<(int, PatchV)>) -> (Seq<NodeV>,
    Option<PatchErrorV>)
    decreases ps, NodeV::Empty, 0int,
{
    if ps.len() == 0 {
        (list, None)
    } else {
        let i = ps[0].0;
        let sp = ps[0].1;
        if !(0 <= i < list.len()) {
            (list, Some(PatchErrorV::OutOfBounds { index: i, len: list.len() as int }))
        } else {
            let sub = apply_node(list[i], sp);
            let l2 = list.update(i, sub.0);
            if sub.1 is Some {
                (l2, sub.1)
            } else {
                apply_children_rec(l2, ps.subrange(1, ps.len() as int))
            }
        }
    }
}

/// Apply a full `Children` patch to a child list: positional sub-patches
/// first, then the optional truncation, then the appended nodes, in that
/// fixed order.
pub open spec fn apply_children_full(
    list: Seq<NodeV>,
    ps: Seq<(int, PatchV)>,
    tr: Option<int>,
    ap: Seq<NodeV>,
) -> (NodeV, Option<PatchErrorV>)
    decreases ps, NodeV::Empty, 1int,
{
    let sub = apply_children_rec(list, ps);
    if sub.1 is Some {
        (NodeV::Children(sub.0), sub.1)
    } else {
        let l3 = match tr {
            Some(l) => truncate_seq(sub.0, l),
            None => sub.0,
        };
        (NodeV::Children(l3 + ap), None)
    }
}

/// The tree produced by applying `p` to `t`, with the error, if any, under
/// which the application aborted. Dispatch mirrors the diff cases: `Replace`
/// always succeeds; a `Children` patch applies to a child list, wrapping any
/// other destination into a fresh singleton list first; a `Text` patch edits
/// a textual leaf; `Wrapped` recurses into a wrapper's single child; a
/// singleton child list is first collapsed to its element; any other
/// combination is a type mismatch naming both variants.
pub open spec fn apply_node(t: NodeV, p: PatchV) -> (NodeV, Option<PatchErrorV>)
    decreases p, t, 2int,
{
    match p {
        PatchV::Replace(v) => (v, None),
        PatchV::Children { patch, truncate, append } => match t {
            NodeV::Children(list) => apply_children_full(list, patch, truncate, append),
            _ => apply_children_full(seq![t], patch, truncate, append),
        },
        PatchV::Text(tp) => match t {
            NodeV::Text(s) => (NodeV::Text(apply_text(tp, s)), None),
            NodeV::URL(s) => (NodeV::URL(apply_text(tp, s)), None),
            NodeV::Code(s) => (NodeV::Code(apply_text(tp, s)), None),
            NodeV::Children(xs) => if xs.len() == 1 {
                apply_node(xs[0], p)
            } else {
                (t, Some(PatchErrorV::TypeMismatch { node: node_kind(t), patch: patch_kind(p) }))
            },
            _ => (t, Some(PatchErrorV::TypeMismatch { node: node_kind(t), patch: patch_kind(p) })),
        },
        PatchV::Wrapped(q) => match t {
            NodeV::Spoiler(x) => {
                let sub = apply_node(*x, *q);
                (NodeV::Spoiler(Box::new(sub.0)), sub.1)
            },
            NodeV::Bold(x) => {
                let sub = apply_node(*x, *q);
                (NodeV::Bold(Box::new(sub.0)), sub.1)
            },
            NodeV::Italic(x) => {
                let sub = apply_node(*x, *q);
                (NodeV::Italic(Box::new(sub.0)), sub.1)
            },
            NodeV::Quoted(x) => {
                let sub = apply_node(*x, *q);
                (NodeV::Quoted(Box::new(sub.0)), sub.1)
            },
            NodeV::Children(xs) => if xs.len() == 1 {
                apply_node(xs[0], p)
            } else {
                (t, Some(PatchErrorV::TypeMismatch { node: node_kind(t), patch: patch_kind(p) }))
            },
            _ => (t, Some(PatchErrorV::TypeMismatch { node: node_kind(t), patch: patch_kind(p) })),
        },
    }
}

/// Apply the positional entries of a `Children` patch to the list in place,
/// then truncate, then append.
#[verifier::loop_isolation(false)]
fn apply_children_exec(
    list: &mut Vec<Node>,
    pv: Vec<(usize, Patch)>,
    truncate: Option<usize>,
    append: Vec<Node>,
) -> (r: Result<(), PatchError>)
    ensures
        ({
            let full = apply_children_full(
                seq_view(old(list)@),
                entries_view(pv@),
                opt_len_view(truncate),
                seq_view(append@),
            );
            NodeV::Children(seq_view(final(list)@)) == full.0 && (match r {
                Ok(()) => full.1 is None,
                Err(err) => Some(err@) == full.1,
            })
        }),
    decreases pv, Node::Empty,
{
    let ghost list0 = seq_view(list@);
    let ghost ps0 = entries_view(pv@);
    let ghost pv0 = pv;
    let mut pv = pv;
    let ghost mut k: int = 0;
    while pv.len() > 0
        invariant
            0 <= k <= pv0@.len(),
            pv@ == pv0@.subrange(k, pv0@.len() as int),
            seq_view(list@).len() == list0.len(),
            apply_children_rec(list0, ps0) == apply_children_rec(
                seq_view(list@),
                entries_view(pv@),
            ),
        decreases pv@.len(),
    {
        let ghost list_pre = seq_view(list@);
        let ghost ps_pre = entries_view(pv@);
        proof {
            lemma_entries_view(pv@);
        }
        let (i, p) = pv.remove(0);
        proof {
            lemma_entries_view(pv@);
            assert(pv@ =~= pv0@.subrange(k + 1, pv0@.len() as int));
            assert forall|j: int| 0 <= j < entries_view(pv@).len() implies #[trigger] entries_view(
                pv@,
            )[j] == ps_pre[j + 1] by {
                lemma_entries_view(pv@);
            };
            assert(entries_view(pv@) =~= ps_pre.subrange(1, ps_pre.len() as int));
            assert(ps_pre[0] == (i as int, p@));
        }
        let l = list.len();
        if i >= l {
            proof {
                lemma_seq_view(list@);
                assert(apply_children_rec(list_pre, ps_pre) == (
                    list_pre,
                    Some(
                        PatchErrorV::OutOfBounds { index: i as int, len: list_pre.len() as int },
                    ),
                ));
            }
            return Err(PatchError::OutOfBounds { index: i, len: l });
        }
        proof {
            lemma_seq_view(list@);
            assert(decreases_to!(pv0 => pv0@));
            assert(decreases_to!(pv0@ => pv0@[k]));
            assert(decreases_to!(pv0@[k] => pv0@[k].1));
            assert(pv0@[k].1 == p);
        }
        let ghost before_removal = list@;
        let mut child = list.remove(i);
        let res = child.patch(p);
        list.insert(i, child);
        proof {
            lemma_seq_view(before_removal);
            lemma_seq_view(list@);
            assert(list@ =~= before_removal.update(i as int, child));
            assert(seq_view(list@) =~= list_pre.update(
                i as int,
                apply_node(list_pre[i as int], p@).0,
            ));
            assert(apply_children_rec(list_pre, ps_pre) == (if apply_node(
                list_pre[i as int],
                p@,
            ).1 is Some {
                (seq_view(list@), apply_node(list_pre[i as int], p@).1)
            } else {
                apply_children_rec(seq_view(list@), entries_view(pv@))
            }));
        }
        match res {
            Err(e) => {
                return Err(e);
            },
            Ok(()) => {},
        }
        proof {
            k = k + 1;
        }
    }
    proof {
        assert(entries_view(pv@) =~= Seq::<(int, PatchV)>::empty());
        assert(apply_children_rec(list0, ps0) == (seq_view(list@), None::<PatchErrorV>));
    }
    let ghost after_subs = seq_view(list@);
    match truncate {
        Some(l) => {
            let ghost before_trunc = list@;
            list.truncate(l);
            proof {
                lemma_seq_view(before_trunc);
                lemma_seq_view(list@);
                if l <= before_trunc.len() {
                    assert(list@ =~= before_trunc.subrange(0, l as int));
                }
                assert(seq_view(list@) =~= truncate_seq(after_subs, l as int));
            }
        },
        None => {},
    }
    let ghost after_trunc = seq_view(list@);
    let mut ap = append;
    let ghost before_append = list@;
    list.append(&mut ap);
    proof {
        lemma_seq_view(before_append);
        lemma_seq_view(append@);
        lemma_seq_view(list@);
        assert(seq_view(list@) =~= after_trunc + seq_view(append@));
    }
    Ok(())
}

impl Node {
    /// Apply `patch` to this tree, mutating it in place into the patched
    /// tree. On an out-of-bounds child index or a node/patch shape mismatch
    /// the application aborts with that error; mutations already performed
    /// persist (no rollback), and the caller must resynchronize with a full
    /// snapshot.
    #[verifier::loop_isolation(false)]
    pub fn patch(&mut self, patch: Patch) -> (r: Result<(), PatchError>)
        ensures
            ({
                let sub = apply_node(old(self)@, patch@);
                final(self)@ == sub.0 && (match r {
                    Ok(()) => sub.1 is None,
                    Err(err) => Some(err@) == sub.1,
                })
            }),
        decreases patch, *old(self),
    {
        let ghost p0 = patch;
        let ghost t0 = *self;
        match patch {
            Patch::Replace(v) => {
                *self = v;
                Ok(())
            },
            Patch::Children { patch: pv, truncate, append } => {
                proof {
                    assert(decreases_to!(p0 => p0->Children_patch));
                    assert(p0->Children_patch == pv);
                }
                match self {
                    Node::Children(list) => apply_children_exec(list, pv, truncate, append),
                    _ => {
                        let mut taken = Node::Empty;
                        core::mem::swap(self, &mut taken);
                        let mut list: Vec<Node> = Vec::new();
                        list.push(taken);
                        proof {
                            lemma_seq_view(list@);
                            assert(seq_view(list@) =~= seq![t0@]);
                        }
                        let r = apply_children_exec(&mut list, pv, truncate, append);
                        *self = Node::Children(list);
                        r
                    },
                }
            },
            Patch::Text(tp) => match self {
                Node::Text(s) => {
                    let oc = chars_of(s.as_str());
                    let mut out: Vec<char> = Vec::new();
                    tp.apply(&mut out, oc.as_slice());
                    *s = string_from_chars(out.as_slice());
                    Ok(())
                },
                Node::URL(s) => {
                    let oc = chars_of(s.as_str());
                    let mut out: Vec<char> = Vec::new();
                    tp.apply(&mut out, oc.as_slice());
                    *s = string_from_chars(out.as_slice());
                    Ok(())
                },
                Node::Code(s) => {
                    let oc = chars_of(s.as_str());
                    let mut out: Vec<char> = Vec::new();
                    tp.apply(&mut out, oc.as_slice());
                    *s = string_from_chars(out.as_slice());
                    Ok(())
                },
                Node::Children(list) => {
                    if list.len() == 1 {
                        proof {
                            lemma_seq_view(list@);
                            assert(decreases_to!(t0 => t0->Children_0));
                            assert(decreases_to!(t0->Children_0 => t0->Children_0@));
                            assert(decreases_to!(t0->Children_0@ => t0->Children_0@[0]));
                        }
                        let child = list.remove(0);
                        *self = child;
                        self.patch(Patch::Text(tp))
                    } else {
                        proof {
                            lemma_seq_view(list@);
                        }
                        Err(PatchError::TypeMismatch {
                            node: self.kind(),
                            patch: PatchKind::Text,
                        })
                    }
                },
                _ => Err(PatchError::TypeMismatch { node: self.kind(), patch: PatchKind::Text }),
            },
            Patch::Wrapped(q) => match self {
                Node::Spoiler(b) => {
                    proof {
                        assert(decreases_to!(p0 => p0->Wrapped_0));
                    }
                    (&mut **b).patch(*q)
                },
                Node::Bold(b) => {
                    proof {
                        assert(decreases_to!(p0 => p0->Wrapped_0));
                    }
                    (&mut **b).patch(*q)
                },
                Node::Italic(b) => {
                    proof {
                        assert(decreases_to!(p0 => p0->Wrapped_0));
                    }
                    (&mut **b).patch(*q)
                },
                Node::Quoted(b) => {
                    proof {
                        assert(decreases_to!(p0 => p0->Wrapped_0));
                    }
                    (&mut **b).patch(*q)
                },
                Node::Children(list) => {
                    if list.len() == 1 {
                        proof {
                            lemma_seq_view(list@);
                            assert(decreases_to!(t0 => t0->Children_0));
                            assert(decreases_to!(t0->Children_0 => t0->Children_0@));
                            assert(decreases_to!(t0->Children_0@ => t0->Children_0@[0]));
                        }
                        let child = list.remove(0);
                        *self = child;
                        self.patch(Patch::Wrapped(q))
                    } else {
                        proof {
                            lemma_seq_view(list@);
                        }
                        Err(PatchError::TypeMismatch {
                            node: self.kind(),
                            patch: PatchKind::Wrapped,
                        })
                    }
                },
                _ => Err(PatchError::TypeMismatch {
                    node: self.kind(),
                    patch: PatchKind::Wrapped,
                }),
            },
        }
    }
}

} // verus!
