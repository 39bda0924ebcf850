//! Patch types: the tagged union describing a transformation of one node,
//! the envelope pairing a patch with a document id, and the errors the patch
//! applier can report.

use vstd::prelude::*;

use crate::node::NodeV;
use crate::node::seq_view;
use crate::text_patch::TextPatch;
use crate::text_patch::TextPatchV;

verus! {

/// A patch to apply to an existing node, mirroring the shape of the change.
#[derive(Debug)]
pub enum Patch {
    /// Replace the destination node with this one.
    Replace(crate::node::Node),
    /// Partially modify an existing textual node.
    Text(TextPatch),
    /// Patch the contents of a wrapper node (`Spoiler`, `Bold`, `Italic`,
    /// `Quoted`).
    Wrapped(Box<Patch>),
    /// Patch a child list: positional sub-patches first, then an optional
    /// truncation, then appended trailing nodes, in that fixed order.
    Children {
        /// Sub-patches for the nodes at these indices, applied first.
        patch: Vec<(usize, Patch)>,
        /// Truncate the child list to this length afterwards.
        truncate: Option<usize>,
        /// Nodes appended at the end, after truncation.
        append: Vec<crate::node::Node>,
    },
}

/// Mathematical model of a `Patch`. Indices and lengths widen to `int` so the
/// model is total on arbitrary model trees.
#[verifier::ext_equal]
pub enum PatchV {
    Replace(NodeV),
    Text(TextPatchV),
    Wrapped(Box<PatchV>),
    Children { patch: Seq<(int, PatchV)>, truncate: Option<int>, append: Seq<NodeV> },
}

impl View for Patch {
    type V = PatchV;

    open spec fn view(&self) -> PatchV
        decreases self,
    {
        match self {
            Patch::Replace(n) => PatchV::Replace(n@),
            Patch::Text(t) => PatchV::Text(t@),
            Patch::Wrapped(p) => PatchV::Wrapped(Box::new((**p).view())),
            Patch::Children { patch, truncate, append } => PatchV::Children {
                patch: entries_view(patch@),
                truncate: match truncate {
                    Some(l) => Some(*l as int),
                    None => None,
                },
                append: seq_view(append@),
            },
        }
    }
}

/// The model of a list of positional sub-patches: each index widened to
/// `int`, each sub-patch replaced by its model, in order.
pub open spec fn entries_view(s: Seq<(usize, Patch)>) -> Seq<(int, PatchV)>
    decreases s,
{
    if s.len() == 0 {
        Seq::empty()
    } else {
        seq![(s[0].0 as int, s[0].1.view())] + entries_view(s.subrange(1, s.len() as int))
    }
}

/// `entries_view` maps the sequence elementwise.
pub broadcast proof fn lemma_entries_view(s: Seq<(usize, Patch)>)
    ensures
        (#[trigger] entries_view(s)).len() == s.len(),
        forall|i: int|
            0 <= i < s.len() ==> #[trigger] entries_view(s)[i] == (s[i].0 as int, s[i].1@),
    decreases s.len(),
{
    if s.len() > 0 {
        let s1 = s.subrange(1, s.len() as int);
        lemma_entries_view(s1);
        assert(entries_view(s) == seq![(s[0].0 as int, s[0].1.view())] + entries_view(s1));
        assert forall|i: int| 0 <= i < s.len() implies #[trigger] entries_view(s)[i] == (
        s[i].0 as int,
        s[i].1@,
        ) by {
            if i > 0 {
                assert(entries_view(s)[i] == entries_view(s1)[i - 1]);
                assert(s1[i - 1] == s[i]);
            }
        };
    }
}

/// A patch together with the identifier of the document it targets, so a
/// transport layer can route it to the right tree.
#[derive(Debug)]
pub struct PostBodyPatch {
    pub id: u64,
    pub patch: Patch,
}

/// The variant of a node, for mismatch diagnostics.
#[derive(Debug, Clone, Copy, PartialEq, Eq, Structural)]
pub enum NodeKind {
    Empty,
    NewLine,
    Children,
    Text,
    PostLink,
    Command,
    URL,
    Reference,
    Embed,
    Code,
    Spoiler,
    Bold,
    Italic,
    Quoted,
    Pending,
}

/// The variant of a patch, for mismatch diagnostics.
#[derive(Debug, Clone, Copy, PartialEq, Eq, Structural)]
pub enum PatchKind {
    Replace,
    Text,
    Wrapped,
    Children,
}

/// Why a patch could not be applied. Either error means the destination tree
/// has diverged from the version the patch was computed against; the caller
/// must resynchronize with a full snapshot rather than retry.
#[derive(Debug, Clone, Copy, PartialEq, Eq, Structural)]
pub enum PatchError {
    /// A positional child patch referenced an index not present in the
    /// destination list.
    OutOfBounds { index: usize, len: usize },
    /// The patch's shape does not correspond to the destination's variant.
    TypeMismatch { node: NodeKind, patch: PatchKind },
}

/// Mathematical model of a `PatchError`, with indices widened to `int`.
#[verifier::ext_equal]
pub enum PatchErrorV {
    OutOfBounds { index: int, len: int },
    TypeMismatch { node: NodeKind, patch: PatchKind },
}

impl View for PatchError {
    type V = PatchErrorV;

    open spec fn view(&self) -> PatchErrorV {
        match self {
            PatchError::OutOfBounds { index, len } => PatchErrorV::OutOfBounds {
                index: *index as int,
                len: *len as int,
            },
            PatchError::TypeMismatch { node, patch } => PatchErrorV::TypeMismatch {
                node: *node,
                patch: *patch,
            },
        }
    }
}

/// The variant of a model node.
pub open spec fn node_kind(n: NodeV) -> NodeKind {
    match n {
        NodeV::Empty => NodeKind::Empty,
        NodeV::NewLine => NodeKind::NewLine,
        NodeV::Children(_) => NodeKind::Children,
        NodeV::Text(_) => NodeKind::Text,
        NodeV::PostLink { .. } => NodeKind::PostLink,
        NodeV::Command(_) => NodeKind::Command,
        NodeV::URL(_) => NodeKind::URL,
        NodeV::Reference { .. } => NodeKind::Reference,
        NodeV::Embed(_) => NodeKind::Embed,
        NodeV::Code(_) => NodeKind::Code,
        NodeV::Spoiler(_) => NodeKind::Spoiler,
        NodeV::Bold(_) => NodeKind::Bold,
        NodeV::Italic(_) => NodeKind::Italic,
        NodeV::Quoted(_) => NodeKind::Quoted,
        NodeV::Pending(_) => NodeKind::Pending,
    }
}

/// The variant of a model patch.
pub open spec fn patch_kind(p: PatchV) -> PatchKind {
    match p {
        PatchV::Replace(_) => PatchKind::Replace,
        PatchV::Text(_) => PatchKind::Text,
        PatchV::Wrapped(_) => PatchKind::Wrapped,
        PatchV::Children { .. } => PatchKind::Children,
    }
}

impl crate::node::Node {
    /// The variant of this node, as used in mismatch reports.
    pub fn kind(&self) -> (k: NodeKind)
        ensures
            k == node_kind(self@),
    {
        match self {
            crate::node::Node::Empty => NodeKind::Empty,
            crate::node::Node::NewLine => NodeKind::NewLine,
            crate::node::Node::Children(_) => NodeKind::Children,
            crate::node::Node::Text(_) => NodeKind::Text,
            crate::node::Node::PostLink { .. } => NodeKind::PostLink,
            crate::node::Node::Command(_) => NodeKind::Command,
            crate::node::Node::URL(_) => NodeKind::URL,
            crate::node::Node::Reference { .. } => NodeKind::Reference,
            crate::node::Node::Embed(_) => NodeKind::Embed,
            crate::node::Node::Code(_) => NodeKind::Code,
            crate::node::Node::Spoiler(_) => NodeKind::Spoiler,
            crate::node::Node::Bold(_) => NodeKind::Bold,
            crate::node::Node::Italic(_) => NodeKind::Italic,
            crate::node::Node::Quoted(_) => NodeKind::Quoted,
            crate::node::Node::Pending(_) => NodeKind::Pending,
        }
    }
}

impl Patch {
    /// The variant of this patch, as used in mismatch reports.
    pub fn kind(&self) -> (k: PatchKind)
        ensures
            k == patch_kind(self@),
    {
        match self {
            Patch::Replace(_) => PatchKind::Replace,
            Patch::Text(_) => PatchKind::Text,
            Patch::Wrapped(_) => PatchKind::Wrapped,
            Patch::Children { .. } => PatchKind::Children,
        }
    }
}

} // verus!
