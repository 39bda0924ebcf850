//! The document tree: a recursive tagged union of content nodes, its
//! mathematical model, and structural helpers (construction, coalescing
//! append, equality).

use vstd::prelude::*;

verus! {

/// One node of a document body tree.
///
/// A `Children` list of length 1 is semantically interchangeable with its
/// single element; diffing and patching treat the two as equal shapes.
#[derive(Debug, PartialEq, Eq)]
pub enum Node {
    /// No content.
    Empty,
    /// An explicit line break; atomic.
    NewLine,
    /// An ordered list of sibling nodes.
    Children(Vec<Node>),
    /// Unformatted text; may contain embedded newlines.
    Text(String),
    /// Link to another post.
    PostLink {
        /// Post the link points to.
        id: u64,
        /// The target post's parent thread; 0 when not yet resolved.
        thread: u64,
        /// Parent page of the target post.
        page: u32,
    },
    /// Result of a hash command.
    Command(Command),
    /// External URL.
    URL(String),
    /// Configured reference to a URL.
    Reference { label: String, url: String },
    /// Link to an embeddable resource.
    Embed(Embed),
    /// Programming code tags.
    Code(String),
    /// Spoiler tags around a single child.
    Spoiler(Box<Node>),
    /// Bold formatting around a single child.
    Bold(Box<Node>),
    /// Italic formatting around a single child.
    Italic(Box<Node>),
    /// A quoted node; results from a line starting with `>`.
    Quoted(Box<Node>),
    /// Node pending some processing before finalization.
    Pending(PendingNode),
}

/// A node that depends on further processing before it is final.
#[derive(Debug, Clone, Copy, PartialEq, Eq, Structural)]
pub enum PendingNode {
    Flip,
    EightBall,
    Pyu,
    PCount,
    /// Seconds to count down.
    Countdown(u64),
    /// Hours to ban oneself for.
    Autobahn(u16),
    Dice {
        /// Amount to offset the sum of all throws by.
        offset: i16,
        /// Faces of the die.
        faces: u16,
        /// Rolls to perform.
        rolls: u8,
    },
    /// Pending post location fetch.
    PostLink(u64),
}

/// The result of a hash command.
#[derive(Debug, PartialEq, Eq)]
pub enum Command {
    /// Parameters and results of a dice throw.
    Dice {
        /// Amount to offset the sum of all throws by.
        offset: i16,
        /// Faces of the die.
        faces: u16,
        /// Results of the individual throws.
        results: Vec<u16>,
    },
    /// Coin flip.
    Flip(bool),
    /// Random answer dispenser.
    EightBall(String),
    /// Synchronized countdown timer.
    Countdown { start: u32, secs: u32 },
    /// Self-ban for the given number of hours.
    Autobahn(u16),
    Pyu(u64),
    PCount(u64),
}

/// Embedded content providers.
#[derive(Debug, Clone, Copy, PartialEq, Eq, Hash, Structural)]
pub enum EmbedProvider {
    YouTube,
    SoundCloud,
    Vimeo,
    Coub,
    Twitter,
    Imgur,
    BitChute,
    Invidious,
}

/// Identifies a specific embeddable resource.
#[derive(Debug, PartialEq, Eq, Hash)]
pub struct Embed {
    pub provider: EmbedProvider,
    pub data: String,
}

/// Mathematical model of a `Node`: text as scalar sequences, child lists as
/// sequences of models.
#[verifier::ext_equal]
pub enum NodeV {
    Empty,
    NewLine,
    Children(Seq<NodeV>),
    Text(Seq<char>),
    PostLink { id: u64, thread: u64, page: u32 },
    Command(CommandV),
    URL(Seq<char>),
    Reference { label: Seq<char>, url: Seq<char> },
    Embed(EmbedV),
    Code(Seq<char>),
    Spoiler(Box<NodeV>),
    Bold(Box<NodeV>),
    Italic(Box<NodeV>),
    Quoted(Box<NodeV>),
    Pending(PendingNode),
}

/// Mathematical model of a `Command`.
#[verifier::ext_equal]
pub enum CommandV {
    Dice { offset: i16, faces: u16, results: Seq<u16> },
    Flip(bool),
    EightBall(Seq<char>),
    Countdown { start: u32, secs: u32 },
    Autobahn(u16),
    Pyu(u64),
    PCount(u64),
}

/// Mathematical model of an `Embed`.
#[verifier::ext_equal]
pub struct EmbedV {
    pub provider: EmbedProvider,
    pub data: Seq<char>,
}

impl View for Command {
    type V = CommandV;

    open spec fn view(&self) -> CommandV {
        match self {
            Command::Dice { offset, faces, results } => CommandV::Dice {
                offset: *offset,
                faces: *faces,
                results: results@,
            },
            Command::Flip(b) => CommandV::Flip(*b),
            Command::EightBall(s) => CommandV::EightBall(s@),
            Command::Countdown { start, secs } => CommandV::Countdown {
                start: *start,
                secs: *secs,
            },
            Command::Autobahn(h) => CommandV::Autobahn(*h),
            Command::Pyu(n) => CommandV::Pyu(*n),
            Command::PCount(n) => CommandV::PCount(*n),
        }
    }
}

impl View for Embed {
    type V = EmbedV;

    open spec fn view(&self) -> EmbedV {
        EmbedV { provider: self.provider, data: self.data@ }
    }
}

impl View for Node {
    type V = NodeV;

    open spec fn view(&self) -> NodeV
        decreases self,
    {
        match self {
            Node::Empty => NodeV::Empty,
            Node::NewLine => NodeV::NewLine,
            Node::Children(v) => NodeV::Children(seq_view(v@)),
            Node::Text(s) => NodeV::Text(s@),
            Node::PostLink { id, thread, page } => NodeV::PostLink {
                id: *id,
                thread: *thread,
                page: *page,
            },
            Node::Command(c) => NodeV::Command(c@),
            Node::URL(s) => NodeV::URL(s@),
            Node::Reference { label, url } => NodeV::Reference { label: label@, url: url@ },
            Node::Embed(e) => NodeV::Embed(e@),
            Node::Code(s) => NodeV::Code(s@),
            Node::Spoiler(b) => NodeV::Spoiler(Box::new((**b).view())),
            Node::Bold(b) => NodeV::Bold(Box::new((**b).view())),
            Node::Italic(b) => NodeV::Italic(Box::new((**b).view())),
            Node::Quoted(b) => NodeV::Quoted(Box::new((**b).view())),
            Node::Pending(p) => NodeV::Pending(*p),
        }
    }
}

/// The model of a sequence of nodes: each element's model, in order.
pub open spec fn seq_view(s: Seq<Node>) -> Seq<NodeV>
    decreases s,
{
    if s.len() == 0 {
        Seq::empty()
    } else {
        seq![s[0].view()] + seq_view(s.subrange(1, s.len() as int))
    }
}

/// `seq_view` maps the sequence elementwise.
pub broadcast proof fn lemma_seq_view(s: Seq<Node>)
    ensures
        (#[trigger] seq_view(s)).len() == s.len(),
        forall|i: int| 0 <= i < s.len() ==> #[trigger] seq_view(s)[i] == s[i]@,
    decreases s.len(),
{
    if s.len() > 0 {
        let s1 = s.subrange(1, s.len() as int);
        lemma_seq_view(s1);
        assert(seq_view(s) == seq![s[0].view()] + seq_view(s1));
        assert forall|i: int| 0 <= i < s.len() implies #[trigger] seq_view(s)[i] == s[i]@ by {
            if i > 0 {
                assert(seq_view(s)[i] == seq_view(s1)[i - 1]);
                assert(s1[i - 1] == s[i]);
            }
        };
    }
}

/// Relies on `str::chars`: the view of a `str` is exactly its sequence of
/// Unicode scalar values, in order.
#[verifier::external_body]
pub(crate) fn chars_of(s: &str) -> (r: Vec<char>)
    ensures
        r@ == s@,
{
    s.chars().collect()
}

/// Relies on `String`'s `FromIterator<char>`: collecting a sequence of
/// scalars builds the string whose scalars are exactly that sequence.
#[verifier::external_body]
pub(crate) fn string_from_chars(v: &[char]) -> (r: String)
    ensures
        r@ == v@,
{
    v.iter().collect()
}

/// String equality compares the underlying scalar sequences.
pub(crate) fn str_eq(a: &String, b: &String) -> (r: bool)
    ensures
        r == (a@ == b@),
{
    a.eq(b)
}

fn u16s_eq(a: &Vec<u16>, b: &Vec<u16>) -> (r: bool)
    ensures
        r == (a@ == b@),
{
    if a.len() != b.len() {
        return false;
    }
    let mut i: usize = 0;
    while i < a.len()
        invariant
            0 <= i <= a@.len(),
            a@.len() == b@.len(),
            forall|j: int| 0 <= j < i ==> a@[j] == b@[j],
        decreases a@.len() - i,
    {
        if a[i] != b[i] {
            return false;
        }
        i = i + 1;
    }
    proof {
        assert(a@ =~= b@);
    }
    true
}

impl Command {
    /// Structural equality of two command results.
    pub fn same(&self, other: &Command) -> (r: bool)
        ensures
            r == (self@ == other@),
    {
        match (self, other) {
            (
                Command::Dice { offset: o1, faces: f1, results: r1 },
                Command::Dice { offset: o2, faces: f2, results: r2 },
            ) => *o1 == *o2 && *f1 == *f2 && u16s_eq(r1, r2),
            (Command::Flip(b1), Command::Flip(b2)) => *b1 == *b2,
            (Command::EightBall(s1), Command::EightBall(s2)) => str_eq(s1, s2),
            (
                Command::Countdown { start: s1, secs: c1 },
                Command::Countdown { start: s2, secs: c2 },
            ) => *s1 == *s2 && *c1 == *c2,
            (Command::Autobahn(h1), Command::Autobahn(h2)) => *h1 == *h2,
            (Command::Pyu(n1), Command::Pyu(n2)) => *n1 == *n2,
            (Command::PCount(n1), Command::PCount(n2)) => *n1 == *n2,
            _ => false,
        }
    }
}

impl Clone for Command {
    /// Cloning preserves the model.
    fn clone(&self) -> (r: Self)
        ensures
            r@ == self@,
    {
        match self {
            Command::Dice { offset, faces, results } => {
                let mut rs: Vec<u16> = Vec::new();
                let mut i: usize = 0;
                while i < results.len()
                    invariant
                        0 <= i <= results@.len(),
                        rs@ == results@.subrange(0, i as int),
                    decreases results@.len() - i,
                {
                    rs.push(results[i]);
                    proof {
                        assert(rs@ =~= results@.subrange(0, i + 1));
                    }
                    i = i + 1;
                }
                proof {
                    assert(rs@ =~= results@);
                }
                Command::Dice { offset: *offset, faces: *faces, results: rs }
            },
            Command::Flip(b) => Command::Flip(*b),
            Command::EightBall(s) => Command::EightBall(s.clone()),
            Command::Countdown { start, secs } => Command::Countdown {
                start: *start,
                secs: *secs,
            },
            Command::Autobahn(h) => Command::Autobahn(*h),
            Command::Pyu(n) => Command::Pyu(*n),
            Command::PCount(n) => Command::PCount(*n),
        }
    }
}

impl Clone for Embed {
    /// Cloning preserves the model.
    fn clone(&self) -> (r: Self)
        ensures
            r@ == self@,
    {
        Embed { provider: self.provider, data: self.data.clone() }
    }
}

impl Node {
    /// Structural equality of two trees: equal variants, equal payloads,
    /// equal children. A singleton `Children` list is *not* identified with
    /// its element here; that looser notion belongs to diffing.
    #[verifier::loop_isolation(false)]
    pub fn same(&self, other: &Node) -> (r: bool)
        ensures
            r == (self@ == other@),
        decreases self,
    {
        broadcast use lemma_seq_view;

        match (self, other) {
            (Node::Empty, Node::Empty) => true,
            (Node::NewLine, Node::NewLine) => true,
            (Node::Children(a), Node::Children(b)) => {
                if a.len() != b.len() {
                    proof {
                        lemma_seq_view(a@);
                        lemma_seq_view(b@);
                        assert(seq_view(a@).len() != seq_view(b@).len());
                    }
                    return false;
                }
                let mut i: usize = 0;
                while i < a.len()
                    invariant
                        0 <= i <= a@.len(),
                        a@.len() == b@.len(),
                        forall|j: int| 0 <= j < i ==> #[trigger] a@[j]@ == b@[j]@,
                    decreases a@.len() - i,
                {
                    proof {
                        assert(decreases_to!(*self => (*self)->Children_0));
                        assert(decreases_to!((*self)->Children_0 => (*self)->Children_0@));
                        assert(decreases_to!((*self)->Children_0@ => (*self)->Children_0@[i as int]));
                        assert((*self)->Children_0@[i as int] == a@[i as int]);
                        assert(decreases_to!(*self => a@[i as int]));
                    }
                    if !a[i].same(&b[i]) {
                        proof {
                            lemma_seq_view(a@);
                            lemma_seq_view(b@);
                            assert(seq_view(a@)[i as int] != seq_view(b@)[i as int]);
                            assert(seq_view(a@) != seq_view(b@));
                        }
                        return false;
                    }
                    i = i + 1;
                }
                proof {
                    lemma_seq_view(a@);
                    lemma_seq_view(b@);
                    assert(seq_view(a@) =~= seq_view(b@));
                }
                true
            },
            (Node::Text(a), Node::Text(b)) => str_eq(a, b),
            (
                Node::PostLink { id: i1, thread: t1, page: p1 },
                Node::PostLink { id: i2, thread: t2, page: p2 },
            ) => *i1 == *i2 && *t1 == *t2 && *p1 == *p2,
            (Node::Command(a), Node::Command(b)) => a.same(b),
            (Node::URL(a), Node::URL(b)) => str_eq(a, b),
            (
                Node::Reference { label: l1, url: u1 },
                Node::Reference { label: l2, url: u2 },
            ) => str_eq(l1, l2) && str_eq(u1, u2),
            (Node::Embed(a), Node::Embed(b)) => a.provider == b.provider && str_eq(
                &a.data,
                &b.data,
            ),
            (Node::Code(a), Node::Code(b)) => str_eq(a, b),
            (Node::Spoiler(a), Node::Spoiler(b)) => (&**a).same(&**b),
            (Node::Bold(a), Node::Bold(b)) => (&**a).same(&**b),
            (Node::Italic(a), Node::Italic(b)) => (&**a).same(&**b),
            (Node::Quoted(a), Node::Quoted(b)) => (&**a).same(&**b),
            (Node::Pending(a), Node::Pending(b)) => *a == *b,
            _ => false,
        }
    }
}

impl Clone for Node {
    /// Cloning preserves the model.
    #[verifier::loop_isolation(false)]
    fn clone(&self) -> (r: Self)
        ensures
            r@ == self@,
        decreases self,
    {
        broadcast use lemma_seq_view;

        match self {
            Node::Empty => Node::Empty,
            Node::NewLine => Node::NewLine,
            Node::Children(v) => {
                let mut c: Vec<Node> = Vec::new();
                let mut i: usize = 0;
                while i < v.len()
                    invariant
                        0 <= i <= v@.len(),
                        c@.len() == i,
                        forall|j: int| 0 <= j < i ==> #[trigger] c@[j]@ == v@[j]@,
                    decreases v@.len() - i,
                {
                    proof {
                        assert(decreases_to!(*self => (*self)->Children_0));
                        assert(decreases_to!((*self)->Children_0 => (*self)->Children_0@));
                        assert(decreases_to!((*self)->Children_0@ => (*self)->Children_0@[i as int]));
                        assert((*self)->Children_0@[i as int] == v@[i as int]);
                        assert(decreases_to!(*self => v@[i as int]));
                    }
                    c.push(v[i].clone());
                    i = i + 1;
                }
                proof {
                    lemma_seq_view(c@);
                    lemma_seq_view(v@);
                    assert(seq_view(c@) =~= seq_view(v@));
                }
                Node::Children(c)
            },
            Node::Text(s) => Node::Text(s.clone()),
            Node::PostLink { id, thread, page } => Node::PostLink {
                id: *id,
                thread: *thread,
                page: *page,
            },
            Node::Command(c) => Node::Command(c.clone()),
            Node::URL(s) => Node::URL(s.clone()),
            Node::Reference { label, url } => Node::Reference {
                label: label.clone(),
                url: url.clone(),
            },
            Node::Embed(e) => Node::Embed(e.clone()),
            Node::Code(s) => Node::Code(s.clone()),
            Node::Spoiler(b) => Node::Spoiler(Box::new((&**b).clone())),
            Node::Bold(b) => Node::Bold(Box::new((&**b).clone())),
            Node::Italic(b) => Node::Italic(Box::new((&**b).clone())),
            Node::Quoted(b) => Node::Quoted(Box::new((&**b).clone())),
            Node::Pending(p) => Node::Pending(*p),
        }
    }
}

/// The coalescing append of `b` onto `a`: appending `Empty` is a no-op,
/// appending to `Empty` replaces it, adjacent text runs merge into one
/// `Text` node, child lists extend (merging at the seam), any other pair is
/// wrapped into a fresh two-element child list. Total for all pairs.
pub open spec fn merged(a: NodeV, b: NodeV) -> NodeV {
    match (a, b) {
        (_, NodeV::Empty) => a,
        (NodeV::Empty, _) => b,
        (NodeV::Text(s), NodeV::Text(t)) => NodeV::Text(s + t),
        (NodeV::Children(v), NodeV::Children(w)) => if w.len() == 0 {
            a
        } else if v.len() > 0 && v.last() is Text && w[0] is Text {
            NodeV::Children(
                v.take(v.len() - 1) + seq![NodeV::Text(v.last()->Text_0 + w[0]->Text_0)]
                    + w.skip(1),
            )
        } else {
            NodeV::Children(v + w)
        },
        (NodeV::Children(v), NodeV::Text(t)) => if v.len() > 0 && v.last() is Text {
            NodeV::Children(v.take(v.len() - 1) + seq![NodeV::Text(v.last()->Text_0 + t)])
        } else {
            NodeV::Children(v.push(b))
        },
        (NodeV::Children(v), _) => NodeV::Children(v.push(b)),
        _ => NodeV::Children(seq![a, b]),
    }
}

impl Node {
    /// Append `rhs` onto this node, coalescing per the builder contract:
    /// adjacent text runs always merge, `Empty` is absorbed, child lists
    /// extend, and any other pair becomes a two-element child list.
    #[verifier::loop_isolation(false)]
    pub fn append(&mut self, rhs: Node)
        ensures
            final(self)@ == merged(old(self)@, rhs@),
    {
        broadcast use lemma_seq_view;

        if matches!(rhs, Node::Empty) {
            return ;
        }
        if matches!(self, Node::Empty) {
            *self = rhs;
            return ;
        }
        let ghost a0 = (*self)@;
        let ghost b0 = rhs@;
        match (&mut *self, rhs) {
            (Node::Text(s), Node::Text(t)) => {
                s.append(t.as_str());
            },
            (Node::Children(v), Node::Children(w)) => {
                let ghost vv = seq_view(v@);
                let ghost wv = seq_view(w@);
                if w.len() == 0 {
                    proof {
                        assert(merged(a0, b0) == a0);
                    }
                    return ;
                }
                let mut w = w;
                let first = w.remove(0);
                let ghost wrest = seq_view(w@);
                proof {
                    assert(wrest =~= wv.skip(1));
                }
                let vlen = v.len();
                if vlen > 0 && matches!(&v[vlen - 1], Node::Text(_)) && matches!(
                    &first,
                    Node::Text(_),
                ) {
                    let last = v.remove(vlen - 1);
                    let ghost vrest = seq_view(v@);
                    proof {
                        assert(vrest =~= vv.take(vv.len() - 1));
                    }
                    match (last, first) {
                        (Node::Text(mut ls), Node::Text(fs)) => {
                            ls.append(fs.as_str());
                            v.push(Node::Text(ls));
                        },
                        (l, f) => {
                            v.push(l);
                            v.push(f);
                        },
                    }
                } else {
                    v.push(first);
                    proof {
                        assert(seq_view(v@) =~= vv.push(wv[0]));
                    }
                }
                let ghost mid = seq_view(v@);
                v.append(&mut w);
                proof {
                    assert(seq_view(v@) =~= mid + wrest);
                    if vv.len() > 0 && vv.last() is Text && wv[0] is Text {
                        assert(mid =~= vv.take(vv.len() - 1) + seq![
                            NodeV::Text(vv.last()->Text_0 + wv[0]->Text_0),
                        ]);
                        assert(seq_view(v@) =~= vv.take(vv.len() - 1) + seq![
                            NodeV::Text(vv.last()->Text_0 + wv[0]->Text_0),
                        ] + wv.skip(1));
                    } else {
                        assert(seq_view(v@) =~= vv + wv) by {
                            assert(mid =~= vv.push(wv[0]));
                            assert(wrest =~= wv.skip(1));
                        };
                    }
                }
            },
            (Node::Children(v), Node::Text(t)) => {
                let ghost vv = seq_view(v@);
                let vlen = v.len();
                if vlen > 0 && matches!(&v[vlen - 1], Node::Text(_)) {
                    let last = v.remove(vlen - 1);
                    proof {
                        assert(seq_view(v@) =~= vv.take(vv.len() - 1));
                    }
                    match last {
                        Node::Text(mut ls) => {
                            ls.append(t.as_str());
                            v.push(Node::Text(ls));
                            proof {
                                assert(seq_view(v@) =~= vv.take(vv.len() - 1) + seq![
                                    NodeV::Text(vv.last()->Text_0 + t@),
                                ]);
                            }
                        },
                        l => {
                            v.push(l);
                            v.push(Node::Text(t));
                        },
                    }
                } else {
                    v.push(Node::Text(t));
                    proof {
                        assert(seq_view(v@) =~= vv.push(NodeV::Text(t@)));
                    }
                }
            },
            (Node::Children(v), n) => {
                let ghost vv = seq_view(v@);
                let ghost nv = n@;
                v.push(n);
                proof {
                    assert(seq_view(v@) =~= vv.push(nv));
                }
            },
            (s_at, n) => {
                let mut taken = Node::Empty;
                core::mem::swap(s_at, &mut taken);
                let mut list: Vec<Node> = Vec::new();
                list.push(taken);
                list.push(n);
                *s_at = Node::Children(list);
                proof {
                    assert(seq_view(list@) =~= seq![a0, b0]);
                }
            },
        }
    }

    /// Append a run of text onto this node, merging with a trailing text run
    /// where one exists; equivalent to appending a fresh text node, without
    /// the intermediate allocation.
    pub fn add_str(&mut self, rhs: &str)
        ensures
            final(self)@ == merged(old(self)@, NodeV::Text(rhs@)),
    {
        broadcast use lemma_seq_view;

        let ghost a0 = (*self)@;
        match &mut *self {
            Node::Text(s) => {
                s.append(rhs);
            },
            Node::Children(v) => {
                let ghost vv = seq_view(v@);
                let vlen = v.len();
                if vlen > 0 && matches!(&v[vlen - 1], Node::Text(_)) {
                    let last = v.remove(vlen - 1);
                    proof {
                        assert(seq_view(v@) =~= vv.take(vv.len() - 1));
                    }
                    match last {
                        Node::Text(mut ls) => {
                            ls.append(rhs);
                            v.push(Node::Text(ls));
                            proof {
                                assert(seq_view(v@) =~= vv.take(vv.len() - 1) + seq![
                                    NodeV::Text(vv.last()->Text_0 + rhs@),
                                ]);
                            }
                        },
                        l => {
                            v.push(l);
                            v.push(Node::text(rhs));
                        },
                    }
                } else {
                    v.push(Node::text(rhs));
                    proof {
                        assert(seq_view(v@) =~= vv.push(NodeV::Text(rhs@)));
                    }
                }
            },
            _ => {
                self.append(Node::text(rhs));
            },
        }
    }

    /// Append one scalar onto this node, merging with a trailing text run
    /// where one exists.
    pub fn push_char(&mut self, c: char)
        ensures
            final(self)@ == merged(old(self)@, NodeV::Text(seq![c])),
    {
        let mut cv: Vec<char> = Vec::new();
        cv.push(c);
        let s = string_from_chars(cv.as_slice());
        proof {
            assert(s@ =~= seq![c]);
        }
        self.add_str(s.as_str());
    }
}

impl Default for Node {
    /// The empty node is the identity element for appending.
    fn default() -> (n: Node)
        ensures
            n@ == NodeV::Empty,
    {
        Node::Empty
    }
}

impl Node {
    /// Construct a new text node holding the scalars of `s`.
    pub fn text(s: &str) -> (n: Node)
        ensures
            n@ == NodeV::Text(s@),
    {
        Node::Text(s.to_owned())
    }

    /// Construct a new quoted node around `inner`.
    pub fn quote(inner: Node) -> (n: Node)
        ensures
            n@ == NodeV::Quoted(Box::new(inner@)),
    {
        Node::Quoted(Box::new(inner))
    }

    /// Construct a new spoiler node around `inner`.
    pub fn spoiler(inner: Node) -> (n: Node)
        ensures
            n@ == NodeV::Spoiler(Box::new(inner@)),
    {
        Node::Spoiler(Box::new(inner))
    }
}

} // verus!
