use vstd::prelude::*;
use crate::tree::{Event, NodeKind, LeafKind, SyntaxTree, ParseError};

verus! {

/// A typed view of an inner node: the index of the event that opens it.
#[derive(Clone, Copy, Debug, PartialEq, Eq, Structural)]
pub struct AstNode {
    pub index: usize,
}

/// The typed view of the root of a document.
#[derive(Clone, Copy, Debug, PartialEq, Eq, Structural)]
pub struct Markup {
    pub node: AstNode,
}

pub open spec fn opens(events: Seq<Event>, index: int, kind: NodeKind) -> bool {
    &&& 0 <= index < events.len()
    &&& events[index] matches Event::Open { node, .. } && node == kind
}

/// The event at `index` is a leaf of content: text, raw text or an error.
pub open spec fn content_leaf_at(events: Seq<Event>, index: int) -> bool {
    &&& 0 <= index < events.len()
    &&& events[index] matches Event::Leaf { kind, .. } && (kind == LeafKind::Text || kind == LeafKind::Raw || kind
        == LeafKind::Error)
}

/// The direct children of a node whose interior starts at event `k`, where
/// `d` is how many nodes deeper than that interior the walk is: the inner
/// nodes and content leaves at depth zero, up to the event that closes it.
pub open spec fn children_from(events: Seq<Event>, k: int, d: nat) -> Seq<usize>
    decreases events.len() - k,
{
    if k < 0 || k >= events.len() {
        Seq::empty()
    } else {
        match events[k] {
            Event::Close => if d == 0 {
                Seq::empty()
            } else {
                children_from(events, k + 1, (d - 1) as nat)
            },
            Event::Open { .. } => (if d == 0 { seq![k as usize] } else { Seq::empty() }) + children_from(
                events,
                k + 1,
                d + 1,
            ),
            Event::Leaf { kind, .. } => (if d == 0 && (kind == LeafKind::Text || kind == LeafKind::Raw || kind
                == LeafKind::Error) {
                seq![k as usize]
            } else {
                Seq::empty()
            }) + children_from(events, k + 1, d),
        }
    }
}

impl Markup {
    /// Views the root of `tree` as a document; any other root is a shape mismatch.
    pub fn from_untyped(tree: &SyntaxTree) -> (r: Result<Markup, ParseError>)
        ensures
            r matches Ok(m) ==> m.node.index == 0,
            r is Ok <==> opens(tree.events@, 0, NodeKind::Markup),
            r is Err ==> r == Err::<Markup, ParseError>(ParseError::ShapeMismatch),
    {
        if tree.events.len() > 0 {
            if let Event::Open { node: NodeKind::Markup, .. } = tree.events[0] {
                return Ok(Markup { node: AstNode { index: 0 } });
            }
        }
        Err(ParseError::ShapeMismatch)
    }
}

impl AstNode {
    /// The kind of the node, or `None` where the index opens no node.
    pub fn kind(&self, tree: &SyntaxTree) -> (r: Option<NodeKind>)
        ensures
            r matches Some(k) ==> opens(tree.events@, self.index as int, k),
            r is None ==> !(0 <= self.index < tree.events@.len() && tree.events@[self.index as int] is Open),
    {
        if self.index < tree.events.len() {
            if let Event::Open { node, .. } = tree.events[self.index] {
                return Some(node);
            }
        }
        None
    }

    /// The event indices of the node's direct children: its inner nodes and
    /// content leaves, in order.
    pub fn children(&self, tree: &SyntaxTree) -> (r: Result<Vec<usize>, ParseError>)
        ensures
            r is Ok <==> (0 <= self.index < tree.events@.len() && tree.events@[self.index as int] is Open),
            r matches Ok(v) ==> v@ == children_from(tree.events@, self.index + 1, 0),
            r is Err ==> r == Err::<Vec<usize>, ParseError>(ParseError::ShapeMismatch),
    {
        let n = tree.events.len();
        if self.index >= n {
            return Err(ParseError::ShapeMismatch);
        }
        if let Event::Open { .. } = tree.events[self.index] {
        } else {
            return Err(ParseError::ShapeMismatch);
        }
        let mut out: Vec<usize> = Vec::new();
        let mut k: usize = self.index + 1;
        let mut d: usize = 0;
        while k < n
            invariant
                n == tree.events@.len(),
                self.index < k <= n,
                tree.events@[self.index as int] is Open,
                d < k,
                children_from(tree.events@, self.index + 1, 0) == out@ + children_from(tree.events@, k as int, d as nat),
            decreases n - k,
        {
            let ghost before = out@;
            match tree.events[k] {
                Event::Close => {
                    if d == 0 {
                        proof {
                            assert(children_from(tree.events@, k as int, 0) =~= Seq::<usize>::empty());
                            assert(out@ =~= out@ + Seq::<usize>::empty());
                        }
                        return Ok(out);
                    }
                    d = d - 1;
                },
                Event::Open { .. } => {
                    if d == 0 {
                        out.push(k);
                    }
                    proof {
                        assert(out@ + children_from(tree.events@, k + 1, (d + 1) as nat) =~= before + children_from(tree.events@, k as int, d as nat));
                    }
                    d = d + 1;
                },
                Event::Leaf { kind, .. } => {
                    if d == 0 && (kind == LeafKind::Text || kind == LeafKind::Raw || kind == LeafKind::Error) {
                        out.push(k);
                    }
                    proof {
                        assert(out@ + children_from(tree.events@, k + 1, d as nat) =~= before + children_from(tree.events@, k as int, d as nat));
                    }
                },
            }
            k = k + 1;
        }
        proof {
            assert(out@ =~= out@ + children_from(tree.events@, k as int, d as nat));
        }
        Ok(out)
    }

    /// The level of a heading: the number of `#` that open it.
    pub fn heading_level(&self, tree: &SyntaxTree) -> (r: Result<u8, ParseError>)
        ensures
            r matches Ok(l) ==> tree.events@[self.index as int] == (Event::Open { node: NodeKind::Heading, level: l }),
            r is Ok <==> opens(tree.events@, self.index as int, NodeKind::Heading),
            r is Err ==> r == Err::<u8, ParseError>(ParseError::ShapeMismatch),
    {
        if self.index < tree.events.len() {
            if let Event::Open { node: NodeKind::Heading, level } = tree.events[self.index] {
                return Ok(level);
            }
        }
        Err(ParseError::ShapeMismatch)
    }

    /// The source span of a content leaf (text, raw text or an error).
    pub fn leaf_span(tree: &SyntaxTree, index: usize) -> (r: Result<(usize, usize), ParseError>)
        ensures
            r is Ok <==> content_leaf_at(tree.events@, index as int),
            r matches Ok((s, e)) ==> (tree.events@[index as int] matches Event::Leaf { start, end, .. } && start == s && end == e),
            r is Err ==> r == Err::<(usize, usize), ParseError>(ParseError::ShapeMismatch),
    {
        if index < tree.events.len() {
            if let Event::Leaf { kind, start, end } = tree.events[index] {
                if kind == LeafKind::Text || kind == LeafKind::Raw || kind == LeafKind::Error {
                    return Ok((start, end));
                }
            }
        }
        Err(ParseError::ShapeMismatch)
    }
}

} // verus!
