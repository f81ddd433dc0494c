use vstd::prelude::*;

verus! {

/// Kinds of inner nodes of the syntax tree.
#[derive(Clone, Copy, Debug, PartialEq, Eq, Structural)]
pub enum NodeKind {
    Markup,
    Heading,
    Paragraph,
    ListItem,
    CodeBlock,
    Emphasis,
    Strong,
    Code,
}

/// Kinds of leaves. `Marker`, `Space` and `Newline` leaves are syntax only;
/// the others carry content.
#[derive(Clone, Copy, Debug, PartialEq, Eq, Structural)]
pub enum LeafKind {
    Text,
    Raw,
    Marker,
    Space,
    Newline,
    Error,
}

/// The syntax tree is stored as its pre-order walk: `Open` starts an inner
/// node, `Close` ends the innermost open one, and `Leaf` is a leaf covering
/// the characters `[start, end)` of the source.
#[derive(Clone, Copy, Debug, PartialEq, Eq, Structural)]
pub enum Event {
    Open { node: NodeKind, level: u8 },
    Close,
    Leaf { kind: LeafKind, start: usize, end: usize },
}

#[derive(Clone, Copy, Debug, PartialEq, Eq, Structural)]
pub enum Severity {
    Error,
    Warning,
}

#[derive(Clone, Copy, Debug, PartialEq, Eq, Structural)]
pub enum DiagnosticKind {
    /// A character that may not appear in a document.
    InvalidCharacter,
    /// A code block whose closing fence is missing; it ends at the end of input.
    UnterminatedCodeBlock,
}

#[derive(Clone, Copy, Debug, PartialEq, Eq, Structural)]
pub struct Diagnostic {
    pub severity: Severity,
    pub kind: DiagnosticKind,
    pub start: usize,
    pub end: usize,
}

impl Diagnostic {
    pub fn message(&self) -> &'static str {
        match self.kind {
            DiagnosticKind::InvalidCharacter => "invalid character",
            DiagnosticKind::UnterminatedCodeBlock => "unterminated code block",
        }
    }
}

/// The failures that end a parse.
#[derive(Clone, Copy, Debug, PartialEq, Eq, Structural)]
pub enum ParseError {
    /// The input is longer, or nests deeper, than the limits allow.
    ResourceExceeded,
    /// A typed view was asked of a node of another kind.
    ShapeMismatch,
}

/// Bounds on the work of one parse: the number of tokens, and the depth of
/// the tree (the root counts as depth one).
#[derive(Clone, Copy, Debug, PartialEq, Eq, Structural)]
pub struct Limits {
    pub max_tokens: usize,
    pub max_depth: usize,
}

impl Limits {
    pub fn default_limits() -> (l: Limits)
        ensures
            l.max_tokens == 1_000_000,
            l.max_depth == 64,
    {
        Limits { max_tokens: 1_000_000, max_depth: 64 }
    }
}

/// A parsed document: the pre-order events of its tree.
#[derive(Clone, Debug)]
pub struct SyntaxTree {
    pub events: Vec<Event>,
}

pub open spec fn event_text(e: Event, src: Seq<char>) -> Seq<char> {
    match e {
        Event::Leaf { start, end, .. } => src.subrange(start as int, end as int),
        _ => Seq::empty(),
    }
}

/// The text of the leaves of a tree, concatenated in document order.
pub open spec fn leaf_text(events: Seq<Event>, src: Seq<char>) -> Seq<char>
    decreases events.len(),
{
    if events.len() == 0 {
        Seq::empty()
    } else {
        leaf_text(events.drop_last(), src) + event_text(events.last(), src)
    }
}

pub proof fn lemma_leaf_text_push(events: Seq<Event>, e: Event, src: Seq<char>)
    ensures
        leaf_text(events.push(e), src) == leaf_text(events, src) + event_text(e, src),
{
    assert(events.push(e).drop_last() =~= events);
}

/// The nesting depth after the first `n` events.
pub open spec fn depth_after(events: Seq<Event>, n: int) -> int
    decreases n,
{
    if n <= 0 {
        0
    } else {
        depth_after(events, n - 1) + match events[n - 1] {
            Event::Open { .. } => 1int,
            Event::Close => -1int,
            Event::Leaf { .. } => 0int,
        }
    }
}

/// The events form one tree of the given root kind: they start by opening the
/// root, every later prefix keeps the root open, and the last event closes it.
pub open spec fn is_tree(events: Seq<Event>, root: NodeKind) -> bool {
    &&& events.len() >= 2
    &&& events[0] matches Event::Open { node, .. } && node == root
    &&& forall|n: int| 1 <= n < events.len() ==> depth_after(events, n) >= 1
    &&& depth_after(events, events.len() as int) == 0
}

/// Every leaf lies within a source of `n` characters.
pub open spec fn leaves_within(events: Seq<Event>, n: int) -> bool {
    forall|k: int|
        0 <= k < events.len() ==> (#[trigger] events[k] matches Event::Leaf { start, end, .. } ==> start <= end
            && end <= n)
}

} // verus!
