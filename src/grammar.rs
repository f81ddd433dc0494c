use vstd::prelude::*;
use crate::lexer::{Token, TokenKind, tokens_of};
use crate::tree::{Event, NodeKind, LeafKind, Diagnostic, DiagnosticKind, Severity};

verus! {

/// Which inline delimiters are open around the current position.
#[derive(Clone, Copy, Debug, PartialEq, Eq, Structural)]
pub struct Nesting {
    pub star: bool,
    pub double_star: bool,
    pub underscore: bool,
    pub double_underscore: bool,
}

/// The deepest tree the grammar builds: root, block, four nested emphasis
/// kinds and a code span.
pub const MAX_GRAMMAR_DEPTH: usize = 7;

/// The character offset at which token `i` starts; the end of input past the last token.
pub open spec fn offset(src: Seq<char>, toks: Seq<Token>, i: int) -> int {
    if 0 <= i < toks.len() {
        toks[i].start as int
    } else {
        src.len() as int
    }
}

/// A line of the source that opens or closes a code block: three backticks at
/// the start of a line.
pub open spec fn is_fence_line(src: Seq<char>, p: int) -> bool {
    &&& 0 <= p && p + 3 <= src.len()
    &&& p == 0 || src[p - 1] == '\n'
    &&& src[p] == '`' && src[p + 1] == '`' && src[p + 2] == '`'
}

/// Token `m` begins a fence line: a run of at least three backticks at the
/// start of a line.
pub open spec fn fence_token(toks: Seq<Token>, m: int) -> bool {
    &&& 0 <= m < toks.len()
    &&& m == 0 || toks[m - 1].kind == TokenKind::Newline
    &&& toks[m].kind == TokenKind::Backtick
    &&& toks[m].end - toks[m].start >= 3
}

/// The number of fence lines among the first `m` tokens.
pub open spec fn fence_count(toks: Seq<Token>, m: int) -> int
    decreases m,
{
    if m <= 0 {
        0
    } else {
        fence_count(toks, m - 1) + if fence_token(toks, m - 1) { 1int } else { 0int }
    }
}

pub open spec fn no_invalid(toks: Seq<Token>, a: int, b: int) -> bool {
    forall|k: int| a <= k < b ==> (#[trigger] toks[k]).kind != TokenKind::Invalid
}

/// A well-formed document: it holds no invalid character, and its fence
/// lines pair up, so that every code block is closed.
pub open spec fn well_formed(src: Seq<char>) -> bool {
    let toks = tokens_of(src);
    no_invalid(toks, 0, toks.len() as int) && fence_count(toks, toks.len() as int) % 2 == 0
}

pub open spec fn nest_count(n: Nesting) -> int {
    (if n.star { 1int } else { 0int }) + (if n.double_star { 1int } else { 0int }) + (if n.underscore {
        1int
    } else {
        0int
    }) + (if n.double_underscore { 1int } else { 0int })
}

pub open spec fn is_open(nest: Nesting, kind: TokenKind, width: int) -> bool {
    if kind == TokenKind::Star {
        if width == 1 { nest.star } else { nest.double_star }
    } else {
        if width == 1 { nest.underscore } else { nest.double_underscore }
    }
}

/// The leaf of the given kind that covers tokens `[a, b)`.
pub open spec fn leaf_over(src: Seq<char>, toks: Seq<Token>, kind: LeafKind, a: int, b: int) -> Event {
    Event::Leaf { kind, start: offset(src, toks, a) as usize, end: offset(src, toks, b) as usize }
}

/// A `Text` leaf over tokens `[a, b)`, or nothing when the range is empty.
pub open spec fn text_run(src: Seq<char>, toks: Seq<Token>, a: int, b: int) -> Seq<Event> {
    if a < b {
        seq![leaf_over(src, toks, LeafKind::Text, a, b)]
    } else {
        Seq::empty()
    }
}

pub open spec fn width_of(t: Token) -> int {
    t.end - t.start
}

/// The first token in `[from, limit)` of the given kind and width.
pub open spec fn first_closer(toks: Seq<Token>, from: int, limit: int, kind: TokenKind, width: int) -> Option<int>
    decreases limit - from,
{
    if from >= limit {
        None
    } else if toks[from].kind == kind && width_of(toks[from]) == width {
        Some(from)
    } else {
        first_closer(toks, from + 1, limit, kind, width)
    }
}

/// The closing partner of the delimiter at `j`, when token `j` opens a span
/// before `limit`: emphasis or strong emphasis that is not open already, or
/// a code span.
pub open spec fn span_closer(toks: Seq<Token>, j: int, limit: int, nest: Nesting) -> Option<int> {
    let t = toks[j];
    let w = width_of(t);
    if (t.kind == TokenKind::Star || t.kind == TokenKind::Underscore) && (w == 1 || w == 2) {
        if is_open(nest, t.kind, w) {
            None
        } else {
            first_closer(toks, j + 1, limit, t.kind, w)
        }
    } else if t.kind == TokenKind::Backtick && (w == 1 || w == 2) {
        first_closer(toks, j + 1, limit, t.kind, w)
    } else {
        None
    }
}

pub open spec fn opened(nest: Nesting, kind: TokenKind, width: int) -> Nesting {
    if kind == TokenKind::Star {
        if width == 1 { Nesting { star: true, ..nest } } else { Nesting { double_star: true, ..nest } }
    } else {
        if width == 1 { Nesting { underscore: true, ..nest } } else { Nesting { double_underscore: true, ..nest } }
    }
}

/// The inline grammar: the events for tokens `[j, limit)`, where a literal
/// run began at `text_from`. Spans take the first closing partner; anything
/// else but an invalid character joins the literal run.
pub open spec fn inline_events(src: Seq<char>, toks: Seq<Token>, text_from: int, j: int, limit: int, nest: Nesting) -> Seq<Event>
    decreases limit - j,
{
    if j >= limit {
        text_run(src, toks, text_from, j)
    } else {
        match span_closer(toks, j, limit, nest) {
            Some(k) => if j < k < limit {
                text_run(src, toks, text_from, j) + span_events(src, toks, j, k, nest) + inline_events(
                    src,
                    toks,
                    k + 1,
                    k + 1,
                    limit,
                    nest,
                )
            } else {
                Seq::empty()
            },
            None => if toks[j].kind == TokenKind::Invalid {
                text_run(src, toks, text_from, j) + seq![leaf_over(src, toks, LeafKind::Error, j, j + 1)]
                    + inline_events(src, toks, j + 1, j + 1, limit, nest)
            } else {
                inline_events(src, toks, text_from, j + 1, limit, nest)
            },
        }
    }
}

/// The events of the span from delimiter `j` to its partner `k`.
pub open spec fn span_events(src: Seq<char>, toks: Seq<Token>, j: int, k: int, nest: Nesting) -> Seq<Event>
    decreases k - j,
{
    let t = toks[j];
    let w = width_of(t);
    if t.kind == TokenKind::Backtick {
        seq![Event::Open { node: NodeKind::Code, level: 0 }, leaf_over(src, toks, LeafKind::Marker, j, j + 1)]
            + (if j + 1 < k { seq![leaf_over(src, toks, LeafKind::Raw, j + 1, k)] } else { Seq::empty() })
            + seq![leaf_over(src, toks, LeafKind::Marker, k, k + 1), Event::Close]
    } else if j < k {
        seq![
            Event::Open { node: if w == 1 { NodeKind::Emphasis } else { NodeKind::Strong }, level: 0 },
            leaf_over(src, toks, LeafKind::Marker, j, j + 1),
        ] + inline_events(src, toks, j + 1, j + 1, k, opened(nest, t.kind, w)) + seq![
            leaf_over(src, toks, LeafKind::Marker, k, k + 1),
            Event::Close,
        ]
    } else {
        Seq::empty()
    }
}

pub open spec fn invalid_diagnostic(t: Token) -> Diagnostic {
    Diagnostic { severity: Severity::Error, kind: DiagnosticKind::InvalidCharacter, start: t.start, end: t.end }
}

/// The diagnostics of the inline content of tokens `[j, limit)`: one for each
/// invalid character outside code spans, in order.
pub open spec fn inline_diags(toks: Seq<Token>, j: int, limit: int, nest: Nesting) -> Seq<Diagnostic>
    decreases limit - j,
{
    if j >= limit {
        Seq::empty()
    } else {
        match span_closer(toks, j, limit, nest) {
            Some(k) => if j < k < limit {
                span_diags(toks, j, k, nest) + inline_diags(toks, k + 1, limit, nest)
            } else {
                Seq::empty()
            },
            None => if toks[j].kind == TokenKind::Invalid {
                seq![invalid_diagnostic(toks[j])] + inline_diags(toks, j + 1, limit, nest)
            } else {
                inline_diags(toks, j + 1, limit, nest)
            },
        }
    }
}

pub open spec fn span_diags(toks: Seq<Token>, j: int, k: int, nest: Nesting) -> Seq<Diagnostic>
    decreases k - j,
{
    let t = toks[j];
    if t.kind == TokenKind::Backtick || !(j < k) {
        Seq::empty()
    } else {
        inline_diags(toks, j + 1, k, opened(nest, t.kind, width_of(t)))
    }
}

/// The first line break at or after `from`, or the number of tokens.
pub open spec fn line_end_of(toks: Seq<Token>, from: int) -> int
    decreases toks.len() - from,
{
    if from >= toks.len() {
        toks.len() as int
    } else if toks[from].kind == TokenKind::Newline {
        from
    } else {
        line_end_of(toks, from + 1)
    }
}

/// The first fence line at or after `from`.
pub open spec fn first_fence(toks: Seq<Token>, from: int) -> Option<int>
    decreases toks.len() - from,
{
    if from >= toks.len() {
        None
    } else if fence_token(toks, from) {
        Some(from)
    } else {
        first_fence(toks, from + 1)
    }
}

/// The line-break leaf at token `e`, if the line ends in one.
pub open spec fn line_break(src: Seq<char>, toks: Seq<Token>, e: int) -> Seq<Event> {
    if e < toks.len() {
        seq![leaf_over(src, toks, LeafKind::Newline, e, e + 1)]
    } else {
        Seq::empty()
    }
}

pub open spec fn after_line(toks: Seq<Token>, e: int) -> int {
    if e < toks.len() {
        e + 1
    } else {
        e
    }
}

/// The closing fence of the code block that opens at token `i`, if any.
pub open spec fn closing_fence(toks: Seq<Token>, i: int) -> Option<int> {
    let e = line_end_of(toks, i + 1);
    if e < toks.len() {
        first_fence(toks, e + 1)
    } else {
        None
    }
}

/// The events of the code block that opens at token `i`: the fence, the raw
/// text up to the closing fence (or the end of input), the closing fence and
/// the rest of its line.
pub open spec fn code_block_events(src: Seq<char>, toks: Seq<Token>, i: int) -> Seq<Event> {
    match closing_fence(toks, i) {
        Some(q) => {
            let e2 = line_end_of(toks, q + 1);
            seq![
                Event::Open { node: NodeKind::CodeBlock, level: 0 },
                leaf_over(src, toks, LeafKind::Marker, i, i + 1),
                leaf_over(src, toks, LeafKind::Raw, i + 1, q),
                leaf_over(src, toks, LeafKind::Marker, q, q + 1),
            ] + (if q + 1 < e2 { seq![leaf_over(src, toks, LeafKind::Raw, q + 1, e2)] } else { Seq::empty() })
                + seq![Event::Close] + line_break(src, toks, e2)
        },
        None => seq![
            Event::Open { node: NodeKind::CodeBlock, level: 0 },
            leaf_over(src, toks, LeafKind::Marker, i, i + 1),
        ] + (if i + 1 < toks.len() {
            seq![leaf_over(src, toks, LeafKind::Raw, i + 1, toks.len() as int)]
        } else {
            Seq::empty()
        }) + seq![Event::Close],
    }
}

pub open spec fn code_block_next(toks: Seq<Token>, i: int) -> int {
    match closing_fence(toks, i) {
        Some(q) => after_line(toks, line_end_of(toks, q + 1)),
        None => toks.len() as int,
    }
}

pub open spec fn no_nesting() -> Nesting {
    Nesting { star: false, double_star: false, underscore: false, double_underscore: false }
}

/// A line whose first token is `kind` of width `w` and then a space.
pub open spec fn marked_line(toks: Seq<Token>, i: int, kind: TokenKind, max_width: int) -> bool {
    &&& toks[i].kind == kind
    &&& width_of(toks[i]) <= max_width
    &&& i + 1 < line_end_of(toks, i)
    &&& toks[i + 1].kind == TokenKind::Space
}

/// The block grammar: the events of the block at line start `i`.
pub open spec fn block_events(src: Seq<char>, toks: Seq<Token>, i: int) -> Seq<Event> {
    let t = toks[i];
    let e = line_end_of(toks, i);
    if t.kind == TokenKind::Newline {
        seq![leaf_over(src, toks, LeafKind::Newline, i, i + 1)]
    } else if t.kind == TokenKind::Backtick && width_of(t) >= 3 {
        code_block_events(src, toks, i)
    } else if marked_line(toks, i, TokenKind::Hash, 6) {
        seq![
            Event::Open { node: NodeKind::Heading, level: width_of(t) as u8 },
            leaf_over(src, toks, LeafKind::Marker, i, i + 1),
            leaf_over(src, toks, LeafKind::Space, i + 1, i + 2),
        ] + inline_events(src, toks, i + 2, i + 2, e, no_nesting()) + seq![Event::Close] + line_break(src, toks, e)
    } else if marked_line(toks, i, TokenKind::Dash, 1) {
        seq![
            Event::Open { node: NodeKind::ListItem, level: 0 },
            leaf_over(src, toks, LeafKind::Marker, i, i + 1),
            leaf_over(src, toks, LeafKind::Space, i + 1, i + 2),
        ] + inline_events(src, toks, i + 2, i + 2, e, no_nesting()) + seq![Event::Close] + line_break(src, toks, e)
    } else {
        seq![Event::Open { node: NodeKind::Paragraph, level: 0 }] + inline_events(src, toks, i, i, e, no_nesting())
            + seq![Event::Close] + line_break(src, toks, e)
    }
}

/// The line start after the block at `i`.
pub open spec fn block_next(toks: Seq<Token>, i: int) -> int {
    let t = toks[i];
    if t.kind == TokenKind::Newline {
        i + 1
    } else if t.kind == TokenKind::Backtick && width_of(t) >= 3 {
        code_block_next(toks, i)
    } else {
        after_line(toks, line_end_of(toks, i))
    }
}

/// The events of the blocks from line start `i` to the end.
pub open spec fn blocks_events(src: Seq<char>, toks: Seq<Token>, i: int) -> Seq<Event>
    decreases toks.len() - i,
{
    if i >= toks.len() || block_next(toks, i) <= i || block_next(toks, i) > toks.len() {
        Seq::empty()
    } else {
        block_events(src, toks, i) + blocks_events(src, toks, block_next(toks, i))
    }
}

/// The diagnostics of the block at line start `i`: those of its inline
/// content, or a warning at the opening fence of a code block left open.
pub open spec fn block_diags(toks: Seq<Token>, i: int) -> Seq<Diagnostic> {
    let t = toks[i];
    let e = line_end_of(toks, i);
    if t.kind == TokenKind::Newline {
        Seq::empty()
    } else if t.kind == TokenKind::Backtick && width_of(t) >= 3 {
        if closing_fence(toks, i) is None {
            seq![Diagnostic { severity: Severity::Warning, kind: DiagnosticKind::UnterminatedCodeBlock, start: t.start, end: t.end }]
        } else {
            Seq::empty()
        }
    } else if marked_line(toks, i, TokenKind::Hash, 6) || marked_line(toks, i, TokenKind::Dash, 1) {
        inline_diags(toks, i + 2, e, no_nesting())
    } else {
        inline_diags(toks, i, e, no_nesting())
    }
}

pub open spec fn blocks_diags(toks: Seq<Token>, i: int) -> Seq<Diagnostic>
    decreases toks.len() - i,
{
    if i >= toks.len() || block_next(toks, i) <= i || block_next(toks, i) > toks.len() {
        Seq::empty()
    } else {
        block_diags(toks, i) + blocks_diags(toks, block_next(toks, i))
    }
}

/// The diagnostics of a document, in order.
pub open spec fn document_diagnostics(src: Seq<char>) -> Seq<Diagnostic> {
    blocks_diags(tokens_of(src), 0)
}

/// The tree of a document with the given tokens: a `Markup` node holding its blocks.
pub open spec fn document_events(src: Seq<char>, toks: Seq<Token>) -> Seq<Event> {
    seq![Event::Open { node: NodeKind::Markup, level: 0 }] + blocks_events(src, toks, 0) + seq![Event::Close]
}

pub open spec fn line_start(toks: Seq<Token>, i: int) -> bool {
    i == 0 || toks[i - 1].kind == TokenKind::Newline
}

} // verus!
