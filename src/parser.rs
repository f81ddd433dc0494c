use vstd::prelude::*;
use crate::lexer::{Token, TokenKind, tokenizes, token_at, is_invalid_char, class_of, lex, tokens_of};
use crate::grammar::{
    Nesting, MAX_GRAMMAR_DEPTH, offset, is_fence_line, fence_token, fence_count, no_invalid,
    well_formed, nest_count, is_open, text_run, width_of, first_closer, span_closer, opened,
    inline_events, span_events, inline_diags, span_diags, line_end_of, first_fence, closing_fence,
    code_block_events, code_block_next, no_nesting, block_events, block_next, blocks_events,
    block_diags, blocks_diags, document_diagnostics, document_events, line_start,
};
use crate::tree::{
    Event, NodeKind, LeafKind, Diagnostic, DiagnosticKind, Severity, ParseError, Limits,
    leaf_text, depth_after, lemma_leaf_text_push, SyntaxTree, is_tree, leaves_within,
};

verus! {

proof fn lemma_no_fence(toks: Seq<Token>, a: int, b: int)
    requires
        0 <= a <= b,
        forall|m: int| a <= m < b ==> !fence_token(toks, m),
    ensures
        fence_count(toks, b) == fence_count(toks, a),
    decreases b - a,
{
    if a < b {
        lemma_no_fence(toks, a, b - 1);
    }
}

/// What parsing the block from line start `i` up to `next` does to the count
/// of fence lines and to the diagnostics: a closed block, or a line that is
/// no fence, keeps the parity of the count and reports only invalid
/// characters; an unclosed code block runs to the end of input.
pub open spec fn block_step(toks: Seq<Token>, i: int, next: int, before: Seq<Diagnostic>, after: Seq<Diagnostic>) -> bool {
    ||| {
        &&& fence_count(toks, next) == fence_count(toks, i) || fence_count(toks, next) == fence_count(toks, i) + 2
        &&& no_invalid(toks, i, next) ==> after == before
    }
    ||| next == toks.len() && fence_count(toks, next) == fence_count(toks, i) + 1
}

/// Past the first token of a line, no fence line starts before the line break.
proof fn lemma_line_no_fence(toks: Seq<Token>, a: int, e: int, b: int)
    requires
        0 <= a < b <= e + 1,
        forall|k: int| a <= k < e ==> (#[trigger] toks[k]).kind != TokenKind::Newline,
    ensures
        fence_count(toks, b) == fence_count(toks, a + 1),
{
    assert forall|m: int| a + 1 <= m < b implies !fence_token(toks, m) by {
        assert(toks[m - 1].kind != TokenKind::Newline);
    }
    lemma_no_fence(toks, a + 1, b);
}

/// Every diagnostic points at what caused it: an invalid character, or the
/// opening fence of a code block.
#[verifier::opaque]
pub open spec fn diagnostics_justified(src: Seq<char>, diags: Seq<Diagnostic>) -> bool {
    forall|k: int| 0 <= k < diags.len() ==> {
        let d = #[trigger] diags[k];
        match d.kind {
            DiagnosticKind::InvalidCharacter => {
                &&& d.severity == Severity::Error
                &&& d.start < src.len() && d.end == d.start + 1
                &&& is_invalid_char(src[d.start as int])
            },
            DiagnosticKind::UnterminatedCodeBlock => {
                &&& d.severity == Severity::Warning
                &&& is_fence_line(src, d.start as int)
            },
        }
    }
}

/// The state of a tree under construction: the root `Markup` node is open,
/// `depth` nodes are open now and none was closed too early, and the leaves
/// so far spell out the source up to `pos`.
#[verifier::opaque]
pub open spec fn building(events: Seq<Event>, src: Seq<char>, pos: int, depth: int) -> bool {
    &&& events.len() >= 1
    &&& events[0] == (Event::Open { node: NodeKind::Markup, level: 0 })
    &&& forall|n: int| 1 <= n <= events.len() ==> depth_after(events, n) >= 1
    &&& depth_after(events, events.len() as int) == depth
    &&& 0 <= pos <= src.len()
    &&& leaf_text(events, src) == src.subrange(0, pos)
    &&& leaves_within(events, src.len() as int)
}

proof fn lemma_depth_push(events: Seq<Event>, e: Event, n: int)
    requires
        0 <= n <= events.len(),
    ensures
        depth_after(events.push(e), n) == depth_after(events, n),
    decreases n,
{
    if n > 0 {
        lemma_depth_push(events, e, n - 1);
        assert(events.push(e)[n - 1] == events[n - 1]);
    }
}

proof fn lemma_offset_monotone(src: Seq<char>, toks: Seq<Token>, a: int, b: int)
    requires
        tokenizes(src, toks),
        0 <= a <= b <= toks.len(),
    ensures
        offset(src, toks, a) <= offset(src, toks, b),
    decreases b - a,
{
    reveal(tokenizes);
    if a < b {
        lemma_offset_monotone(src, toks, a + 1, b);
        assert(token_at(src, toks[a]));
        if a + 1 < toks.len() {
            assert(toks[a + 1].start == toks[a].end);
        }
    }
}

proof fn lemma_offset_next(src: Seq<char>, toks: Seq<Token>, i: int)
    requires
        tokenizes(src, toks),
        0 <= i < toks.len(),
    ensures
        offset(src, toks, i + 1) == toks[i].end,
        offset(src, toks, i) == toks[i].start,
        token_at(src, toks[i]),
{
    reveal(tokenizes);
    if i + 1 < toks.len() {
        assert(toks[i + 1].start == toks[i].end);
    }
}

fn push_event(events: &mut Vec<Event>, e: Event, Ghost(src): Ghost<Seq<char>>, Ghost(pos): Ghost<int>, Ghost(depth): Ghost<int>)
    requires
        building(old(events)@, src, pos, depth),
        e matches Event::Close ==> depth >= 2,
        e matches Event::Leaf { start, end, .. } ==> start == pos && pos <= end <= src.len(),
    ensures
        final(events)@ == old(events)@.push(e),
        building(
            final(events)@,
            src,
            match e {
                Event::Leaf { end, .. } => end as int,
                _ => pos,
            },
            match e {
                Event::Open { .. } => depth + 1,
                Event::Close => depth - 1,
                _ => depth,
            },
        ),
{
    let ghost before = events@;
    events.push(e);
    proof {
        reveal(building);
        lemma_leaf_text_push(before, e, src);
        let after = events@;
        assert forall|n: int| 1 <= n <= after.len() implies depth_after(after, n) >= 1 by {
            if n <= before.len() {
                lemma_depth_push(before, e, n);
            } else {
                lemma_depth_push(before, e, before.len() as int);
            }
        }
        lemma_depth_push(before, e, before.len() as int);
        assert(after[0] == before[0]);
        assert forall|k: int| 0 <= k < after.len() implies (#[trigger] after[k] matches Event::Leaf { start, end, .. } ==> start <= end
            && end <= src.len()) by {
            if k < before.len() {
                assert(after[k] == before[k]);
            }
        }
        if let Event::Leaf { start, end, .. } = e {
            assert(src.subrange(0, pos) + src.subrange(pos, end as int) =~= src.subrange(0, end as int));
        }
    }
}

/// Pushes a leaf that covers tokens `[a, b)`.
fn push_leaf(
    events: &mut Vec<Event>,
    kind: LeafKind,
    toks: &Vec<Token>,
    a: usize,
    b: usize,
    n: usize,
    Ghost(src): Ghost<Seq<char>>,
    Ghost(depth): Ghost<int>,
)
    requires
        tokenizes(src, toks@),
        n == src.len(),
        a <= b <= toks@.len(),
        building(old(events)@, src, offset(src, toks@, a as int), depth),
    ensures
        building(final(events)@, src, offset(src, toks@, b as int), depth),
        final(events)@ == old(events)@.push(
            Event::Leaf { kind, start: offset(src, toks@, a as int) as usize, end: offset(src, toks@, b as int) as usize },
        ),
{
    let start: usize = if a < toks.len() { toks[a].start } else { n };
    let end: usize = if b < toks.len() { toks[b].start } else { n };
    proof {
        lemma_offset_monotone(src, toks@, a as int, b as int);
        lemma_offset_monotone(src, toks@, b as int, toks@.len() as int);
    }
    push_event(events, Event::Leaf { kind, start, end }, Ghost(src), Ghost(offset(src, toks@, a as int)), Ghost(depth));
}

/// The first token at or after `from` that is a line break, or the number of tokens.
fn line_end(toks: &Vec<Token>, from: usize) -> (e: usize)
    requires
        from <= toks@.len(),
    ensures
        from <= e <= toks@.len(),
        e < toks@.len() ==> toks@[e as int].kind == TokenKind::Newline,
        forall|k: int| from <= k < e ==> toks@[k].kind != TokenKind::Newline,
        e == line_end_of(toks@, from as int),
{
    let mut e = from;
    while e < toks.len() && toks[e].kind != TokenKind::Newline
        invariant
            from <= e <= toks@.len(),
            forall|k: int| from <= k < e ==> toks@[k].kind != TokenKind::Newline,
            line_end_of(toks@, from as int) == line_end_of(toks@, e as int),
        decreases toks@.len() - e,
    {
        e = e + 1;
    }
    e
}

/// The first token in `[from, limit)` with the given kind and width.
fn find_closer(toks: &Vec<Token>, from: usize, limit: usize, kind: TokenKind, width: usize, Ghost(src): Ghost<Seq<char>>) -> (r: Option<usize>)
    requires
        tokenizes(src, toks@),
        from <= limit <= toks@.len(),
    ensures
        r matches Some(k) ==> from <= k < limit && toks@[k as int].kind == kind && toks@[k as int].end - toks@[k as int].start == width,
        r matches Some(k) ==> first_closer(toks@, from as int, limit as int, kind, width as int) == Some(k as int),
        r is None ==> first_closer(toks@, from as int, limit as int, kind, width as int) is None,
{
    let mut k = from;
    while k < limit
        invariant
            from <= k <= limit <= toks@.len(),
            tokenizes(src, toks@),
            first_closer(toks@, from as int, limit as int, kind, width as int) == first_closer(toks@, k as int, limit as int, kind, width as int),
        decreases limit - k,
    {
        proof {
            lemma_offset_next(src, toks@, k as int);
        }
        if toks[k].kind == kind && toks[k].end - toks[k].start == width {
            return Some(k);
        }
        k = k + 1;
    }
    None
}

/// Pushes a `Text` leaf for tokens `[from, to)`, if there are any.
fn flush_text(
    events: &mut Vec<Event>,
    toks: &Vec<Token>,
    from: usize,
    to: usize,
    n: usize,
    Ghost(src): Ghost<Seq<char>>,
    Ghost(depth): Ghost<int>,
)
    requires
        tokenizes(src, toks@),
        n == src.len(),
        from <= to <= toks@.len(),
        building(old(events)@, src, offset(src, toks@, from as int), depth),
    ensures
        building(final(events)@, src, offset(src, toks@, to as int), depth),
        final(events)@ == old(events)@ + text_run(src, toks@, from as int, to as int),
{
    if from < to {
        push_leaf(events, LeafKind::Text, toks, from, to, n, Ghost(src), Ghost(depth));
    }
    assert(events@ =~= old(events)@ + text_run(src, toks@, from as int, to as int));
}

/// Marks the delimiter of the given kind and width as open.
fn with_open(nest: Nesting, kind: TokenKind, width: usize) -> (r: Nesting)
    requires
        kind == TokenKind::Star || kind == TokenKind::Underscore,
        width == 1 || width == 2,
        !is_open(nest, kind, width as int),
    ensures
        nest_count(r) == nest_count(nest) + 1,
        r == opened(nest, kind, width as int),
{
    if kind == TokenKind::Star {
        if width == 1 {
            Nesting { star: true, ..nest }
        } else {
            Nesting { double_star: true, ..nest }
        }
    } else {
        if width == 1 {
            Nesting { underscore: true, ..nest }
        } else {
            Nesting { double_underscore: true, ..nest }
        }
    }
}

fn open_now(nest: Nesting, kind: TokenKind, width: usize) -> (r: bool)
    ensures
        r == is_open(nest, kind, width as int),
{
    if kind == TokenKind::Star {
        if width == 1 { nest.star } else { nest.double_star }
    } else {
        if width == 1 { nest.underscore } else { nest.double_underscore }
    }
}

/// Parses the span from the opening delimiter `j` to its closing partner `k`.
fn parse_span(
    toks: &Vec<Token>,
    j: usize,
    k: usize,
    n: usize,
    nest: Nesting,
    depth: usize,
    limits: Limits,
    events: &mut Vec<Event>,
    diags: &mut Vec<Diagnostic>,
    Ghost(src): Ghost<Seq<char>>,
) -> (r: Result<(), ParseError>)
    requires
        tokenizes(src, toks@),
        n == src.len(),
        j < k < toks@.len(),
        depth == 2 + nest_count(nest),
        ({
            let t = toks@[j as int];
            &&& t.kind == TokenKind::Backtick || t.kind == TokenKind::Star || t.kind == TokenKind::Underscore
            &&& t.end - t.start == 1 || t.end - t.start == 2
            &&& t.kind != TokenKind::Backtick ==> !is_open(nest, t.kind, t.end - t.start)
        }),
        building(old(events)@, src, offset(src, toks@, j as int), depth as int),
        diagnostics_justified(src, old(diags)@),
    ensures
        diagnostics_justified(src, final(diags)@),
        r is Ok ==> building(final(events)@, src, offset(src, toks@, k + 1), depth as int),
        r is Ok ==> final(events)@ == old(events)@ + span_events(src, toks@, j as int, k as int, nest),
        r is Ok ==> final(diags)@ == old(diags)@ + span_diags(toks@, j as int, k as int, nest),
        limits.max_depth >= MAX_GRAMMAR_DEPTH ==> r is Ok,
        no_invalid(toks@, j as int, k + 1) ==> final(diags)@ == old(diags)@,
    decreases k - j,
{
    if depth >= limits.max_depth {
        return Err(ParseError::ResourceExceeded);
    }
    let _count = toks.len();
    let t = toks[j];
    proof {
        lemma_offset_next(src, toks@, j as int);
        lemma_offset_next(src, toks@, k as int);
    }
    let width = t.end - t.start;
    if t.kind == TokenKind::Backtick {
        push_event(events, Event::Open { node: NodeKind::Code, level: 0 }, Ghost(src), Ghost(offset(src, toks@, j as int)), Ghost(depth as int));
        push_leaf(events, LeafKind::Marker, toks, j, j + 1, n, Ghost(src), Ghost(depth + 1));
        if j + 1 < k {
            push_leaf(events, LeafKind::Raw, toks, j + 1, k, n, Ghost(src), Ghost(depth + 1));
        }
    } else {
        let node = if width == 1 { NodeKind::Emphasis } else { NodeKind::Strong };
        push_event(events, Event::Open { node, level: 0 }, Ghost(src), Ghost(offset(src, toks@, j as int)), Ghost(depth as int));
        push_leaf(events, LeafKind::Marker, toks, j, j + 1, n, Ghost(src), Ghost(depth + 1));
        let inner = with_open(nest, t.kind, width);
        let ghost mid = events@;
        match parse_inline(toks, j + 1, k, n, inner, depth + 1, limits, events, diags, Ghost(src)) {
            Ok(()) => {},
            Err(e) => {
                return Err(e);
            },
        }
        proof {
            assert(events@ == mid + inline_events(src, toks@, j + 1, j + 1, k as int, inner));
            assert(diags@ =~= old(diags)@ + span_diags(toks@, j as int, k as int, nest));
        }
    }
    push_leaf(events, LeafKind::Marker, toks, k, k + 1, n, Ghost(src), Ghost(depth + 1));
    push_event(events, Event::Close, Ghost(src), Ghost(offset(src, toks@, k + 1)), Ghost(depth + 1));
    assert(events@ =~= old(events)@ + span_events(src, toks@, j as int, k as int, nest));
    assert(diags@ =~= old(diags)@ + span_diags(toks@, j as int, k as int, nest));
    Ok(())
}

/// Parses the inline content of tokens `[i, limit)`: emphasis (`*` or `_`),
/// strong emphasis (`**` or `__`) and code spans (one or two backticks).
/// A delimiter without a closing partner is plain text. A delimiter kind does
/// not nest inside itself.
fn parse_inline(
    toks: &Vec<Token>,
    i: usize,
    limit: usize,
    n: usize,
    nest: Nesting,
    depth: usize,
    limits: Limits,
    events: &mut Vec<Event>,
    diags: &mut Vec<Diagnostic>,
    Ghost(src): Ghost<Seq<char>>,
) -> (r: Result<(), ParseError>)
    requires
        tokenizes(src, toks@),
        n == src.len(),
        i <= limit <= toks@.len(),
        depth == 2 + nest_count(nest),
        building(old(events)@, src, offset(src, toks@, i as int), depth as int),
        diagnostics_justified(src, old(diags)@),
    ensures
        diagnostics_justified(src, final(diags)@),
        r is Ok ==> building(final(events)@, src, offset(src, toks@, limit as int), depth as int),
        r is Ok ==> final(events)@ == old(events)@ + inline_events(src, toks@, i as int, i as int, limit as int, nest),
        r is Ok ==> final(diags)@ == old(diags)@ + inline_diags(toks@, i as int, limit as int, nest),
        limits.max_depth >= MAX_GRAMMAR_DEPTH ==> r is Ok,
        no_invalid(toks@, i as int, limit as int) ==> final(diags)@ == old(diags)@,
    decreases limit - i,
{
    let mut j = i;
    let mut text_from = i;
    while j < limit
        invariant
            tokenizes(src, toks@),
            n == src.len(),
            i <= text_from <= j <= limit <= toks@.len(),
            depth == 2 + nest_count(nest),
            building(events@, src, offset(src, toks@, text_from as int), depth as int),
            diagnostics_justified(src, diags@),
            no_invalid(toks@, i as int, limit as int) ==> diags@ == old(diags)@,
            old(events)@ + inline_events(src, toks@, i as int, i as int, limit as int, nest) == events@ + inline_events(
                src,
                toks@,
                text_from as int,
                j as int,
                limit as int,
                nest,
            ),
            old(diags)@ + inline_diags(toks@, i as int, limit as int, nest) == diags@ + inline_diags(toks@, j as int, limit as int, nest),
        decreases limit - j,
    {
        let ghost before = events@;
        let ghost diags_before = diags@;
        let t = toks[j];
        proof {
            lemma_offset_next(src, toks@, j as int);
        }
        let width = t.end - t.start;
        let mut closer: Option<usize> = None;
        if (t.kind == TokenKind::Star || t.kind == TokenKind::Underscore) && (width == 1 || width == 2) {
            if !open_now(nest, t.kind, width) {
                closer = find_closer(toks, j + 1, limit, t.kind, width, Ghost(src));
            }
        } else if t.kind == TokenKind::Backtick && (width == 1 || width == 2) {
            closer = find_closer(toks, j + 1, limit, t.kind, width, Ghost(src));
        }
        proof {
            assert(span_closer(toks@, j as int, limit as int, nest) == match closer {
                Some(k) => Some(k as int),
                None => None::<int>,
            });
        }
        match closer {
            Some(k) => {
                flush_text(events, toks, text_from, j, n, Ghost(src), Ghost(depth as int));
                match parse_span(toks, j, k, n, nest, depth, limits, events, diags, Ghost(src)) {
                    Ok(()) => {},
                    Err(e) => {
                        return Err(e);
                    },
                }
                proof {
                    let rest = inline_events(src, toks@, k + 1, k + 1, limit as int, nest);
                    assert(inline_events(src, toks@, text_from as int, j as int, limit as int, nest) == text_run(src, toks@, text_from as int, j as int)
                        + span_events(src, toks@, j as int, k as int, nest) + rest);
                    assert(events@ + rest =~= before + inline_events(src, toks@, text_from as int, j as int, limit as int, nest));
                    assert(diags@ + inline_diags(toks@, k + 1, limit as int, nest) =~= diags_before + inline_diags(toks@, j as int, limit as int, nest));
                }
                j = k + 1;
                text_from = j;
            },
            None => {
                if t.kind == TokenKind::Invalid {
                    flush_text(events, toks, text_from, j, n, Ghost(src), Ghost(depth as int));
                    push_leaf(events, LeafKind::Error, toks, j, j + 1, n, Ghost(src), Ghost(depth as int));
                    proof {
                        let rest = inline_events(src, toks@, j + 1, j + 1, limit as int, nest);
                        assert(events@ + rest =~= before + inline_events(src, toks@, text_from as int, j as int, limit as int, nest));
                    }
                    proof {
                        reveal(diagnostics_justified);
                    }
                    diags.push(Diagnostic { severity: Severity::Error, kind: DiagnosticKind::InvalidCharacter, start: t.start, end: t.end });
                    proof {
                        assert(diags@ + inline_diags(toks@, j + 1, limit as int, nest) =~= diags_before + inline_diags(toks@, j as int, limit as int, nest));
                    }
                    proof {
                        reveal(diagnostics_justified);
                    }
                    j = j + 1;
                    text_from = j;
                } else {
                    j = j + 1;
                }
            },
        }
    }
    flush_text(events, toks, text_from, j, n, Ghost(src), Ghost(depth as int));
    proof {
        assert(events@ =~= old(events)@ + inline_events(src, toks@, i as int, i as int, limit as int, nest));
        assert(diags@ =~= old(diags)@ + inline_diags(toks@, i as int, limit as int, nest));
    }
    Ok(())
}

/// The first token at or after `from` that begins a fence line, if any.
fn find_fence(toks: &Vec<Token>, from: usize, Ghost(src): Ghost<Seq<char>>) -> (r: Option<usize>)
    requires
        tokenizes(src, toks@),
        0 < from <= toks@.len(),
    ensures
        r matches Some(q) ==> from <= q < toks@.len() && fence_token(toks@, q as int),
        r matches Some(q) ==> forall|m: int| from <= m < q ==> !fence_token(toks@, m),
        r is None ==> forall|m: int| from <= m < toks@.len() ==> !fence_token(toks@, m),
        r matches Some(q) ==> first_fence(toks@, from as int) == Some(q as int),
        r is None ==> first_fence(toks@, from as int) is None,
{
    let mut q = from;
    while q < toks.len()
        invariant
            0 < from <= q <= toks@.len(),
            tokenizes(src, toks@),
            forall|m: int| from <= m < q ==> !fence_token(toks@, m),
            first_fence(toks@, from as int) == first_fence(toks@, q as int),
        decreases toks@.len() - q,
    {
        proof {
            lemma_offset_next(src, toks@, q as int);
        }
        if toks[q - 1].kind == TokenKind::Newline && toks[q].kind == TokenKind::Backtick && toks[q].end - toks[q].start >= 3 {
            return Some(q);
        }
        q = q + 1;
    }
    None
}

/// A token that starts a line begins a fence line when it is a run of at
/// least three backticks.
proof fn lemma_fence_token(src: Seq<char>, toks: Seq<Token>, i: int)
    requires
        tokenizes(src, toks),
        0 <= i < toks.len(),
        i == 0 || toks[i - 1].kind == TokenKind::Newline,
        toks[i].kind == TokenKind::Backtick,
        toks[i].end - toks[i].start >= 3,
    ensures
        is_fence_line(src, toks[i].start as int),
{
    lemma_offset_next(src, toks, i);
    let p = toks[i].start as int;
    assert(class_of(src[p]) == TokenKind::Backtick);
    assert(class_of(src[p + 1]) == TokenKind::Backtick);
    assert(class_of(src[p + 2]) == TokenKind::Backtick);
    if i > 0 {
        lemma_offset_next(src, toks, i - 1);
        assert(class_of(src[toks[i - 1].start as int]) == TokenKind::Newline);
    } else {
        reveal(tokenizes);
    }
}

/// Parses a code block whose opening fence is token `i`. It runs to the next
/// fence line, or to the end of input with a diagnostic.
fn parse_code_block(
    toks: &Vec<Token>,
    i: usize,
    n: usize,
    limits: Limits,
    events: &mut Vec<Event>,
    diags: &mut Vec<Diagnostic>,
    Ghost(src): Ghost<Seq<char>>,
) -> (r: Result<usize, ParseError>)
    requires
        tokenizes(src, toks@),
        n == src.len(),
        i < toks@.len(),
        i == 0 || toks@[i - 1].kind == TokenKind::Newline,
        toks@[i as int].kind == TokenKind::Backtick,
        toks@[i as int].end - toks@[i as int].start >= 3,
        building(old(events)@, src, offset(src, toks@, i as int), 1),
        diagnostics_justified(src, old(diags)@),
    ensures
        diagnostics_justified(src, final(diags)@),
        r matches Ok(next) ==> i < next <= toks@.len() && (next == toks@.len() || toks@[next - 1].kind == TokenKind::Newline)
            && building(final(events)@, src, offset(src, toks@, next as int), 1),
        r matches Ok(next) ==> block_step(toks@, i as int, next as int, old(diags)@, final(diags)@),
        r matches Ok(next) ==> next == code_block_next(toks@, i as int) && final(events)@ == old(events)@ + code_block_events(
            src,
            toks@,
            i as int,
        ),
        r is Ok ==> final(diags)@ == old(diags)@ + block_diags(toks@, i as int),
        limits.max_depth >= MAX_GRAMMAR_DEPTH ==> r is Ok,
{
    let count = toks.len();
    if limits.max_depth < 2 {
        return Err(ParseError::ResourceExceeded);
    }
    proof {
        lemma_offset_next(src, toks@, i as int);
    }
    push_event(events, Event::Open { node: NodeKind::CodeBlock, level: 0 }, Ghost(src), Ghost(offset(src, toks@, i as int)), Ghost(1));
    push_leaf(events, LeafKind::Marker, toks, i, i + 1, n, Ghost(src), Ghost(2));
    let e = line_end(toks, i + 1);
    let closing = if e < count { find_fence(toks, e + 1, Ghost(src)) } else { None };
    proof {
        assert(closing_fence(toks@, i as int) == match closing {
            Some(q) => Some(q as int),
            None => None::<int>,
        });
    }
    match closing {
        Some(q) => {
            proof {
                lemma_offset_next(src, toks@, q as int);
            }
            push_leaf(events, LeafKind::Raw, toks, i + 1, q, n, Ghost(src), Ghost(2));
            push_leaf(events, LeafKind::Marker, toks, q, q + 1, n, Ghost(src), Ghost(2));
            let e2 = line_end(toks, q + 1);
            if q + 1 < e2 {
                push_leaf(events, LeafKind::Raw, toks, q + 1, e2, n, Ghost(src), Ghost(2));
            }
            push_event(events, Event::Close, Ghost(src), Ghost(offset(src, toks@, e2 as int)), Ghost(2));
            proof {
                assert(fence_token(toks@, i as int));
                assert(fence_count(toks@, i + 1) == fence_count(toks@, i as int) + 1);
                lemma_line_no_fence(toks@, i as int, e as int, e + 1);
                lemma_no_fence(toks@, e + 1, q as int);
                assert(fence_count(toks@, q + 1) == fence_count(toks@, q as int) + 1);
                if e2 < count {
                    lemma_line_no_fence(toks@, q as int, e2 as int, e2 + 1);
                } else {
                    lemma_line_no_fence(toks@, q as int, e2 as int, e2 as int);
                }
            }
            assert(diags@ =~= old(diags)@ + block_diags(toks@, i as int));
            if e2 < count {
                push_leaf(events, LeafKind::Newline, toks, e2, e2 + 1, n, Ghost(src), Ghost(1));
                assert(events@ =~= old(events)@ + code_block_events(src, toks@, i as int));
                Ok(e2 + 1)
            } else {
                assert(events@ =~= old(events)@ + code_block_events(src, toks@, i as int));
                Ok(e2)
            }
        },
        None => {
            if i + 1 < count {
                push_leaf(events, LeafKind::Raw, toks, i + 1, count, n, Ghost(src), Ghost(2));
            }
            push_event(events, Event::Close, Ghost(src), Ghost(offset(src, toks@, count as int)), Ghost(2));
            proof {
                lemma_fence_token(src, toks@, i as int);
                reveal(diagnostics_justified);
                assert(fence_token(toks@, i as int));
                assert(fence_count(toks@, i + 1) == fence_count(toks@, i as int) + 1);
                if e < count {
                    lemma_line_no_fence(toks@, i as int, e as int, e + 1);
                    lemma_no_fence(toks@, e + 1, count as int);
                } else {
                    lemma_line_no_fence(toks@, i as int, e as int, e as int);
                }
            }
            diags.push(Diagnostic {
                severity: Severity::Warning,
                kind: DiagnosticKind::UnterminatedCodeBlock,
                start: toks[i].start,
                end: toks[i].end,
            });
            assert(events@ =~= old(events)@ + code_block_events(src, toks@, i as int));
            assert(diags@ =~= old(diags)@ + block_diags(toks@, i as int));
            Ok(count)
        },
    }
}

/// Parses the block that starts at line start `i`, and the line break after
/// it. Precedence: code fence, heading (`#` to `######` and a space), list
/// item (`-` and a space), paragraph. A blank line is a line-break leaf.
fn parse_block(
    toks: &Vec<Token>,
    i: usize,
    n: usize,
    limits: Limits,
    events: &mut Vec<Event>,
    diags: &mut Vec<Diagnostic>,
    Ghost(src): Ghost<Seq<char>>,
) -> (r: Result<usize, ParseError>)
    requires
        tokenizes(src, toks@),
        n == src.len(),
        i < toks@.len(),
        line_start(toks@, i as int),
        building(old(events)@, src, offset(src, toks@, i as int), 1),
        diagnostics_justified(src, old(diags)@),
    ensures
        diagnostics_justified(src, final(diags)@),
        r matches Ok(next) ==> i < next <= toks@.len() && (next == toks@.len() || line_start(toks@, next as int))
            && building(final(events)@, src, offset(src, toks@, next as int), 1),
        r matches Ok(next) ==> block_step(toks@, i as int, next as int, old(diags)@, final(diags)@),
        r matches Ok(next) ==> next == block_next(toks@, i as int) && final(events)@ == old(events)@ + block_events(
            src,
            toks@,
            i as int,
        ),
        r is Ok ==> final(diags)@ == old(diags)@ + block_diags(toks@, i as int),
        limits.max_depth >= MAX_GRAMMAR_DEPTH ==> r is Ok,
{
    let count = toks.len();
    let t = toks[i];
    proof {
        lemma_offset_next(src, toks@, i as int);
    }
    let width = t.end - t.start;
    if t.kind == TokenKind::Newline {
        push_leaf(events, LeafKind::Newline, toks, i, i + 1, n, Ghost(src), Ghost(1));
        proof {
            assert(fence_count(toks@, i + 1) == fence_count(toks@, i as int));
            assert(events@ =~= old(events)@ + block_events(src, toks@, i as int));
            assert(diags@ =~= old(diags)@ + block_diags(toks@, i as int));
        }
        return Ok(i + 1);
    }
    if t.kind == TokenKind::Backtick && width >= 3 {
        return parse_code_block(toks, i, n, limits, events, diags, Ghost(src));
    }
    if limits.max_depth < 2 {
        return Err(ParseError::ResourceExceeded);
    }
    let e = line_end(toks, i);
    let no_nest = Nesting { star: false, double_star: false, underscore: false, double_underscore: false };
    let spaced = i + 1 < e && toks[i + 1].kind == TokenKind::Space;
    let ghost start_events = events@;
    proof {
        assert(t.kind != TokenKind::Newline);
        assert(!(t.kind == TokenKind::Backtick && width_of(t) >= 3));
        assert(no_nest == no_nesting());
    }
    let inline_from = if t.kind == TokenKind::Hash && width <= 6 && spaced {
        push_event(events, Event::Open { node: NodeKind::Heading, level: width as u8 }, Ghost(src), Ghost(offset(src, toks@, i as int)), Ghost(1));
        push_leaf(events, LeafKind::Marker, toks, i, i + 1, n, Ghost(src), Ghost(2));
        push_leaf(events, LeafKind::Space, toks, i + 1, i + 2, n, Ghost(src), Ghost(2));
        i + 2
    } else if t.kind == TokenKind::Dash && width == 1 && spaced {
        push_event(events, Event::Open { node: NodeKind::ListItem, level: 0 }, Ghost(src), Ghost(offset(src, toks@, i as int)), Ghost(1));
        push_leaf(events, LeafKind::Marker, toks, i, i + 1, n, Ghost(src), Ghost(2));
        push_leaf(events, LeafKind::Space, toks, i + 1, i + 2, n, Ghost(src), Ghost(2));
        i + 2
    } else {
        push_event(events, Event::Open { node: NodeKind::Paragraph, level: 0 }, Ghost(src), Ghost(offset(src, toks@, i as int)), Ghost(1));
        i
    };
    let ghost opened_events = events@;
    match parse_inline(toks, inline_from, e, n, no_nest, 2, limits, events, diags, Ghost(src)) {
        Ok(()) => {},
        Err(err) => {
            return Err(err);
        },
    }
    let ghost inline_part = inline_events(src, toks@, inline_from as int, inline_from as int, e as int, no_nesting());
    assert(events@ == opened_events + inline_part);
    assert(diags@ =~= old(diags)@ + block_diags(toks@, i as int));
    push_event(events, Event::Close, Ghost(src), Ghost(offset(src, toks@, e as int)), Ghost(2));
    proof {
        assert(!fence_token(toks@, i as int));
        assert(fence_count(toks@, i + 1) == fence_count(toks@, i as int));
    }
    if e < count {
        push_leaf(events, LeafKind::Newline, toks, e, e + 1, n, Ghost(src), Ghost(1));
        proof {
            lemma_line_no_fence(toks@, i as int, e as int, e + 1);
            assert(events@ =~= old(events)@ + block_events(src, toks@, i as int));
        }
        Ok(e + 1)
    } else {
        proof {
            lemma_line_no_fence(toks@, i as int, e as int, e as int);
            assert(events@ =~= old(events)@ + block_events(src, toks@, i as int));
        }
        Ok(e)
    }
}

fn start_tree(Ghost(src): Ghost<Seq<char>>) -> (events: Vec<Event>)
    ensures
        building(events@, src, 0, 1),
        events@ == seq![Event::Open { node: NodeKind::Markup, level: 0 }],
{
    let mut events: Vec<Event> = Vec::new();
    events.push(Event::Open { node: NodeKind::Markup, level: 0 });
    proof {
        reveal(building);
        reveal_with_fuel(depth_after, 2);
        reveal_with_fuel(leaf_text, 2);
        assert(src.subrange(0, 0) =~= Seq::<char>::empty());
        assert(leaf_text(events@, src) =~= Seq::<char>::empty());
    }
    events
}

fn close_root(events: &mut Vec<Event>, Ghost(src): Ghost<Seq<char>>)
    requires
        building(old(events)@, src, src.len() as int, 1),
    ensures
        is_tree(final(events)@, NodeKind::Markup),
        leaf_text(final(events)@, src) == src,
        leaves_within(final(events)@, src.len() as int),
        final(events)@ == old(events)@.push(Event::Close),
{
    let ghost before = events@;
    events.push(Event::Close);
    proof {
        reveal(building);
        lemma_leaf_text_push(before, Event::Close, src);
        lemma_depth_push(before, Event::Close, before.len() as int);
        assert(src.subrange(0, src.len() as int) =~= src);
        assert forall|m: int| 1 <= m < events@.len() implies depth_after(events@, m) >= 1 by {
            lemma_depth_push(before, Event::Close, m);
        }
        assert forall|k: int| 0 <= k < events@.len() implies (#[trigger] events@[k] matches Event::Leaf { start, end, .. } ==> start <= end
            && end <= src.len()) by {
            if k < before.len() {
                assert(events@[k] == before[k]);
            }
        }
        assert(events@[0] == before[0]);
    }
}

/// Parses a whole document. The tree is a single `Markup` node whose leaves
/// spell out the source exactly; it fails only when the input exceeds the
/// limits.
pub fn parse_tree(src: &Vec<char>, limits: Limits) -> (r: Result<(SyntaxTree, Vec<Diagnostic>), ParseError>)
    ensures
        r matches Ok((tree, diags)) ==> {
            &&& is_tree(tree.events@, NodeKind::Markup)
            &&& leaf_text(tree.events@, src@) == src@
            &&& leaves_within(tree.events@, src@.len() as int)
            &&& diagnostics_justified(src@, diags@)
        },
        r matches Ok((tree, _)) ==> tree.events@ == document_events(src@, tokens_of(src@)),
        r matches Ok((_, diags)) ==> diags@ == document_diagnostics(src@),
        r matches Ok((_, diags)) ==> (well_formed(src@) ==> diags@.len() == 0),
        r is Err ==> r == Err::<(SyntaxTree, Vec<Diagnostic>), ParseError>(ParseError::ResourceExceeded),
        limits.max_depth >= MAX_GRAMMAR_DEPTH && src@.len() <= limits.max_tokens ==> r is Ok,
{
    let n = src.len();
    let toks = lex(src);
    if toks.len() > limits.max_tokens || limits.max_depth < 1 {
        return Err(ParseError::ResourceExceeded);
    }
    let mut events = start_tree(Ghost(src@));
    let mut diags: Vec<Diagnostic> = Vec::new();
    proof {
        reveal(diagnostics_justified);
        reveal(tokenizes);
    }
    let mut i: usize = 0;
    while i < toks.len()
        invariant
            tokenizes(src@, toks@),
            n == src@.len(),
            i <= toks@.len(),
            i < toks@.len() ==> line_start(toks@, i as int),
            building(events@, src@, offset(src@, toks@, i as int), 1),
            diagnostics_justified(src@, diags@),
            ({
                ||| fence_count(toks@, i as int) % 2 == 0 && (no_invalid(toks@, 0, i as int) ==> diags@.len() == 0)
                ||| i == toks@.len() && fence_count(toks@, i as int) % 2 == 1
            }),
            seq![Event::Open { node: NodeKind::Markup, level: 0 }] + blocks_events(src@, toks@, 0) == events@ + blocks_events(
                src@,
                toks@,
                i as int,
            ),
            blocks_diags(toks@, 0) == diags@ + blocks_diags(toks@, i as int),
        decreases toks@.len() - i,
    {
        let ghost before = diags@;
        let ghost events_before = events@;
        match parse_block(&toks, i, n, limits, &mut events, &mut diags, Ghost(src@)) {
            Ok(next) => {
                proof {
                    assert(blocks_events(src@, toks@, i as int) == block_events(src@, toks@, i as int) + blocks_events(
                        src@,
                        toks@,
                        next as int,
                    ));
                    assert(events_before + blocks_events(src@, toks@, i as int) =~= events@ + blocks_events(src@, toks@, next as int));
                    assert(blocks_diags(toks@, i as int) == block_diags(toks@, i as int) + blocks_diags(toks@, next as int));
                    assert(before + blocks_diags(toks@, i as int) =~= diags@ + blocks_diags(toks@, next as int));
                    if no_invalid(toks@, 0, next as int) {
                        assert(no_invalid(toks@, 0, i as int));
                        assert(no_invalid(toks@, i as int, next as int));
                    }
                }
                i = next;
            },
            Err(_) => {
                return Err(ParseError::ResourceExceeded);
            },
        }
    }
    proof {
        lemma_offset_monotone(src@, toks@, i as int, toks@.len() as int);
    }
    let ghost open_events = events@;
    close_root(&mut events, Ghost(src@));
    proof {
        assert(events@ =~= document_events(src@, toks@));
        assert(diags@ =~= blocks_diags(toks@, 0));
    }
    Ok((SyntaxTree { events }, diags))
}

} // verus!
