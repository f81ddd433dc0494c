use vstd::prelude::*;
use crate::tree::{Event, NodeKind, LeafKind, SyntaxTree, leaves_within};

verus! {

pub open spec fn escape_char(c: char) -> Seq<char> {
    if c == '"' {
        seq!['\\', '"']
    } else if c == '\\' {
        seq!['\\', '\\']
    } else if c == '\n' {
        seq!['\\', 'n']
    } else {
        seq![c]
    }
}

/// `s` with quotes, backslashes and line breaks escaped by a backslash.
pub open spec fn escaped(s: Seq<char>) -> Seq<char>
    decreases s.len(),
{
    if s.len() == 0 {
        Seq::empty()
    } else {
        escaped(s.drop_last()) + escape_char(s.last())
    }
}

pub open spec fn digit_char(d: u8) -> char {
    if d == 0 { '0' }
    else if d == 1 { '1' }
    else if d == 2 { '2' }
    else if d == 3 { '3' }
    else if d == 4 { '4' }
    else if d == 5 { '5' }
    else if d == 6 { '6' }
    else if d == 7 { '7' }
    else if d == 8 { '8' }
    else if d == 9 { '9' }
    else { '?' }
}

pub open spec fn node_name(node: NodeKind) -> Seq<char> {
    match node {
        NodeKind::Markup => "Markup"@,
        NodeKind::Heading => "Heading"@,
        NodeKind::Paragraph => "Paragraph"@,
        NodeKind::ListItem => "ListItem"@,
        NodeKind::CodeBlock => "CodeBlock"@,
        NodeKind::Emphasis => "Emphasis"@,
        NodeKind::Strong => "Strong"@,
        NodeKind::Code => "Code"@,
    }
}

/// The name under which a leaf shows, for the leaves that carry content.
pub open spec fn leaf_name(kind: LeafKind) -> Seq<char> {
    match kind {
        LeafKind::Text => "Text"@,
        LeafKind::Raw => "Raw"@,
        LeafKind::Error => "Error"@,
        _ => Seq::empty(),
    }
}

pub open spec fn is_content_leaf(kind: LeafKind) -> bool {
    kind == LeafKind::Text || kind == LeafKind::Raw || kind == LeafKind::Error
}

/// How one event shows in the serialized form: `Name[` opens a node (a
/// heading shows its level, `Heading(level=1)[`), `]` closes it, and a
/// content leaf shows as `Name("text")`. Markers, spaces and line breaks
/// do not show.
pub open spec fn event_rendering(e: Event, src: Seq<char>) -> Seq<char> {
    match e {
        Event::Open { node, level } => if node == NodeKind::Heading {
            "Heading(level="@ + seq![digit_char(level)] + ")["@
        } else {
            node_name(node) + "["@
        },
        Event::Close => "]"@,
        Event::Leaf { kind, start, end } => if is_content_leaf(kind) {
            leaf_name(kind) + "(\""@ + escaped(src.subrange(start as int, end as int)) + "\")"@
        } else {
            Seq::empty()
        },
    }
}

/// The serialized form of a tree: the renderings of its events in order.
pub open spec fn rendering(events: Seq<Event>, src: Seq<char>) -> Seq<char>
    decreases events.len(),
{
    if events.len() == 0 {
        Seq::empty()
    } else {
        rendering(events.drop_last(), src) + event_rendering(events.last(), src)
    }
}

/// Relies on std's `FromIterator<char>` for `String`: collecting characters
/// yields the string of those characters in order.
#[verifier::external_body]
fn string_of(chars: &Vec<char>) -> (s: String)
    ensures
        s@ == chars@,
{
    chars.iter().collect()
}

fn push_str(out: &mut Vec<char>, s: &str)
    ensures
        final(out)@ == old(out)@ + s@,
{
    let len = s.unicode_len();
    let mut i: usize = 0;
    while i < len
        invariant
            len == s@.len(),
            i <= len,
            out@ == old(out)@ + s@.subrange(0, i as int),
        decreases len - i,
    {
        out.push(s.get_char(i));
        i = i + 1;
        assert(s@.subrange(0, i as int) =~= s@.subrange(0, i - 1) + seq![s@[i - 1]]);
    }
    assert(s@.subrange(0, len as int) =~= s@);
}

fn digit(d: u8) -> (c: char)
    ensures
        c == digit_char(d),
{
    if d == 0 { '0' }
    else if d == 1 { '1' }
    else if d == 2 { '2' }
    else if d == 3 { '3' }
    else if d == 4 { '4' }
    else if d == 5 { '5' }
    else if d == 6 { '6' }
    else if d == 7 { '7' }
    else if d == 8 { '8' }
    else if d == 9 { '9' }
    else { '?' }
}

fn node_label(node: NodeKind) -> (r: &'static str)
    ensures
        r@ == node_name(node),
{
    match node {
        NodeKind::Markup => "Markup",
        NodeKind::Heading => "Heading",
        NodeKind::Paragraph => "Paragraph",
        NodeKind::ListItem => "ListItem",
        NodeKind::CodeBlock => "CodeBlock",
        NodeKind::Emphasis => "Emphasis",
        NodeKind::Strong => "Strong",
        NodeKind::Code => "Code",
    }
}

fn leaf_label(kind: LeafKind) -> (r: &'static str)
    requires
        is_content_leaf(kind),
    ensures
        r@ == leaf_name(kind),
{
    match kind {
        LeafKind::Text => "Text",
        LeafKind::Raw => "Raw",
        _ => "Error",
    }
}

/// Appends the escaped form of `src[start..end]`.
fn push_escaped(out: &mut Vec<char>, src: &Vec<char>, start: usize, end: usize)
    requires
        start <= end <= src@.len(),
    ensures
        final(out)@ == old(out)@ + escaped(src@.subrange(start as int, end as int)),
{
    let mut k = start;
    proof {
        assert(src@.subrange(start as int, start as int) =~= Seq::<char>::empty());
    }
    while k < end
        invariant
            start <= k <= end <= src@.len(),
            out@ == old(out)@ + escaped(src@.subrange(start as int, k as int)),
        decreases end - k,
    {
        let c = src[k];
        let ghost before = out@;
        if c == '"' {
            out.push('\\');
            out.push('"');
        } else if c == '\\' {
            out.push('\\');
            out.push('\\');
        } else if c == '\n' {
            out.push('\\');
            out.push('n');
        } else {
            out.push(c);
        }
        proof {
            let s = src@.subrange(start as int, k + 1);
            assert(s.drop_last() =~= src@.subrange(start as int, k as int));
            assert(s.last() == c);
            assert(out@ =~= before + escape_char(c));
        }
        k = k + 1;
    }
}

fn render_event(out: &mut Vec<char>, e: Event, src: &Vec<char>)
    requires
        e matches Event::Leaf { start, end, .. } ==> start <= end <= src@.len(),
    ensures
        final(out)@ == old(out)@ + event_rendering(e, src@),
{
    match e {
        Event::Open { node, level } => {
            if node == NodeKind::Heading {
                push_str(out, "Heading(level=");
                let ghost mid = out@;
                out.push(digit(level));
                proof {
                    assert(out@ =~= mid + seq![digit_char(level)]);
                }
                push_str(out, ")[");
            } else {
                push_str(out, node_label(node));
                push_str(out, "[");
            }
        },
        Event::Close => {
            push_str(out, "]");
        },
        Event::Leaf { kind, start, end } => {
            if kind == LeafKind::Text || kind == LeafKind::Raw || kind == LeafKind::Error {
                push_str(out, leaf_label(kind));
                push_str(out, "(\"");
                push_escaped(out, src, start, end);
                push_str(out, "\")");
            } else {
                proof {
                    assert(out@ =~= old(out)@ + event_rendering(e, src@));
                }
            }
        },
    }
    proof {
        assert(final(out)@ =~= old(out)@ + event_rendering(e, src@));
    }
}

/// Renders a tree over its source into its serialized form. The result is
/// a function of the tree and the source alone.
pub fn serialize(tree: &SyntaxTree, src: &Vec<char>) -> (r: String)
    requires
        leaves_within(tree.events@, src@.len() as int),
    ensures
        r@ == rendering(tree.events@, src@),
{
    let mut out: Vec<char> = Vec::new();
    let mut i: usize = 0;
    while i < tree.events.len()
        invariant
            i <= tree.events@.len(),
            leaves_within(tree.events@, src@.len() as int),
            out@ == rendering(tree.events@.subrange(0, i as int), src@),
        decreases tree.events@.len() - i,
    {
        let e = tree.events[i];
        proof {
            assert(tree.events@[i as int] == e);
        }
        render_event(&mut out, e, src);
        proof {
            let p = tree.events@.subrange(0, i + 1);
            assert(p.drop_last() =~= tree.events@.subrange(0, i as int));
        }
        i = i + 1;
    }
    proof {
        assert(tree.events@.subrange(0, i as int) =~= tree.events@);
    }
    string_of(&out)
}

} // verus!
