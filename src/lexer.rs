use vstd::prelude::*;

verus! {

/// The closed set of token kinds. Runs of one kind form a single token,
/// except for line breaks and invalid characters, which stand alone.
#[derive(Clone, Copy, Debug, PartialEq, Eq, Structural)]
pub enum TokenKind {
    Text,
    Space,
    Newline,
    Star,
    Underscore,
    Backtick,
    Hash,
    Dash,
    Invalid,
}

/// A token: its kind and the half-open span `[start, end)` of characters it covers.
#[derive(Clone, Copy, Debug, PartialEq, Eq, Structural)]
pub struct Token {
    pub kind: TokenKind,
    pub start: usize,
    pub end: usize,
}

/// Control characters other than tab, line feed and carriage return are not
/// accepted in a document.
pub open spec fn is_invalid_char(c: char) -> bool {
    (c as u32) < 32 && c != '\t' && c != '\n' && c != '\r' || (c as u32) == 127
}

pub open spec fn class_of(c: char) -> TokenKind {
    if c == '*' {
        TokenKind::Star
    } else if c == '_' {
        TokenKind::Underscore
    } else if c == '`' {
        TokenKind::Backtick
    } else if c == '#' {
        TokenKind::Hash
    } else if c == '-' {
        TokenKind::Dash
    } else if c == ' ' || c == '\t' || c == '\r' {
        TokenKind::Space
    } else if c == '\n' {
        TokenKind::Newline
    } else if is_invalid_char(c) {
        TokenKind::Invalid
    } else {
        TokenKind::Text
    }
}

/// Whether consecutive characters of this kind merge into one token.
pub open spec fn is_run_kind(k: TokenKind) -> bool {
    k != TokenKind::Newline && k != TokenKind::Invalid
}

/// `t` is the token that the lexer produces at `t.start`: it takes the class
/// of its first character, and a run kind extends as far as that class goes.
pub open spec fn token_at(src: Seq<char>, t: Token) -> bool {
    &&& t.start < t.end <= src.len()
    &&& t.kind == class_of(src[t.start as int])
    &&& forall|i: int| t.start <= i < t.end ==> class_of(#[trigger] src[i]) == t.kind
    &&& if is_run_kind(t.kind) {
        t.end == src.len() || class_of(src[t.end as int]) != t.kind
    } else {
        t.end == t.start + 1
    }
}

/// `toks` tokenizes `src` completely: the tokens are produced in order and
/// their spans tile `[0, src.len())`.
#[verifier::opaque]
pub open spec fn tokenizes(src: Seq<char>, toks: Seq<Token>) -> bool {
    &&& forall|i: int| 0 <= i < toks.len() ==> token_at(src, #[trigger] toks[i])
    &&& forall|i: int| 0 < i < toks.len() ==> (#[trigger] toks[i]).start == toks[i - 1].end
    &&& toks.len() == 0 ==> src.len() == 0
    &&& toks.len() > 0 ==> toks[0].start == 0 && toks[toks.len() - 1].end == src.len()
}

proof fn lemma_token_unique(src: Seq<char>, a: Token, b: Token)
    requires
        token_at(src, a),
        token_at(src, b),
        a.start == b.start,
    ensures
        a == b,
{
    if is_run_kind(a.kind) {
        if a.end < b.end {
            assert(class_of(src[a.end as int]) == b.kind);
        }
        if b.end < a.end {
            assert(class_of(src[b.end as int]) == a.kind);
        }
    }
}

proof fn lemma_same_prefix(src: Seq<char>, t1: Seq<Token>, t2: Seq<Token>, m: int)
    requires
        tokenizes(src, t1),
        tokenizes(src, t2),
        0 <= m < t1.len(),
        m < t2.len(),
    ensures
        t1[m] == t2[m],
    decreases m,
{
    reveal(tokenizes);
    if m > 0 {
        lemma_same_prefix(src, t1, t2, m - 1);
    }
    lemma_token_unique(src, t1[m], t2[m]);
}

proof fn lemma_not_shorter(src: Seq<char>, t1: Seq<Token>, t2: Seq<Token>)
    requires
        tokenizes(src, t1),
        tokenizes(src, t2),
    ensures
        t1.len() >= t2.len(),
{
    reveal(tokenizes);
    if t1.len() < t2.len() {
        if t1.len() == 0 {
            assert(token_at(src, t2[0]));
        } else {
            let m = t1.len() - 1;
            lemma_same_prefix(src, t1, t2, m);
            assert(token_at(src, t2[m + 1]));
        }
    }
}

/// A source has one tokenization only.
pub proof fn lemma_tokenization_unique(src: Seq<char>, t1: Seq<Token>, t2: Seq<Token>)
    requires
        tokenizes(src, t1),
        tokenizes(src, t2),
    ensures
        t1 == t2,
{
    lemma_not_shorter(src, t1, t2);
    lemma_not_shorter(src, t2, t1);
    assert forall|m: int| 0 <= m < t1.len() implies t1[m] == t2[m] by {
        lemma_same_prefix(src, t1, t2, m);
    }
    assert(t1 =~= t2);
}

/// The tokens of a source.
pub open spec fn tokens_of(src: Seq<char>) -> Seq<Token> {
    choose|toks: Seq<Token>| tokenizes(src, toks)
}

pub fn classify(c: char) -> (k: TokenKind)
    ensures
        k == class_of(c),
{
    if c == '*' {
        TokenKind::Star
    } else if c == '_' {
        TokenKind::Underscore
    } else if c == '`' {
        TokenKind::Backtick
    } else if c == '#' {
        TokenKind::Hash
    } else if c == '-' {
        TokenKind::Dash
    } else if c == ' ' || c == '\t' || c == '\r' {
        TokenKind::Space
    } else if c == '\n' {
        TokenKind::Newline
    } else if (c as u32) < 32 || (c as u32) == 127 {
        TokenKind::Invalid
    } else {
        TokenKind::Text
    }
}

/// Produces the token that starts at `pos`.
pub fn next_token(src: &Vec<char>, pos: usize) -> (t: Token)
    requires
        pos < src@.len(),
    ensures
        t.start == pos,
        token_at(src@, t),
{
    let n = src.len();
    let kind = classify(src[pos]);
    let mut end: usize = pos + 1;
    if kind != TokenKind::Newline && kind != TokenKind::Invalid {
        while end < src.len() && classify(src[end]) == kind
            invariant
                pos < end <= src@.len(),
                kind == class_of(src@[pos as int]),
                forall|i: int| pos <= i < end ==> class_of(#[trigger] src@[i]) == kind,
            decreases src@.len() - end,
        {
            end = end + 1;
        }
    }
    Token { kind, start: pos, end }
}

/// Tokenizes the whole of `src`.
pub fn lex(src: &Vec<char>) -> (toks: Vec<Token>)
    ensures
        tokenizes(src@, toks@),
        toks@ == tokens_of(src@),
        toks@.len() <= src@.len(),
{
    let mut toks: Vec<Token> = Vec::new();
    let mut pos: usize = 0;
    while pos < src.len()
        invariant
            pos <= src@.len(),
            toks@.len() <= pos,
            forall|i: int| 0 <= i < toks@.len() ==> token_at(src@, #[trigger] toks@[i]),
            forall|i: int| 0 < i < toks@.len() ==> (#[trigger] toks@[i]).start == toks@[i - 1].end,
            toks@.len() == 0 ==> pos == 0,
            toks@.len() > 0 ==> toks@[0].start == 0 && toks@[toks@.len() - 1].end == pos,
        decreases src@.len() - pos,
    {
        let t = next_token(src, pos);
        toks.push(t);
        pos = t.end;
    }
    proof {
        reveal(tokenizes);
        assert(tokenizes(src@, toks@));
        let chosen = tokens_of(src@);
        assert(tokenizes(src@, chosen));
        lemma_tokenization_unique(src@, toks@, chosen);
    }
    toks
}

} // verus!
