use typst_ast::ast::{AstNode, Markup};
use typst_ast::lexer::{lex, TokenKind};
use typst_ast::parser::parse_tree;
use typst_ast::serializer::serialize;
use typst_ast::tree::{DiagnosticKind, Event, Limits, NodeKind, ParseError, Severity};
use typst_ast::{parse, parse_typst_to_ast, parse_with_limits};

fn serialized(s: &str) -> String {
    parse(s).unwrap().serialized
}

fn leaf_concat(s: &str) -> String {
    let chars: Vec<char> = s.chars().collect();
    let p = parse(s).unwrap();
    let mut out = String::new();
    for e in p.tree.events.iter() {
        if let Event::Leaf { start, end, .. } = e {
            out.extend(chars[*start..*end].iter());
        }
    }
    out
}

#[test]
fn empty_input_is_empty_markup() {
    let p = parse("").unwrap();
    assert_eq!(p.serialized, "Markup[]");
    assert!(p.diagnostics.is_empty());
    assert_eq!(p.tree.events.len(), 2);
}

#[test]
fn heading_scenario() {
    let p = parse("# Title").unwrap();
    assert_eq!(p.serialized, "Markup[Heading(level=1)[Text(\"Title\")]]");
    assert!(p.diagnostics.is_empty());
}

#[test]
fn emphasis_scenario() {
    let p = parse("*bold*").unwrap();
    assert_eq!(p.serialized, "Markup[Paragraph[Emphasis[Text(\"bold\")]]]");
    assert!(p.diagnostics.is_empty());
}

#[test]
fn unmatched_delimiter_is_text() {
    let p = parse("*unterminated").unwrap();
    assert_eq!(p.serialized, "Markup[Paragraph[Text(\"*unterminated\")]]");
    assert!(p.diagnostics.is_empty());
}

#[test]
fn nesting_beyond_limit_is_resource_exceeded() {
    let limits = Limits { max_tokens: 1000, max_depth: 4 };
    assert_eq!(parse_with_limits("*__**a**__*", limits).unwrap_err(), ParseError::ResourceExceeded);
    let roomy = Limits { max_tokens: 1000, max_depth: 7 };
    assert_eq!(
        parse_with_limits("*__**a**__*", roomy).unwrap().serialized,
        "Markup[Paragraph[Emphasis[Strong[Strong[Text(\"a\")]]]]]"
    );
}

#[test]
fn too_many_tokens_is_resource_exceeded() {
    let limits = Limits { max_tokens: 2, max_depth: 64 };
    assert_eq!(parse_with_limits("a b", limits).unwrap_err(), ParseError::ResourceExceeded);
    let limits = Limits { max_tokens: 3, max_depth: 64 };
    assert!(parse_with_limits("a b", limits).is_ok());
}

#[test]
fn zero_depth_rejects_even_empty_input() {
    let limits = Limits { max_tokens: 10, max_depth: 0 };
    assert_eq!(parse_with_limits("", limits).unwrap_err(), ParseError::ResourceExceeded);
}

#[test]
fn leaves_reconstruct_the_source() {
    for s in [
        "",
        "   ",
        "\n\n",
        "# Title\n- item *x* and **y**\n```\ncode\n```\ntext `c` _u_ __v__",
        "*a _b* c_ \u{1} ``` # - \r\n####### seven",
        "```\nopen block",
        "héllo wörld ✓",
    ] {
        assert_eq!(leaf_concat(s), s);
    }
}

#[test]
fn repeated_parses_are_identical() {
    let s = "# A\n*b* `c` d\n```\ne\n";
    assert_eq!(serialized(s), serialized(s));
    assert_eq!(parse(s).unwrap().tree.events, parse(s).unwrap().tree.events);
    assert_eq!(parse(s).unwrap().diagnostics, parse(s).unwrap().diagnostics);
}

#[test]
fn well_formed_input_has_no_diagnostics() {
    let s = "# Head\n\n- item *x* **y** _z_ __w__ `c`\n```\nraw *text*\n```\nplain";
    let p = parse(s).unwrap();
    assert!(p.diagnostics.is_empty());
}

#[test]
fn whitespace_only_input() {
    assert_eq!(serialized("   "), "Markup[Paragraph[Text(\"   \")]]");
    assert_eq!(serialized("\n"), "Markup[]");
}

#[test]
fn paragraphs_and_blank_lines() {
    assert_eq!(serialized("a\n\nb"), "Markup[Paragraph[Text(\"a\")]Paragraph[Text(\"b\")]]");
}

#[test]
fn list_item() {
    assert_eq!(serialized("- item"), "Markup[ListItem[Text(\"item\")]]");
    assert_eq!(serialized("-item"), "Markup[Paragraph[Text(\"-item\")]]");
}

#[test]
fn heading_levels() {
    assert_eq!(serialized("### Three"), "Markup[Heading(level=3)[Text(\"Three\")]]");
    assert_eq!(serialized("###### Six"), "Markup[Heading(level=6)[Text(\"Six\")]]");
    assert_eq!(serialized("####### x"), "Markup[Paragraph[Text(\"####### x\")]]");
    assert_eq!(serialized("#x"), "Markup[Paragraph[Text(\"#x\")]]");
}

#[test]
fn strong_and_nested_emphasis() {
    assert_eq!(serialized("**strong**"), "Markup[Paragraph[Strong[Text(\"strong\")]]]");
    assert_eq!(
        serialized("*a **b** c*"),
        "Markup[Paragraph[Emphasis[Text(\"a \")Strong[Text(\"b\")]Text(\" c\")]]]"
    );
    assert_eq!(serialized("_u_"), "Markup[Paragraph[Emphasis[Text(\"u\")]]]");
}

#[test]
fn code_span_is_raw() {
    assert_eq!(serialized("`code`"), "Markup[Paragraph[Code[Raw(\"code\")]]]");
    assert_eq!(serialized("``a*b*``"), "Markup[Paragraph[Code[Raw(\"a*b*\")]]]");
    assert_eq!(serialized("``"), "Markup[Paragraph[Text(\"``\")]]");
}

#[test]
fn closed_code_block() {
    let p = parse("```\nx\n```").unwrap();
    assert_eq!(p.serialized, "Markup[CodeBlock[Raw(\"\\nx\\n\")]]");
    assert!(p.diagnostics.is_empty());
}

#[test]
fn unterminated_code_block_is_reported() {
    let p = parse("text\n```\ncode").unwrap();
    assert_eq!(p.serialized, "Markup[Paragraph[Text(\"text\")]CodeBlock[Raw(\"\\ncode\")]]");
    assert_eq!(p.diagnostics.len(), 1);
    let d = p.diagnostics[0];
    assert_eq!(d.kind, DiagnosticKind::UnterminatedCodeBlock);
    assert_eq!(d.severity, Severity::Warning);
    assert_eq!((d.start, d.end), (5, 8));
    assert_eq!(d.message(), "unterminated code block");
}

#[test]
fn invalid_character_is_reported() {
    let p = parse("a\u{1}b").unwrap();
    assert_eq!(p.serialized, "Markup[Paragraph[Text(\"a\")Error(\"\u{1}\")Text(\"b\")]]");
    assert_eq!(p.diagnostics.len(), 1);
    let d = p.diagnostics[0];
    assert_eq!(d.kind, DiagnosticKind::InvalidCharacter);
    assert_eq!(d.severity, Severity::Error);
    assert_eq!((d.start, d.end), (1, 2));
    assert_eq!(d.message(), "invalid character");
}

#[test]
fn quotes_and_backslashes_are_escaped() {
    assert_eq!(serialized("say \"hi\" \\"), "Markup[Paragraph[Text(\"say \\\"hi\\\" \\\\\")]]");
}

#[test]
fn entry_point_returns_serialized_tree() {
    assert_eq!(parse_typst_to_ast("*bold*").unwrap(), "Markup[Paragraph[Emphasis[Text(\"bold\")]]]");
    assert_eq!(parse_typst_to_ast("").unwrap(), "Markup[]");
}

#[test]
fn lexer_merges_runs() {
    let src: Vec<char> = "**ab  \n\n".chars().collect();
    let toks = lex(&src);
    let kinds: Vec<TokenKind> = toks.iter().map(|t| t.kind).collect();
    assert_eq!(
        kinds,
        vec![TokenKind::Star, TokenKind::Text, TokenKind::Space, TokenKind::Newline, TokenKind::Newline]
    );
    assert_eq!((toks[0].start, toks[0].end), (0, 2));
    assert_eq!((toks[2].start, toks[2].end), (4, 6));
}

#[test]
fn typed_views() {
    let src: Vec<char> = "## Sub".chars().collect();
    let (tree, diags) = parse_tree(&src, Limits::default_limits()).unwrap();
    assert!(diags.is_empty());
    let root = Markup::from_untyped(&tree).unwrap();
    assert_eq!(root.node.kind(&tree), Some(NodeKind::Markup));
    assert_eq!(root.node.heading_level(&tree), Err(ParseError::ShapeMismatch));
    let heading = AstNode { index: 1 };
    assert_eq!(heading.kind(&tree), Some(NodeKind::Heading));
    assert_eq!(heading.heading_level(&tree), Ok(2));
    assert_eq!(AstNode::leaf_span(&tree, 2), Err(ParseError::ShapeMismatch));
    assert_eq!(AstNode::leaf_span(&tree, 4), Ok((3, 6)));
    assert_eq!(serialize(&tree, &src), "Markup[Heading(level=2)[Text(\"Sub\")]]");
    assert_eq!(root.node.children(&tree), Ok(vec![1]));
    assert_eq!(heading.children(&tree), Ok(vec![4]));
    assert_eq!(AstNode { index: 4 }.children(&tree), Err(ParseError::ShapeMismatch));
}

#[test]
fn children_skip_syntax_leaves() {
    let src: Vec<char> = "*bold* x\n- y".chars().collect();
    let (tree, _) = parse_tree(&src, Limits::default_limits()).unwrap();
    let root = Markup::from_untyped(&tree).unwrap();
    let blocks = root.node.children(&tree).unwrap();
    assert_eq!(blocks.len(), 2);
    assert_eq!(AstNode { index: blocks[0] }.kind(&tree), Some(NodeKind::Paragraph));
    assert_eq!(AstNode { index: blocks[1] }.kind(&tree), Some(NodeKind::ListItem));
    let inline = AstNode { index: blocks[0] }.children(&tree).unwrap();
    assert_eq!(inline, vec![2, 7]);
    assert_eq!(AstNode { index: 2 }.children(&tree), Ok(vec![4]));
    assert_eq!(AstNode::leaf_span(&tree, 7), Ok((6, 8)));
}

#[test]
fn shape_mismatch_at_root() {
    let src: Vec<char> = "x".chars().collect();
    let (mut tree, _) = parse_tree(&src, Limits::default_limits()).unwrap();
    tree.events[0] = Event::Open { node: NodeKind::Paragraph, level: 0 };
    assert_eq!(Markup::from_untyped(&tree), Err(ParseError::ShapeMismatch));
}

#[test]
fn invalid_character_inside_code_is_raw() {
    let p = parse("```\n\u{1}\n```").unwrap();
    assert_eq!(p.serialized, "Markup[CodeBlock[Raw(\"\\n\u{1}\\n\")]]");
    assert!(p.diagnostics.is_empty());
    let q = parse("`\u{1}`").unwrap();
    assert_eq!(q.serialized, "Markup[Paragraph[Code[Raw(\"\u{1}\")]]]");
    assert!(q.diagnostics.is_empty());
}

#[test]
fn delimiter_does_not_nest_in_itself() {
    assert_eq!(
        serialized("*a _b_ c*"),
        "Markup[Paragraph[Emphasis[Text(\"a \")Emphasis[Text(\"b\")]Text(\" c\")]]]"
    );
    assert_eq!(serialized("* *"), "Markup[Paragraph[Emphasis[Text(\" \")]]]");
}
