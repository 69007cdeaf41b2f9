use std::collections::VecDeque;

use uimarkup::consume_ast;
use uimarkup::dom_create::{Dom, DomNodeType, ImageId, ImageRegistry, ResourceError, TextId, create_dom};
use uimarkup::parse::{ASTPoint, BracketError, NType, Node, SyntaxError, ValidationError, ParseError,
    check_brackets, check_syntax_lightly, parse};
use uimarkup::resources::{FontId, FontRegistry, resolve_text_arguments};
use uimarkup::tokenize::{LexError, Token, tokenize};

fn lex(source: &str) -> VecDeque<Token> {
    VecDeque::from(tokenize(source).unwrap())
}

fn parse_doc(source: &str) -> (Vec<uimarkup::parse::TextArgument>, ASTPoint) {
    let mut toks = lex(source);
    parse(&mut toks).unwrap()
}

fn empty_registry() -> ImageRegistry {
    ImageRegistry { entries: Vec::new() }
}

#[test]
fn lexes_punctuation_and_keywords() {
    assert_eq!(
        tokenize("div;label(\"a\")[]").unwrap(),
        vec![
            Token::Div,
            Token::Semicolon,
            Token::Label,
            Token::OpenParen,
            Token::Str("a".to_string()),
            Token::CloseParen,
            Token::OpenBracket,
            Token::CloseBracket,
        ]
    );
}

#[test]
fn lexes_identifiers_and_numbers() {
    assert_eq!(
        tokenize("div :my-id_9 ; 42").unwrap(),
        vec![
            Token::Div,
            Token::Id("my-id_9".to_string()),
            Token::Semicolon,
            Token::Num(42),
        ]
    );
    assert_eq!(tokenize(": ").unwrap(), vec![Token::Id(String::new())]);
}

#[test]
fn lexes_comments_and_whitespace() {
    assert_eq!(
        tokenize(" { a comment } div ; { another } ").unwrap(),
        vec![Token::Div, Token::Semicolon]
    );
    assert_eq!(tokenize("{ never closed"), Err(LexError::UnclosedComment));
}

#[test]
fn lexes_string_escapes() {
    assert_eq!(
        tokenize("\"a\\tb\\nc\\\\d\\\"e\"").unwrap(),
        vec![Token::Str("a\tb\nc\\d\"e".to_string())]
    );
    assert_eq!(tokenize("\"bad \\q\""), Err(LexError::InvalidEscape('q')));
    assert_eq!(tokenize("\"no end"), Err(LexError::UnclosedString));
}

#[test]
fn end_of_input_is_a_keyword_boundary() {
    assert_eq!(tokenize("div").unwrap(), vec![Token::Div]);
    assert_eq!(tokenize("text").unwrap(), vec![Token::Text]);
    assert_eq!(tokenize("12").unwrap(), vec![Token::Num(12)]);
}

#[test]
fn whitespace_may_follow_the_identifier_colon() {
    assert_eq!(
        tokenize("div :  boxed ;").unwrap(),
        vec![Token::Div, Token::Id("boxed".to_string()), Token::Semicolon]
    );
}

#[test]
fn rejects_unexpected_characters() {
    assert_eq!(tokenize("div , div"), Err(LexError::UnexpectedChar(',')));
    assert_eq!(tokenize("%"), Err(LexError::UnexpectedChar('%')));
}

#[test]
fn rejects_oversized_numbers() {
    assert_eq!(
        tokenize("99999999999999999999999999999"),
        Err(LexError::NumberOverflow)
    );
}

#[test]
fn keyword_boundary() {
    // `divx` must never lex as the keyword followed by garbage.
    assert_eq!(tokenize("divx;"), Err(LexError::UnexpectedChar('d')));
    assert_eq!(tokenize("division"), Err(LexError::UnexpectedChar('d')));
    // `div;` alone parses as a leaf container.
    let (args, ast) = parse_doc("div;");
    assert!(args.is_empty());
    assert_eq!(ast, ASTPoint::Element(Node(NType::Div, None)));
}

#[test]
fn bracket_errors() {
    assert_eq!(
        check_brackets(&lex("div[div;];]")),
        Err(BracketError::UnopenedSquare)
    );
    assert_eq!(
        check_brackets(&lex("label(\"a\"));")),
        Err(BracketError::UnopenedParen)
    );
    assert_eq!(check_brackets(&lex("div[div;")), Err(BracketError::Unclosed));
    assert_eq!(
        check_brackets(&VecDeque::from(vec![Token::OpenBracket, Token::CloseParen])),
        Err(BracketError::MismatchedParen)
    );
    assert_eq!(
        check_brackets(&VecDeque::from(vec![Token::OpenParen, Token::CloseBracket])),
        Err(BracketError::MismatchedSquare)
    );
    assert_eq!(check_brackets(&lex("div[label(\"a\");];")), Ok(()));
}

#[test]
fn bracket_failure_never_reaches_parser() {
    // An extra `]`, an extra `)`, and an unclosed opener each fail with a
    // bracket error from the whole pipeline.
    for src in ["div[div;];]", "label(\"a\"));", "div[div;"] {
        let mut toks = lex(src);
        match parse(&mut toks) {
            Err(SyntaxError::Bracket(_)) => {}
            other => panic!("expected a bracket error for {:?}, got {:?}", src, other),
        }
    }
}

#[test]
fn adjacency_violations() {
    // A string followed by an opener is improper text syntax.
    assert_eq!(
        check_syntax_lightly(&VecDeque::from(vec![
            Token::Str("a".to_string()),
            Token::OpenBracket
        ])),
        Err(ValidationError::ImproperTextSyntax)
    );
    // A number must be preceded by two strings.
    assert_eq!(
        check_syntax_lightly(&VecDeque::from(vec![Token::Num(3), Token::Semicolon])),
        Err(ValidationError::NumberContext)
    );
    // An identifier may only be followed by `;`, `(` or `[`.
    assert_eq!(
        check_syntax_lightly(&VecDeque::from(vec![
            Token::Id("x".to_string()),
            Token::CloseParen
        ])),
        Err(ValidationError::AfterIdentifier)
    );
    // A keyword cannot follow another keyword directly.
    assert_eq!(
        check_syntax_lightly(&VecDeque::from(vec![Token::Div, Token::CloseParen])),
        Err(ValidationError::DisallowedPair)
    );
    assert_eq!(check_syntax_lightly(&lex("div[text(\"a\");];")), Ok(()));
}

#[test]
fn parses_round_trip_example() {
    let (args, ast) = parse_doc("div[label(\"Hi\");];");
    assert!(args.is_empty());
    assert_eq!(
        ast,
        ASTPoint::Joint(
            Node(NType::Div, None),
            vec![ASTPoint::Element(Node(NType::Label("Hi".to_string()), None))]
        )
    );
    // With no text nodes, an empty handle queue materializes a container
    // holding one label child.
    let mut queue: VecDeque<TextId> = VecDeque::new();
    let dom = create_dom(&ast, &mut queue, &empty_registry()).unwrap();
    assert_eq!(dom.node_type, DomNodeType::Div);
    assert_eq!(dom.children.len(), 1);
    assert_eq!(
        dom.children[0].node_type,
        DomNodeType::Label("Hi".to_string())
    );
    assert!(dom.children[0].children.is_empty());
}

#[test]
fn parses_identifiers_on_nodes() {
    let (args, ast) = parse_doc("div:root[label:greeting(\"Hi\");];");
    assert!(args.is_empty());
    assert_eq!(
        ast,
        ASTPoint::Joint(
            Node(NType::Div, Some("root".to_string())),
            vec![ASTPoint::Element(Node(
                NType::Label("Hi".to_string()),
                Some("greeting".to_string())
            ))]
        )
    );
}

#[test]
fn text_argument_ordering() {
    // The grammar separates a text node's arguments with whitespace.
    let (args, ast) = parse_doc("div[text(\"A\");text(\"B\" \"sans\" 12);];");
    assert_eq!(args.len(), 2);
    assert_eq!(args[0].body, "A");
    assert_eq!(args[0].font, None);
    assert_eq!(args[0].size, None);
    assert_eq!(args[1].body, "B");
    assert_eq!(args[1].font, Some("sans".to_string()));
    assert_eq!(args[1].size, Some(12));
    // Materializing with handles H1, H2 attaches them in document order.
    let mut queue = VecDeque::from(vec![TextId(1), TextId(2)]);
    let dom = create_dom(&ast, &mut queue, &empty_registry()).unwrap();
    assert_eq!(dom.children[0].node_type, DomNodeType::Text(TextId(1)));
    assert_eq!(dom.children[1].node_type, DomNodeType::Text(TextId(2)));
    assert!(queue.is_empty());
}

#[test]
fn comma_separated_text_arguments_are_rejected() {
    // The lexical grammar has no comma token.
    assert_eq!(
        tokenize("div[text(\"A\");text(\"B\",\"sans\",12);];"),
        Err(LexError::UnexpectedChar(','))
    );
}

#[test]
fn text_count_matches_handles_consumed() {
    let (args, ast) = parse_doc("div[text(\"a\");div[text(\"b\" \"f\");]text(\"c\");];");
    // One argument per text node, in document order.
    assert_eq!(args.len(), 3);
    let queue = VecDeque::from(vec![TextId(7), TextId(8), TextId(9)]);
    let dom = consume_ast(&ast, &queue, &empty_registry()).unwrap();
    assert_eq!(count_texts(&dom), args.len());
}

fn count_texts(d: &Dom) -> usize {
    let own = match d.node_type {
        DomNodeType::Text(_) => 1,
        _ => 0,
    };
    let mut total = own;
    for child in &d.children {
        total += count_texts(child);
    }
    total
}

#[test]
fn materialization_is_repeatable() {
    let (_, ast) = parse_doc("div[text(\"a\");label(\"b\");];");
    let q1 = VecDeque::from(vec![TextId(5)]);
    let q2 = VecDeque::from(vec![TextId(5)]);
    let d1 = consume_ast(&ast, &q1, &empty_registry()).unwrap();
    let d2 = consume_ast(&ast, &q2, &empty_registry()).unwrap();
    assert_eq!(d1, d2);
    // The borrowed queue is left intact, so the same queue can be reused.
    let d3 = consume_ast(&ast, &q1, &empty_registry()).unwrap();
    assert_eq!(d1, d3);
}

#[test]
fn unknown_image_fails_whole_materialization() {
    let (_, ast) = parse_doc("div[image(\"icon\");div;];");
    let mut queue: VecDeque<TextId> = VecDeque::new();
    assert_eq!(
        create_dom(&ast, &mut queue, &empty_registry()),
        Err(ResourceError::UnknownImage)
    );
}

#[test]
fn known_image_resolves() {
    let (_, ast) = parse_doc("image(\"icon\");");
    let registry = ImageRegistry {
        entries: vec![("icon".to_string(), ImageId(3))],
    };
    let mut queue: VecDeque<TextId> = VecDeque::new();
    let dom = create_dom(&ast, &mut queue, &registry).unwrap();
    assert_eq!(dom.node_type, DomNodeType::Image(ImageId(3)));
}

#[test]
fn exhausted_text_handles_fail() {
    let (_, ast) = parse_doc("text(\"a\");");
    let mut queue: VecDeque<TextId> = VecDeque::new();
    assert_eq!(
        create_dom(&ast, &mut queue, &empty_registry()),
        Err(ResourceError::ExhaustedTextHandles)
    );
}

#[test]
fn label_with_child_but_no_argument_fails_before_materialization() {
    let mut toks = lex("label[div;];");
    match parse(&mut toks) {
        Err(SyntaxError::Validation(_)) => {}
        other => panic!("expected a validation failure, got {:?}", other),
    }
}

#[test]
fn parse_errors() {
    // A lone keyword ends before its tail.
    let mut toks = lex("div");
    assert_eq!(
        parse(&mut toks),
        Err(SyntaxError::Parse(ParseError::UnexpectedEnd))
    );
    // A node head followed by something other than `;` or `[`.
    let mut toks = lex("div:id(\"a\");");
    assert_eq!(
        parse(&mut toks),
        Err(SyntaxError::Parse(ParseError::UnexpectedToken))
    );
    // A third string inside a text argument group.
    let mut toks = lex("text(\"a\" \"b\" \"c\");");
    assert_eq!(
        parse(&mut toks),
        Err(SyntaxError::Parse(ParseError::BadTextArgument))
    );
}

#[test]
fn trailing_tokens_stay_in_the_deque() {
    let mut toks = lex("div;label(\"x\");");
    let (_, ast) = parse(&mut toks).unwrap();
    assert_eq!(ast, ASTPoint::Element(Node(NType::Div, None)));
    assert_eq!(toks.len(), 5);
}

#[test]
fn resolves_text_arguments() {
    let (args, _) = parse_doc("div[text(\"a\");text(\"b\" \"serif\");text(\"c\" \"serif\" 14);];");
    let fonts = FontRegistry {
        entries: vec![("serif".to_string(), FontId(2))],
        default_font: FontId(1),
    };
    let resolved = resolve_text_arguments(&VecDeque::from(args), &fonts).unwrap();
    assert_eq!(resolved.len(), 3);
    assert_eq!(resolved[0].body, "a");
    assert_eq!(resolved[0].font, FontId(1));
    assert_eq!(resolved[0].size, 10);
    assert_eq!(resolved[1].font, FontId(2));
    assert_eq!(resolved[1].size, 10);
    assert_eq!(resolved[2].font, FontId(2));
    assert_eq!(resolved[2].size, 14);
}

#[test]
fn unknown_font_fails_resolution() {
    let (args, _) = parse_doc("text(\"a\" \"nope\");");
    let fonts = FontRegistry {
        entries: Vec::new(),
        default_font: FontId(1),
    };
    assert_eq!(
        resolve_text_arguments(&VecDeque::from(args), &fonts),
        Err(ResourceError::UnknownFont)
    );
}
