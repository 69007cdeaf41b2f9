//! Pre-parse validation and recursive-descent parsing.
//!
//! Two independent passes run over the token sequence before structural
//! parsing: a bracket-balance check and a bigram adjacency check.  The parser
//! then consumes the tokens front-to-back, producing one top-level tree plus
//! the ordered side-list of text-literal arguments, one entry per `text` node
//! in document order.

use vstd::prelude::*;
use crate::tokenize::{Token, TokenModel, models};
use std::collections::VecDeque;

verus! {

/// The kind of a parsed node.  `Label` and `Image` carry their literal
/// argument; a `Text` node's argument lives out-of-band in the ordered
/// [`TextArgument`] list.
#[derive(Debug, Clone, PartialEq, Eq)]
pub enum NType {
    Div,
    Label(String),
    Image(String),
    Text,
}

/// A parsed-but-unresolved text literal: body, optional font name, and
/// optional pixel size.
#[derive(Debug, Clone, PartialEq, Eq)]
pub struct TextArgument {
    pub body: String,
    pub font: Option<String>,
    pub size: Option<usize>,
}

/// A node's kind together with its optional identifier annotation.
#[derive(Debug, Clone, PartialEq, Eq)]
pub struct Node(pub NType, pub Option<String>);

/// The abstract syntax tree: a leaf, or a node with one-or-more ordered
/// children.
#[derive(Debug, PartialEq, Eq)]
pub enum ASTPoint {
    Element(Node),
    Joint(Node, Vec<ASTPoint>),
}

/// Mathematical model of [`NType`].
pub enum NTypeModel {
    Div,
    Label(Seq<char>),
    Image(Seq<char>),
    Text,
}

/// Mathematical model of [`Node`].
pub struct NodeModel {
    pub kind: NTypeModel,
    pub id: Option<Seq<char>>,
}

/// Mathematical model of [`ASTPoint`].
pub enum AstModel {
    Element(NodeModel),
    Joint(NodeModel, Seq<AstModel>),
}

/// Mathematical model of [`TextArgument`].
pub struct TextArgModel {
    pub body: Seq<char>,
    pub font: Option<Seq<char>>,
    pub size: Option<nat>,
}

impl View for NType {
    type V = NTypeModel;

    open spec fn view(&self) -> NTypeModel {
        match self {
            NType::Div => NTypeModel::Div,
            NType::Label(s) => NTypeModel::Label(s@),
            NType::Image(s) => NTypeModel::Image(s@),
            NType::Text => NTypeModel::Text,
        }
    }
}

/// The model of an optional identifier string.
pub open spec fn opt_view(o: Option<String>) -> Option<Seq<char>> {
    match o {
        Some(s) => Some(s@),
        None => None,
    }
}

impl View for Node {
    type V = NodeModel;

    open spec fn view(&self) -> NodeModel {
        NodeModel { kind: self.0@, id: opt_view(self.1) }
    }
}

impl View for TextArgument {
    type V = TextArgModel;

    open spec fn view(&self) -> TextArgModel {
        TextArgModel {
            body: self.body@,
            font: opt_view(self.font),
            size: match self.size {
                Some(n) => Some(n as nat),
                None => None,
            },
        }
    }
}

/// Mathematical model of an [`ASTPoint`] tree.
pub open spec fn ast_view(a: ASTPoint) -> AstModel
    decreases a, 1int,
{
    match a {
        ASTPoint::Element(n) => AstModel::Element(n@),
        ASTPoint::Joint(n, ch) => AstModel::Joint(n@, asts_view(ch@)),
    }
}

/// Models of a sequence of trees, in order.
pub open spec fn asts_view(s: Seq<ASTPoint>) -> Seq<AstModel>
    decreases s, 0int,
    via asts_view_dec
{
    if s.len() == 0 {
        Seq::empty()
    } else {
        seq![ast_view(s.first())] + asts_view(s.drop_first())
    }
}

#[via_fn]
proof fn asts_view_dec(s: Seq<ASTPoint>) {
    if s.len() != 0 {
        vstd::seq::axiom_seq_subrange_decreases(s, 1, s.len() as int);
        assert(s.drop_first() == s.subrange(1, s.len() as int));
    }
}

/// The model of a text-argument sequence.
pub open spec fn arg_models(s: Seq<TextArgument>) -> Seq<TextArgModel> {
    s.map_values(|a: TextArgument| a@)
}

impl TextArgument {
    /// Bundles a text literal's pieces into one record.
    pub fn create(contents: String, font: Option<String>, size: Option<usize>) -> (r: TextArgument)
        ensures
            r.body == contents,
            r.font == font,
            r.size == size,
    {
        TextArgument { body: contents, font: font, size: size }
    }
}

/// A mismatched or unclosed delimiter.
#[derive(Debug, Clone, Copy, PartialEq, Eq)]
pub enum BracketError {
    /// A `)` with no parenthesis open.
    UnopenedParen,
    /// A `]` with no square bracket open.
    UnopenedSquare,
    /// A `)` closing an open square bracket.
    MismatchedParen,
    /// A `]` closing an open parenthesis.
    MismatchedSquare,
    /// Openers left unconsumed at the end of input.
    Unclosed,
}

/// An adjacency violation found by the bigram pre-parse check.
#[derive(Debug, Clone, Copy, PartialEq, Eq)]
pub enum ValidationError {
    /// A string literal followed by something other than a string, number or `)`.
    ImproperTextSyntax,
    /// A number not preceded by two string literals.
    NumberContext,
    /// An identifier followed by something other than `;`, `(` or `[`.
    AfterIdentifier,
    /// A pair of adjacent tokens the successor table forbids.
    DisallowedPair,
}

/// A structural error found during recursive-descent parsing.
#[derive(Debug, Clone, Copy, PartialEq, Eq)]
pub enum ParseError {
    /// Input ended where a token was required.
    UnexpectedEnd,
    /// A token that cannot stand at this point of the grammar.
    UnexpectedToken,
    /// A node kind that requires a parenthesized argument lacked `(`.
    ExpectedOpenParen,
    /// A parenthesized argument lacked its string literal.
    ExpectedString,
    /// A parenthesized argument lacked its closing `)`.
    ExpectedCloseParen,
    /// A malformed token after a text node's font argument.
    BadTextArgument,
    /// A `[` immediately followed by `]`: children were promised but missing.
    EmptyJoint,
}

/// Any way a document can fail between tokenization and the finished tree.
#[derive(Debug, Clone, Copy, PartialEq, Eq)]
pub enum SyntaxError {
    Bracket(BracketError),
    Validation(ValidationError),
    Parse(ParseError),
}

/// One kind of open delimiter on the bracket matcher's stack.
#[derive(Debug, Clone, Copy, PartialEq, Eq, Structural)]
pub enum BracketKind {
    Paren,
    Square,
}

/// How one token transforms the bracket matcher's stack.
pub open spec fn bracket_step(
    st: Result<Seq<BracketKind>, BracketError>,
    t: TokenModel,
) -> Result<Seq<BracketKind>, BracketError> {
    match st {
        Err(e) => Err(e),
        Ok(stack) => match t {
            TokenModel::OpenParen => Ok(stack.push(BracketKind::Paren)),
            TokenModel::OpenBracket => Ok(stack.push(BracketKind::Square)),
            TokenModel::CloseParen => if stack.len() == 0 {
                Err(BracketError::UnopenedParen)
            } else if stack.last() == BracketKind::Paren {
                Ok(stack.drop_last())
            } else {
                Err(BracketError::MismatchedParen)
            },
            TokenModel::CloseBracket => if stack.len() == 0 {
                Err(BracketError::UnopenedSquare)
            } else if stack.last() == BracketKind::Square {
                Ok(stack.drop_last())
            } else {
                Err(BracketError::MismatchedSquare)
            },
            _ => Ok(stack),
        },
    }
}

/// The bracket matcher's stack after the first `i` tokens, or its first error.
pub open spec fn bracket_scan(toks: Seq<TokenModel>, i: int) -> Result<
    Seq<BracketKind>,
    BracketError,
>
    decreases i,
{
    if i <= 0 {
        Ok(Seq::empty())
    } else {
        bracket_step(bracket_scan(toks, i - 1), toks[i - 1])
    }
}

/// What the bracket-balance pass returns on a whole token sequence.
pub open spec fn spec_check_brackets(toks: Seq<TokenModel>) -> Result<(), BracketError> {
    match bracket_scan(toks, toks.len() as int) {
        Err(e) => Err(e),
        Ok(stack) => if stack.len() == 0 {
            Ok(())
        } else {
            Err(BracketError::Unclosed)
        },
    }
}

proof fn lemma_bracket_err(toks: Seq<TokenModel>, i: int, e: BracketError)
    requires
        0 <= i <= toks.len(),
        bracket_scan(toks, i) == Err::<Seq<BracketKind>, BracketError>(e),
    ensures
        bracket_scan(toks, toks.len() as int) == Err::<Seq<BracketKind>, BracketError>(e),
    decreases toks.len() - i,
{
    if i < toks.len() {
        assert(bracket_scan(toks, i + 1) == bracket_step(bracket_scan(toks, i), toks[i]));
        lemma_bracket_err(toks, i + 1, e);
    }
}

/// Bracket matcher: scans left to right with a stack of open-bracket kinds.
/// A close must match the innermost open of the same kind, and nothing may
/// stay open at the end of input.
pub fn check_brackets(tokens: &VecDeque<Token>) -> (r: Result<(), BracketError>)
    ensures
        r == spec_check_brackets(models(tokens@)),
{
    let ghost m = models(tokens@);
    let n = tokens.len();
    let mut depths: Vec<BracketKind> = Vec::new();
    let mut i: usize = 0;
    proof {
        assert(depths@ =~= Seq::<BracketKind>::empty());
    }
    while i < n
        invariant
            i <= n,
            n == tokens@.len(),
            m == models(tokens@),
            bracket_scan(m, i as int) == Ok::<Seq<BracketKind>, BracketError>(depths@),
        decreases n - i,
    {
        proof {
            assert(m[i as int] == tokens@[i as int]@);
            assert(bracket_scan(m, i as int + 1) == bracket_step(
                bracket_scan(m, i as int),
                m[i as int],
            ));
        }
        match &tokens[i] {
            Token::OpenParen => {
                depths.push(BracketKind::Paren);
            },
            Token::OpenBracket => {
                depths.push(BracketKind::Square);
            },
            Token::CloseParen => {
                if depths.len() == 0 {
                    proof {
                        lemma_bracket_err(m, i as int + 1, BracketError::UnopenedParen);
                    }
                    return Err(BracketError::UnopenedParen);
                }
                let top = depths[depths.len() - 1];
                if top == BracketKind::Paren {
                    depths.pop();
                    proof {
                        assert(depths@ =~= bracket_scan(m, i as int + 1)->Ok_0);
                    }
                } else {
                    proof {
                        lemma_bracket_err(m, i as int + 1, BracketError::MismatchedParen);
                    }
                    return Err(BracketError::MismatchedParen);
                }
            },
            Token::CloseBracket => {
                if depths.len() == 0 {
                    proof {
                        lemma_bracket_err(m, i as int + 1, BracketError::UnopenedSquare);
                    }
                    return Err(BracketError::UnopenedSquare);
                }
                let top = depths[depths.len() - 1];
                if top == BracketKind::Square {
                    depths.pop();
                    proof {
                        assert(depths@ =~= bracket_scan(m, i as int + 1)->Ok_0);
                    }
                } else {
                    proof {
                        lemma_bracket_err(m, i as int + 1, BracketError::MismatchedSquare);
                    }
                    return Err(BracketError::MismatchedSquare);
                }
            },
            _ => {
            },
        }
        i += 1;
    }
    if depths.len() == 0 {
        Ok(())
    } else {
        Err(BracketError::Unclosed)
    }
}

/// The error, if any, that the adjacency table assigns to the token pair at
/// positions `i` and `i + 1`, with the number rule also looking two tokens back.
pub open spec fn pair_err(toks: Seq<TokenModel>, i: int) -> Option<ValidationError> {
    let cur = toks[i];
    let next = toks[i + 1];
    match cur {
        TokenModel::Div => if (next matches TokenModel::Id(_)) || (next matches TokenModel::OpenBracket)
            || (next matches TokenModel::Semicolon) {
            None
        } else {
            Some(ValidationError::DisallowedPair)
        },
        TokenModel::Label => if (next matches TokenModel::Id(_)) || (next matches TokenModel::OpenParen) {
            None
        } else {
            Some(ValidationError::DisallowedPair)
        },
        TokenModel::Image => if (next matches TokenModel::Id(_)) || (next matches TokenModel::OpenParen) {
            None
        } else {
            Some(ValidationError::DisallowedPair)
        },
        TokenModel::Text => if (next matches TokenModel::Id(_)) || (next matches TokenModel::OpenParen)
            || (next matches TokenModel::Semicolon) || (next matches TokenModel::OpenBracket) {
            None
        } else {
            Some(ValidationError::DisallowedPair)
        },
        TokenModel::Semicolon => if (next matches TokenModel::Div) || (next matches TokenModel::Label)
            || (next matches TokenModel::Image) || (next matches TokenModel::Text)
            || (next matches TokenModel::CloseBracket) {
            None
        } else {
            Some(ValidationError::DisallowedPair)
        },
        TokenModel::OpenBracket => if (next matches TokenModel::Div) || (next matches TokenModel::Label)
            || (next matches TokenModel::Image) || (next matches TokenModel::Text) {
            None
        } else {
            Some(ValidationError::DisallowedPair)
        },
        TokenModel::CloseBracket => if (next matches TokenModel::Div) || (next matches TokenModel::Label)
            || (next matches TokenModel::Image) || (next matches TokenModel::Text)
            || (next matches TokenModel::CloseBracket) || (next matches TokenModel::Semicolon) {
            None
        } else {
            Some(ValidationError::DisallowedPair)
        },
        TokenModel::OpenParen => if (next matches TokenModel::Str(_)) {
            None
        } else {
            Some(ValidationError::DisallowedPair)
        },
        TokenModel::CloseParen => if (next matches TokenModel::Semicolon)
            || (next matches TokenModel::OpenBracket) {
            None
        } else {
            Some(ValidationError::DisallowedPair)
        },
        TokenModel::Str(_) => if (next matches TokenModel::Str(_)) || (next matches TokenModel::Num(_))
            || (next matches TokenModel::CloseParen) {
            None
        } else {
            Some(ValidationError::ImproperTextSyntax)
        },
        TokenModel::Num(_) => if i >= 2 && (toks[i - 1] matches TokenModel::Str(_)) && (toks[i - 2] matches TokenModel::Str(_)) {
            None
        } else {
            Some(ValidationError::NumberContext)
        },
        TokenModel::Id(_) => if (next matches TokenModel::Semicolon)
            || (next matches TokenModel::OpenParen) || (next matches TokenModel::OpenBracket) {
            None
        } else {
            Some(ValidationError::AfterIdentifier)
        },
    }
}

/// The first adjacency violation at or after pair position `i`.
pub open spec fn spec_validate_from(toks: Seq<TokenModel>, i: int) -> Result<(), ValidationError>
    decreases toks.len() - i,
    when i >= 0
{
    if i + 1 >= toks.len() {
        Ok(())
    } else {
        match pair_err(toks, i) {
            Some(e) => Err(e),
            None => spec_validate_from(toks, i + 1),
        }
    }
}

/// What the adjacency pass returns on a whole token sequence.
pub open spec fn spec_validate(toks: Seq<TokenModel>) -> Result<(), ValidationError> {
    spec_validate_from(toks, 0)
}

/// Adjacency validator: scans each pair of neighbouring tokens against a
/// successor table.  A heuristic guard only; structural correctness is
/// enforced by the parser itself.
pub fn check_syntax_lightly(source: &VecDeque<Token>) -> (r: Result<(), ValidationError>)
    ensures
        r == spec_validate(models(source@)),
{
    let ghost m = models(source@);
    let n = source.len();
    if n == 0 {
        return Ok(());
    }
    let mut i: usize = 0;
    while i < n - 1
        invariant
            1 <= n,
            i <= n,
            n == source@.len(),
            m == models(source@),
            spec_validate(m) == spec_validate_from(m, i as int),
        decreases n - i,
    {
        proof {
            assert(m[i as int] == source@[i as int]@);
            assert(m[i as int + 1] == source@[i as int + 1]@);
        }
        let ok: bool = match &source[i] {
            Token::Div => match &source[i + 1] {
                Token::Id(_) | Token::OpenBracket | Token::Semicolon => true,
                _ => false,
            },
            Token::Label => match &source[i + 1] {
                Token::Id(_) | Token::OpenParen => true,
                _ => false,
            },
            Token::Image => match &source[i + 1] {
                Token::Id(_) | Token::OpenParen => true,
                _ => false,
            },
            Token::Text => match &source[i + 1] {
                Token::Id(_) | Token::OpenParen | Token::Semicolon | Token::OpenBracket => true,
                _ => false,
            },
            Token::Semicolon => match &source[i + 1] {
                Token::Div | Token::Label | Token::Image | Token::Text | Token::CloseBracket => true,
                _ => false,
            },
            Token::OpenBracket => match &source[i + 1] {
                Token::Div | Token::Label | Token::Image | Token::Text => true,
                _ => false,
            },
            Token::CloseBracket => match &source[i + 1] {
                Token::Div | Token::Label | Token::Image | Token::Text | Token::CloseBracket
                | Token::Semicolon => true,
                _ => false,
            },
            Token::OpenParen => match &source[i + 1] {
                Token::Str(_) => true,
                _ => false,
            },
            Token::CloseParen => match &source[i + 1] {
                Token::Semicolon | Token::OpenBracket => true,
                _ => false,
            },
            Token::Str(_) => match &source[i + 1] {
                Token::Str(_) | Token::Num(_) | Token::CloseParen => true,
                _ => false,
            },
            Token::Num(_) => {
                proof {
                    if i >= 2 {
                        assert(m[i as int - 1] == source@[i as int - 1]@);
                        assert(m[i as int - 2] == source@[i as int - 2]@);
                    }
                }
                if i >= 2 {
                    let one_back_str = match &source[i - 1] {
                        Token::Str(_) => true,
                        _ => false,
                    };
                    let two_back_str = match &source[i - 2] {
                        Token::Str(_) => true,
                        _ => false,
                    };
                    one_back_str && two_back_str
                } else {
                    false
                }
            },
            Token::Id(_) => match &source[i + 1] {
                Token::Semicolon | Token::OpenParen | Token::OpenBracket => true,
                _ => false,
            },
        };
        if !ok {
            let e = match &source[i] {
                Token::Str(_) => ValidationError::ImproperTextSyntax,
                Token::Num(_) => ValidationError::NumberContext,
                Token::Id(_) => ValidationError::AfterIdentifier,
                _ => ValidationError::DisallowedPair,
            };
            return Err(e);
        }
        i += 1;
    }
    Ok(())
}

/// The optional identifier annotation at position `i`: the identifier and the
/// position after it, or nothing and `i` unchanged.
pub open spec fn opt_id(toks: Seq<TokenModel>, i: int) -> (Option<Seq<char>>, int) {
    if 0 <= i < toks.len() && (toks[i] matches TokenModel::Id(_)) {
        (Some(toks[i]->Id_0), i + 1)
    } else {
        (None, i)
    }
}

/// A required `( "literal" )` group starting at `i`: the literal and the
/// position after `)`.
pub open spec fn spec_string_arg(toks: Seq<TokenModel>, i: int) -> Result<(Seq<char>, int), ParseError> {
    if i >= toks.len() {
        Err(ParseError::UnexpectedEnd)
    } else if !(toks[i] matches TokenModel::OpenParen) {
        Err(ParseError::ExpectedOpenParen)
    } else if i + 1 >= toks.len() {
        Err(ParseError::UnexpectedEnd)
    } else if !(toks[i + 1] matches TokenModel::Str(_)) {
        Err(ParseError::ExpectedString)
    } else if i + 2 >= toks.len() {
        Err(ParseError::UnexpectedEnd)
    } else if !(toks[i + 2] matches TokenModel::CloseParen) {
        Err(ParseError::ExpectedCloseParen)
    } else {
        Ok((toks[i + 1]->Str_0, i + 3))
    }
}

/// A `text` node's parenthesized argument group starting at `i`:
/// `( "body" )`, `( "body" "font" )` or `( "body" "font" size )`.
pub open spec fn spec_text_arg(toks: Seq<TokenModel>, i: int) -> Result<(TextArgModel, int), ParseError> {
    if i >= toks.len() {
        Err(ParseError::UnexpectedEnd)
    } else if !(toks[i] matches TokenModel::OpenParen) {
        Err(ParseError::ExpectedOpenParen)
    } else if i + 1 >= toks.len() {
        Err(ParseError::UnexpectedEnd)
    } else if !(toks[i + 1] matches TokenModel::Str(_)) {
        Err(ParseError::ExpectedString)
    } else if i + 2 >= toks.len() {
        Err(ParseError::UnexpectedEnd)
    } else {
        let body = toks[i + 1]->Str_0;
        match toks[i + 2] {
            TokenModel::CloseParen => Ok(
                (TextArgModel { body: body, font: None, size: None }, i + 3),
            ),
            TokenModel::Str(font) => if i + 3 >= toks.len() {
                Err(ParseError::UnexpectedEnd)
            } else {
                match toks[i + 3] {
                    TokenModel::CloseParen => Ok(
                        (TextArgModel { body: body, font: Some(font), size: None }, i + 4),
                    ),
                    TokenModel::Num(size) => if i + 4 >= toks.len() {
                        Err(ParseError::UnexpectedEnd)
                    } else if (toks[i + 4] matches TokenModel::CloseParen) {
                        Ok((TextArgModel { body: body, font: Some(font), size: Some(size) }, i + 5))
                    } else {
                        Err(ParseError::ExpectedCloseParen)
                    },
                    _ => Err(ParseError::BadTextArgument),
                }
            },
            _ => Err(ParseError::BadTextArgument),
        }
    }
}

/// One node head at the front of the token sequence: the node, its text
/// argument if it is a `text` node, and how many tokens it consumed.
pub open spec fn spec_node(toks: Seq<TokenModel>) -> Result<
    (NodeModel, Seq<TextArgModel>, int),
    ParseError,
> {
    if toks.len() == 0 {
        Err(ParseError::UnexpectedEnd)
    } else {
        match toks[0] {
            TokenModel::Div => {
                let (id, next) = opt_id(toks, 1);
                Ok((NodeModel { kind: NTypeModel::Div, id: id }, Seq::empty(), next))
            },
            TokenModel::Label => {
                let (id, next) = opt_id(toks, 1);
                match spec_string_arg(toks, next) {
                    Ok(p) => Ok(
                        (NodeModel { kind: NTypeModel::Label(p.0), id: id }, Seq::empty(), p.1),
                    ),
                    Err(e) => Err(e),
                }
            },
            TokenModel::Image => {
                let (id, next) = opt_id(toks, 1);
                match spec_string_arg(toks, next) {
                    Ok(p) => Ok(
                        (NodeModel { kind: NTypeModel::Image(p.0), id: id }, Seq::empty(), p.1),
                    ),
                    Err(e) => Err(e),
                }
            },
            TokenModel::Text => {
                let (id, next) = opt_id(toks, 1);
                match spec_text_arg(toks, next) {
                    Ok(p) => Ok((NodeModel { kind: NTypeModel::Text, id: id }, seq![p.0], p.1)),
                    Err(e) => Err(e),
                }
            },
            _ => Err(ParseError::UnexpectedToken),
        }
    }
}

proof fn lemma_node_bounds(toks: Seq<TokenModel>)
    ensures
        spec_node(toks) matches Ok(t) ==> 1 <= t.2 <= toks.len(),
{
}

/// One node followed by its tail: `;` for a leaf, or `[` children `]` for a
/// node with children.  `fuel` bounds the recursion depth; any fuel above the
/// sequence's length yields the same result.
pub open spec fn spec_parse_next(toks: Seq<TokenModel>, fuel: nat) -> Result<
    (AstModel, Seq<TextArgModel>, int),
    ParseError,
>
    decreases fuel, 0int,
{
    if fuel == 0 {
        Err(ParseError::UnexpectedEnd)
    } else {
        match spec_node(toks) {
            Err(e) => Err(e),
            Ok((node, tas, k)) => if k >= toks.len() {
                Err(ParseError::UnexpectedEnd)
            } else if (toks[k] matches TokenModel::OpenBracket) {
                match spec_parse_in(toks.skip(k + 1), (fuel - 1) as nat) {
                    Err(e) => Err(e),
                    Ok((children, tas2, k2)) => Ok(
                        (AstModel::Joint(node, children), tas + tas2, k + 1 + k2),
                    ),
                }
            } else if (toks[k] matches TokenModel::Semicolon) {
                Ok((AstModel::Element(node), tas, k + 1))
            } else {
                Err(ParseError::UnexpectedToken)
            },
        }
    }
}

/// The one-or-more children of a joint, ending at the matching `]`: the
/// children's trees, their text arguments, and the tokens consumed including
/// the `]` itself.
pub open spec fn spec_parse_in(toks: Seq<TokenModel>, fuel: nat) -> Result<
    (Seq<AstModel>, Seq<TextArgModel>, int),
    ParseError,
>
    decreases fuel, 2int,
{
    if toks.len() > 0 && (toks[0] matches TokenModel::CloseBracket) {
        Err(ParseError::EmptyJoint)
    } else {
        spec_parse_children(toks, fuel)
    }
}

/// Zero or more children then the closing `]`.
pub open spec fn spec_parse_children(toks: Seq<TokenModel>, fuel: nat) -> Result<
    (Seq<AstModel>, Seq<TextArgModel>, int),
    ParseError,
>
    decreases fuel, 1int,
{
    if toks.len() == 0 {
        Err(ParseError::UnexpectedEnd)
    } else if (toks[0] matches TokenModel::CloseBracket) {
        Ok((Seq::empty(), Seq::empty(), 1))
    } else if fuel == 0 {
        Err(ParseError::UnexpectedEnd)
    } else {
        match spec_parse_next(toks, fuel) {
            Err(e) => Err(e),
            Ok((c, tas, k)) => match spec_parse_children(toks.skip(k), (fuel - 1) as nat) {
                Err(e) => Err(e),
                Ok((cs, tas2, k2)) => Ok((seq![c] + cs, tas + tas2, k + k2)),
            },
        }
    }
}

proof fn lemma_next_bounds(toks: Seq<TokenModel>, fuel: nat)
    ensures
        spec_parse_next(toks, fuel) matches Ok(t) ==> 1 <= t.2 <= toks.len(),
    decreases fuel, 0int,
{
    if fuel > 0 {
        lemma_node_bounds(toks);
        if let Ok((node, tas, k)) = spec_node(toks) {
            if k < toks.len() && (toks[k] matches TokenModel::OpenBracket) {
                lemma_children_bounds(toks.skip(k + 1), (fuel - 1) as nat);
            }
        }
    }
}

proof fn lemma_children_bounds(toks: Seq<TokenModel>, fuel: nat)
    ensures
        spec_parse_in(toks, fuel) matches Ok(t) ==> 1 <= t.2 <= toks.len(),
        spec_parse_children(toks, fuel) matches Ok(t) ==> 1 <= t.2 <= toks.len(),
    decreases fuel, 1int,
{
    if toks.len() > 0 && !(toks[0] matches TokenModel::CloseBracket) && fuel > 0 {
        lemma_next_bounds(toks, fuel);
        if let Ok((c, tas, k)) = spec_parse_next(toks, fuel) {
            lemma_children_bounds(toks.skip(k), (fuel - 1) as nat);
        }
    }
}

proof fn lemma_next_fuel(toks: Seq<TokenModel>, f1: nat, f2: nat)
    requires
        f1 >= toks.len() + 1,
        f2 >= toks.len() + 1,
    ensures
        spec_parse_next(toks, f1) == spec_parse_next(toks, f2),
    decreases f1 + f2, 0int,
{
    lemma_node_bounds(toks);
    if let Ok((node, tas, k)) = spec_node(toks) {
        if k < toks.len() && (toks[k] matches TokenModel::OpenBracket) {
            lemma_children_fuel(toks.skip(k + 1), (f1 - 1) as nat, (f2 - 1) as nat);
        }
    }
}

proof fn lemma_children_fuel(toks: Seq<TokenModel>, f1: nat, f2: nat)
    requires
        f1 >= toks.len() + 1,
        f2 >= toks.len() + 1,
    ensures
        spec_parse_in(toks, f1) == spec_parse_in(toks, f2),
        spec_parse_children(toks, f1) == spec_parse_children(toks, f2),
    decreases f1 + f2, 1int,
{
    if toks.len() > 0 && !(toks[0] matches TokenModel::CloseBracket) {
        lemma_next_fuel(toks, f1, f2);
        lemma_next_bounds(toks, f1);
        if let Ok((c, tas, k)) = spec_parse_next(toks, f1) {
            lemma_children_fuel(toks.skip(k), (f1 - 1) as nat, (f2 - 1) as nat);
        }
    }
}

/// The parse of a whole token sequence: one top-level node and its tail, with
/// fuel fixed high enough that it no longer matters.
pub open spec fn spec_parse_tree(toks: Seq<TokenModel>) -> Result<
    (AstModel, Seq<TextArgModel>, int),
    ParseError,
> {
    spec_parse_next(toks, (toks.len() + 1) as nat)
}

/// The canonical children parse used to reason about loops.
pub open spec fn spec_parse_kids(toks: Seq<TokenModel>) -> Result<
    (Seq<AstModel>, Seq<TextArgModel>, int),
    ParseError,
> {
    spec_parse_in(toks, (toks.len() + 1) as nat)
}

spec fn spec_children_c(toks: Seq<TokenModel>) -> Result<
    (Seq<AstModel>, Seq<TextArgModel>, int),
    ParseError,
> {
    spec_parse_children(toks, (toks.len() + 1) as nat)
}

proof fn lemma_children_unfold(toks: Seq<TokenModel>)
    requires
        toks.len() > 0,
        !(toks[0] matches TokenModel::CloseBracket),
    ensures
        spec_children_c(toks) == (match spec_parse_tree(toks) {
            Err(e) => Err::<(Seq<AstModel>, Seq<TextArgModel>, int), ParseError>(e),
            Ok((c, tas, k)) => match spec_children_c(toks.skip(k)) {
                Err(e) => Err::<(Seq<AstModel>, Seq<TextArgModel>, int), ParseError>(e),
                Ok((cs, tas2, k2)) => Ok((seq![c] + cs, tas + tas2, k + k2)),
            },
        }),
{
    let f = (toks.len() + 1) as nat;
    lemma_next_bounds(toks, f);
    if let Ok((c, tas, k)) = spec_parse_next(toks, f) {
        lemma_children_fuel(toks.skip(k), (f - 1) as nat, (toks.skip(k).len() + 1) as nat);
    }
}

/// What the whole pipeline from validated tokens to tree returns: the first
/// bracket error, else the first adjacency error, else the parse.
pub open spec fn spec_parse(toks: Seq<TokenModel>) -> Result<
    (Seq<TextArgModel>, AstModel, int),
    SyntaxError,
> {
    match spec_check_brackets(toks) {
        Err(e) => Err(SyntaxError::Bracket(e)),
        Ok(u) => match spec_validate(toks) {
            Err(e) => Err(SyntaxError::Validation(e)),
            Ok(u2) => match spec_parse_tree(toks) {
                Err(e) => Err(SyntaxError::Parse(e)),
                Ok((a, tas, k)) => Ok((tas, a, k)),
            },
        },
    }
}

proof fn lemma_models_skip(s: Seq<Token>, k: int)
    requires
        0 <= k <= s.len(),
    ensures
        models(s.skip(k)) == models(s).skip(k),
{
    assert(models(s.skip(k)) =~= models(s).skip(k));
}

proof fn lemma_asts_view_push(s: Seq<ASTPoint>, a: ASTPoint)
    ensures
        asts_view(s.push(a)) == asts_view(s) + seq![ast_view(a)],
    decreases s.len(),
{
    if s.len() == 0 {
        assert(s.push(a).drop_first() =~= Seq::<ASTPoint>::empty());
        assert(s.push(a).first() == a);
        assert(asts_view(s.push(a).drop_first()) == Seq::<AstModel>::empty());
        assert(seq![ast_view(a)] + Seq::<AstModel>::empty() =~= seq![ast_view(a)]);
        assert(asts_view(s) + seq![ast_view(a)] =~= seq![ast_view(a)]);
    } else {
        assert(s.push(a).first() == s.first());
        assert(s.push(a).drop_first() =~= s.drop_first().push(a));
        lemma_asts_view_push(s.drop_first(), a);
        assert(seq![ast_view(s.first())] + (asts_view(s.drop_first()) + seq![ast_view(a)]) =~= (
        seq![ast_view(s.first())] + asts_view(s.drop_first())) + seq![ast_view(a)]);
    }
}

proof fn lemma_arg_models_push(s: Seq<TextArgument>, a: TextArgument)
    ensures
        arg_models(s.push(a)) == arg_models(s).push(a@),
{
    assert(arg_models(s.push(a)) =~= arg_models(s).push(a@));
}

proof fn lemma_string_arg_shift(m: Seq<TokenModel>, i: int)
    requires
        0 <= i <= m.len(),
    ensures
        match spec_string_arg(m.skip(i), 0) {
            Ok(p) => spec_string_arg(m, i) == Ok::<(Seq<char>, int), ParseError>((p.0, p.1 + i)),
            Err(e) => spec_string_arg(m, i) == Err::<(Seq<char>, int), ParseError>(e),
        },
{
}

proof fn lemma_text_arg_shift(m: Seq<TokenModel>, i: int)
    requires
        0 <= i <= m.len(),
    ensures
        match spec_text_arg(m.skip(i), 0) {
            Ok(p) => spec_text_arg(m, i) == Ok::<(TextArgModel, int), ParseError>((p.0, p.1 + i)),
            Err(e) => spec_text_arg(m, i) == Err::<(TextArgModel, int), ParseError>(e),
        },
{
}

/// Consumes the front token when it is an identifier annotation.
fn take_id(source: &mut VecDeque<Token>) -> (r: Option<String>)
    ensures
        ({
            let oi = opt_id(models(old(source)@), 0);
            &&& opt_view(r) == oi.0
            &&& final(source)@ == old(source)@.skip(oi.1)
        }),
{
    proof {
        assert(old(source)@.skip(0) =~= old(source)@);
    }
    if source.len() > 0 {
        let pop_it = match &source[0] {
            Token::Id(_) => true,
            _ => false,
        };
        proof {
            assert(models(source@)[0] == source@[0]@);
        }
        if pop_it {
            match source.pop_front() {
                Some(Token::Id(x)) => Some(x),
                _ => {
                    proof {
                        assert(false);
                    }
                    None
                },
            }
        } else {
            None
        }
    } else {
        None
    }
}

/// Consumes a required `( "literal" )` group from the front.
fn take_string_arg(source: &mut VecDeque<Token>) -> (r: Result<String, ParseError>)
    ensures
        match r {
            Ok(s) => ({
                let sa = spec_string_arg(models(old(source)@), 0);
                &&& sa matches Ok(p)
                &&& p.0 == s@
                &&& p.1 == 3
                &&& final(source)@ == old(source)@.skip(3)
            }),
            Err(e) => spec_string_arg(models(old(source)@), 0) == Err::<(Seq<char>, int), ParseError>(e),
        },
{
    let ghost t0 = source@;
    let ghost m = models(t0);
    proof {
        if t0.len() > 0 {
            assert(m[0] == t0[0]@);
        }
        if t0.len() > 1 {
            assert(m[1] == t0[1]@);
        }
        if t0.len() > 2 {
            assert(m[2] == t0[2]@);
        }
    }
    match source.pop_front() {
        None => {
            return Err(ParseError::UnexpectedEnd);
        },
        Some(Token::OpenParen) => {},
        Some(_) => {
            return Err(ParseError::ExpectedOpenParen);
        },
    }
    let s = match source.pop_front() {
        None => {
            return Err(ParseError::UnexpectedEnd);
        },
        Some(Token::Str(x)) => x,
        Some(_) => {
            return Err(ParseError::ExpectedString);
        },
    };
    match source.pop_front() {
        None => {
            return Err(ParseError::UnexpectedEnd);
        },
        Some(Token::CloseParen) => {},
        Some(_) => {
            return Err(ParseError::ExpectedCloseParen);
        },
    }
    proof {
        assert(source@ =~= t0.skip(3));
    }
    Ok(s)
}

/// Consumes a `text` node's parenthesized argument group from the front and
/// appends the one [`TextArgument`] it describes.
fn take_text_arg(source: &mut VecDeque<Token>, text_strings: &mut Vec<TextArgument>) -> (r: Result<
    (),
    ParseError,
>)
    ensures
        match r {
            Ok(u) => ({
                let ta = spec_text_arg(models(old(source)@), 0);
                &&& ta matches Ok(p)
                &&& final(source)@ == old(source)@.skip(p.1)
                &&& arg_models(final(text_strings)@) == arg_models(old(text_strings)@).push(p.0)
            }),
            Err(e) => spec_text_arg(models(old(source)@), 0) == Err::<(TextArgModel, int), ParseError>(e)
                && *final(text_strings) == *old(text_strings),
        },
{
    let ghost t0 = source@;
    let ghost m = models(t0);
    proof {
        if t0.len() > 0 {
            assert(m[0] == t0[0]@);
        }
        if t0.len() > 1 {
            assert(m[1] == t0[1]@);
        }
        if t0.len() > 2 {
            assert(m[2] == t0[2]@);
        }
        if t0.len() > 3 {
            assert(m[3] == t0[3]@);
        }
        if t0.len() > 4 {
            assert(m[4] == t0[4]@);
        }
    }
    match source.pop_front() {
        None => {
            return Err(ParseError::UnexpectedEnd);
        },
        Some(Token::OpenParen) => {},
        Some(_) => {
            return Err(ParseError::ExpectedOpenParen);
        },
    }
    let body = match source.pop_front() {
        None => {
            return Err(ParseError::UnexpectedEnd);
        },
        Some(Token::Str(x)) => x,
        Some(_) => {
            return Err(ParseError::ExpectedString);
        },
    };
    match source.pop_front() {
        None => {
            return Err(ParseError::UnexpectedEnd);
        },
        Some(Token::CloseParen) => {
            let arg = TextArgument::create(body, None, None);
            proof {
                lemma_arg_models_push(text_strings@, arg);
                assert(source@ =~= t0.skip(3));
            }
            text_strings.push(arg);
            return Ok(());
        },
        Some(Token::Str(font)) => {
            match source.pop_front() {
                None => {
                    return Err(ParseError::UnexpectedEnd);
                },
                Some(Token::CloseParen) => {
                    let arg = TextArgument::create(body, Some(font), None);
                    proof {
                        lemma_arg_models_push(text_strings@, arg);
                        assert(source@ =~= t0.skip(4));
                    }
                    text_strings.push(arg);
                    return Ok(());
                },
                Some(Token::Num(size)) => {
                    match source.pop_front() {
                        None => {
                            return Err(ParseError::UnexpectedEnd);
                        },
                        Some(Token::CloseParen) => {
                            let arg = TextArgument::create(body, Some(font), Some(size));
                            proof {
                                lemma_arg_models_push(text_strings@, arg);
                                assert(source@ =~= t0.skip(5));
                            }
                            text_strings.push(arg);
                            return Ok(());
                        },
                        Some(_) => {
                            return Err(ParseError::ExpectedCloseParen);
                        },
                    }
                },
                Some(_) => {
                    return Err(ParseError::BadTextArgument);
                },
            }
        },
        Some(_) => {
            return Err(ParseError::BadTextArgument);
        },
    }
}

/// Parses one node head from the front of the token sequence: its keyword,
/// optional identifier, and required argument group, if any.
fn parse_next_node(source: &mut VecDeque<Token>, text_strings: &mut Vec<TextArgument>) -> (r:
    Result<Node, ParseError>)
    ensures
        match r {
            Ok(node) => ({
                let sn = spec_node(models(old(source)@));
                &&& sn matches Ok(t)
                &&& t.0 == node@
                &&& final(source)@ == old(source)@.skip(t.2)
                &&& arg_models(final(text_strings)@) == arg_models(old(text_strings)@) + t.1
            }),
            Err(e) => spec_node(models(old(source)@)) == Err::<
                (NodeModel, Seq<TextArgModel>, int),
                ParseError,
            >(e) && *final(text_strings) == *old(text_strings),
        },
{
    let ghost t0 = source@;
    let ghost m = models(t0);
    proof {
        if t0.len() > 0 {
            assert(m[0] == t0[0]@);
        }
    }
    match source.pop_front() {
        None => Err(ParseError::UnexpectedEnd),
        Some(Token::Div) => {
            proof {
                lemma_models_skip(t0, 1);
            }
            let id = take_id(source);
            proof {
                let oi = opt_id(m.skip(1), 0);
                assert(source@ =~= t0.skip(1 + oi.1));
                assert(opt_id(m, 1) == (oi.0, oi.1 + 1));
                assert(arg_models(text_strings@) + Seq::<TextArgModel>::empty() =~= arg_models(
                    text_strings@,
                ));
            }
            Ok(Node(NType::Div, id))
        },
        Some(Token::Label) => {
            proof {
                lemma_models_skip(t0, 1);
            }
            let id = take_id(source);
            let ghost next = opt_id(m, 1).1;
            proof {
                let oi = opt_id(m.skip(1), 0);
                assert(source@ =~= t0.skip(1 + oi.1));
                assert(opt_id(m, 1) == (oi.0, oi.1 + 1));
                lemma_models_skip(t0, next);
                lemma_string_arg_shift(m, next);
            }
            match take_string_arg(source) {
                Ok(s) => {
                    proof {
                        let p = spec_string_arg(m, next)->Ok_0;
                        assert(source@ =~= t0.skip(p.1));
                        assert(arg_models(text_strings@) + Seq::<TextArgModel>::empty()
                            =~= arg_models(text_strings@));
                    }
                    Ok(Node(NType::Label(s), id))
                },
                Err(e) => Err(e),
            }
        },
        Some(Token::Image) => {
            proof {
                lemma_models_skip(t0, 1);
            }
            let id = take_id(source);
            let ghost next = opt_id(m, 1).1;
            proof {
                let oi = opt_id(m.skip(1), 0);
                assert(source@ =~= t0.skip(1 + oi.1));
                assert(opt_id(m, 1) == (oi.0, oi.1 + 1));
                lemma_models_skip(t0, next);
                lemma_string_arg_shift(m, next);
            }
            match take_string_arg(source) {
                Ok(s) => {
                    proof {
                        let p = spec_string_arg(m, next)->Ok_0;
                        assert(source@ =~= t0.skip(p.1));
                        assert(arg_models(text_strings@) + Seq::<TextArgModel>::empty()
                            =~= arg_models(text_strings@));
                    }
                    Ok(Node(NType::Image(s), id))
                },
                Err(e) => Err(e),
            }
        },
        Some(Token::Text) => {
            proof {
                lemma_models_skip(t0, 1);
            }
            let id = take_id(source);
            let ghost next = opt_id(m, 1).1;
            proof {
                let oi = opt_id(m.skip(1), 0);
                assert(source@ =~= t0.skip(1 + oi.1));
                assert(opt_id(m, 1) == (oi.0, oi.1 + 1));
                lemma_models_skip(t0, next);
                lemma_text_arg_shift(m, next);
            }
            match take_text_arg(source, text_strings) {
                Ok(u) => {
                    proof {
                        let p = spec_text_arg(m, next)->Ok_0;
                        assert(source@ =~= t0.skip(p.1));
                        assert(arg_models(old(text_strings)@).push(p.0) =~= arg_models(
                            old(text_strings)@,
                        ) + seq![p.0]);
                    }
                    Ok(Node(NType::Text, id))
                },
                Err(e) => Err(e),
            }
        },
        Some(_) => Err(ParseError::UnexpectedToken),
    }
}

/// Parses one node and its tail: `;` for a leaf, or a bracketed child list.
fn parse_next(source: &mut VecDeque<Token>, text_strings: &mut Vec<TextArgument>) -> (r: Result<
    ASTPoint,
    ParseError,
>)
    ensures
        ({
            let m = models(old(source)@);
            match r {
                Ok(ast) => ({
                    let sp = spec_parse_tree(m);
                    &&& sp matches Ok(t)
                    &&& t.0 == ast_view(ast)
                    &&& final(source)@ == old(source)@.skip(t.2)
                    &&& arg_models(final(text_strings)@) == arg_models(old(text_strings)@) + t.1
                }),
                Err(e) => spec_parse_tree(m) == Err::<(AstModel, Seq<TextArgModel>, int), ParseError>(e),
            }
        }),
    decreases source@.len(), 0int,
{
    let ghost t0 = source@;
    let ghost m = models(t0);
    let ghost fuel = (m.len() + 1) as nat;
    let head = match parse_next_node(source, text_strings) {
        Err(e) => {
            return Err(e);
        },
        Ok(node) => node,
    };
    let ghost sn = spec_node(m)->Ok_0;
    proof {
        lemma_node_bounds(m);
        lemma_models_skip(t0, sn.2);
    }
    if source.len() == 0 {
        return Err(ParseError::UnexpectedEnd);
    }
    proof {
        assert(m[sn.2] == t0[sn.2]@);
        assert(source@[0] == t0.skip(sn.2)[0]);
    }
    let is_ob = match &source[0] {
        Token::OpenBracket => true,
        _ => false,
    };
    let is_semi = match &source[0] {
        Token::Semicolon => true,
        _ => false,
    };
    if is_ob {
        let _popped = source.pop_front();
        proof {
            assert(source@ =~= t0.skip(sn.2 + 1));
            lemma_models_skip(t0, sn.2 + 1);
        }
        let ghost mchild = m.skip(sn.2 + 1);
        match parse_in(source, text_strings) {
            Err(e) => {
                proof {
                    lemma_children_fuel(
                        mchild,
                        (fuel - 1) as nat,
                        (mchild.len() + 1) as nat,
                    );
                }
                Err(e)
            },
            Ok(points) => {
                proof {
                    lemma_children_fuel(
                        mchild,
                        (fuel - 1) as nat,
                        (mchild.len() + 1) as nat,
                    );
                    let t = spec_parse_kids(mchild)->Ok_0;
                    lemma_children_bounds(mchild, (mchild.len() + 1) as nat);
                    assert(source@ =~= t0.skip(sn.2 + 1 + t.2));
                    assert((arg_models(old(text_strings)@) + sn.1) + t.1 =~= arg_models(
                        old(text_strings)@,
                    ) + (sn.1 + t.1));
                }
                Ok(ASTPoint::Joint(head, points))
            },
        }
    } else if is_semi {
        let _popped = source.pop_front();
        proof {
            assert(source@ =~= t0.skip(sn.2 + 1));
        }
        Ok(ASTPoint::Element(head))
    } else {
        Err(ParseError::UnexpectedToken)
    }
}

/// Parses the one-or-more children of a joint up to and including the
/// matching `]`.
#[verifier::loop_isolation(false)]
fn parse_in(source: &mut VecDeque<Token>, text_strings: &mut Vec<TextArgument>) -> (r: Result<
    Vec<ASTPoint>,
    ParseError,
>)
    ensures
        ({
            let m = models(old(source)@);
            match r {
                Ok(points) => ({
                    let sp = spec_parse_kids(m);
                    &&& sp matches Ok(t)
                    &&& t.0 == asts_view(points@)
                    &&& points@.len() > 0
                    &&& final(source)@ == old(source)@.skip(t.2)
                    &&& arg_models(final(text_strings)@) == arg_models(old(text_strings)@) + t.1
                }),
                Err(e) => spec_parse_kids(m) == Err::<
                    (Seq<AstModel>, Seq<TextArgModel>, int),
                    ParseError,
                >(e),
            }
        }),
    decreases source@.len(), 1int,
{
    let ghost t0 = source@;
    let ghost m = models(t0);
    if source.len() == 0 {
        return Err(ParseError::UnexpectedEnd);
    }
    proof {
        assert(m[0] == t0[0]@);
    }
    let first_cb = match &source[0] {
        Token::CloseBracket => true,
        _ => false,
    };
    if first_cb {
        return Err(ParseError::EmptyJoint);
    }
    let mut points: Vec<ASTPoint> = Vec::new();
    let ghost args0 = arg_models(text_strings@);
    let ghost mut acc: Seq<TextArgModel> = Seq::empty();
    let ghost mut j: int = 0;
    proof {
        assert(t0.skip(0) =~= t0);
        assert(args0 + acc =~= args0);
        assert(asts_view(points@) == Seq::<AstModel>::empty());
        match spec_children_c(models(source@)) {
            Ok(t) => {
                assert(Seq::<AstModel>::empty() + t.0 =~= t.0);
                assert(acc + t.1 =~= t.1);
            },
            Err(u) => {},
        }
    }
    loop
        invariant
            source@ == t0.skip(j),
            0 <= j <= t0.len(),
            m == models(t0),
            m.len() == t0.len(),
            m.len() > 0,
            !(m[0] matches TokenModel::CloseBracket),
            points@.len() == 0 ==> j == 0,
            arg_models(text_strings@) == args0 + acc,
            args0 == arg_models(old(text_strings)@),
            match spec_children_c(models(source@)) {
                Ok(t) => spec_children_c(m) == Ok::<(Seq<AstModel>, Seq<TextArgModel>, int), ParseError>(
                    (asts_view(points@) + t.0, acc + t.1, j + t.2),
                ),
                Err(e) => spec_children_c(m) == Err::<
                    (Seq<AstModel>, Seq<TextArgModel>, int),
                    ParseError,
                >(e),
            },
        decreases t0.len() - j,
    {
        let ghost cur = source@;
        let ghost mcur = models(cur);
        proof {
            lemma_models_skip(t0, j);
        }
        if source.len() == 0 {
            proof {
                assert(mcur.len() == 0);
                assert(spec_children_c(mcur) == Err::<
                    (Seq<AstModel>, Seq<TextArgModel>, int),
                    ParseError,
                >(ParseError::UnexpectedEnd));
                assert(spec_parse_kids(m) == spec_children_c(m));
            }
            return Err(ParseError::UnexpectedEnd);
        }
        proof {
            assert(mcur[0] == cur[0]@);
        }
        let cb = match &source[0] {
            Token::CloseBracket => true,
            _ => false,
        };
        if cb {
            let _popped = source.pop_front();
            proof {
                assert(spec_children_c(mcur) == Ok::<
                    (Seq<AstModel>, Seq<TextArgModel>, int),
                    ParseError,
                >((Seq::empty(), Seq::empty(), 1)));
                assert(asts_view(points@) + Seq::<AstModel>::empty() =~= asts_view(points@));
                assert(acc + Seq::<TextArgModel>::empty() =~= acc);
                assert(source@ =~= t0.skip(j + 1));
                if points.len() == 0 {
                    assert(j == 0);
                    assert(cur =~= t0);
                    assert(false);
                }
                assert(spec_parse_kids(m) == spec_children_c(m));
            }
            return Ok(points);
        }
        proof {
            lemma_children_unfold(mcur);
        }
        match parse_next(source, text_strings) {
            Err(e) => {
                proof {
                    assert(spec_parse_kids(m) == spec_children_c(m));
                }
                return Err(e);
            },
            Ok(child) => {
                let ghost t = spec_parse_tree(mcur)->Ok_0;
                let ghost pts_before = points@;
                proof {
                    lemma_next_bounds(mcur, (mcur.len() + 1) as nat);
                    lemma_asts_view_push(pts_before, child);
                }
                points.push(child);
                proof {
                    lemma_models_skip(cur, t.2);
                    assert(source@ =~= t0.skip(j + t.2));
                    let pv = asts_view(pts_before);
                    match spec_children_c(models(source@)) {
                        Ok(t2) => {
                            assert((pv + seq![ast_view(child)]) + t2.0 =~= pv + (seq![
                                ast_view(child),
                            ] + t2.0));
                            assert((acc + t.1) + t2.1 =~= acc + (t.1 + t2.1));
                            assert((args0 + acc) + t.1 =~= args0 + (acc + t.1));
                        },
                        Err(u) => {
                            assert((args0 + acc) + t.1 =~= args0 + (acc + t.1));
                        },
                    }
                    acc = acc + t.1;
                    j = j + t.2;
                }
            },
        }
    }
}

/// Runs the bracket and adjacency passes, then parses one top-level node,
/// consuming the token sequence front-to-back.  On success the ordered
/// text-argument list and the tree are returned and any unconsumed tail stays
/// in the deque; the first failure of any stage is returned instead.
pub fn parse(source: &mut VecDeque<Token>) -> (r: Result<
    (Vec<TextArgument>, ASTPoint),
    SyntaxError,
>)
    ensures
        ({
            let m = models(old(source)@);
            match r {
                Ok(p) => ({
                    &&& spec_parse(m) matches Ok(t)
                    &&& arg_models(p.0@) == t.0
                    &&& ast_view(p.1) == t.1
                    &&& final(source)@ == old(source)@.skip(t.2)
                }),
                Err(e) => {
                    &&& spec_parse(m) == Err::<(Seq<TextArgModel>, AstModel, int), SyntaxError>(e)
                    &&& (e matches SyntaxError::Bracket(_) || e matches SyntaxError::Validation(_))
                        ==> final(source)@ == old(source)@
                },
            }
        }),
{
    let ghost m = models(source@);
    match check_brackets(source) {
        Err(e) => {
            return Err(SyntaxError::Bracket(e));
        },
        Ok(u) => {},
    }
    match check_syntax_lightly(source) {
        Err(e) => {
            return Err(SyntaxError::Validation(e));
        },
        Ok(u) => {},
    }
    let mut strings: Vec<TextArgument> = Vec::new();
    proof {
        assert(arg_models(strings@) =~= Seq::<TextArgModel>::empty());
    }
    match parse_next(source, &mut strings) {
        Err(e) => Err(SyntaxError::Parse(e)),
        Ok(ast) => {
            proof {
                let t = spec_parse_tree(m)->Ok_0;
                assert(Seq::<TextArgModel>::empty() + t.1 =~= t.1);
            }
            Ok((strings, ast))
        },
    }
}

/// Pre-order count of `Text` nodes in a tree model.
pub open spec fn count_text_ast(a: AstModel) -> nat
    decreases a, 1int,
{
    match a {
        AstModel::Element(n) => if (n.kind matches NTypeModel::Text) {
            1nat
        } else {
            0nat
        },
        AstModel::Joint(n, ch) => (if (n.kind matches NTypeModel::Text) {
            1nat
        } else {
            0nat
        }) + count_text_asts(ch),
    }
}

/// Pre-order count of `Text` nodes over a sequence of tree models.
pub open spec fn count_text_asts(s: Seq<AstModel>) -> nat
    decreases s, 0int,
    via count_text_asts_dec
{
    if s.len() == 0 {
        0nat
    } else {
        count_text_ast(s.first()) + count_text_asts(s.drop_first())
    }
}

#[via_fn]
proof fn count_text_asts_dec(s: Seq<AstModel>) {
    if s.len() != 0 {
        vstd::seq::axiom_seq_subrange_decreases(s, 1, s.len() as int);
        assert(s.drop_first() == s.subrange(1, s.len() as int));
    }
}

proof fn lemma_node_text_count(toks: Seq<TokenModel>)
    ensures
        spec_node(toks) matches Ok(t) ==> t.1.len() == (if (t.0.kind matches NTypeModel::Text) {
            1nat
        } else {
            0nat
        }),
{
}

proof fn lemma_count_text_cons(c: AstModel, cs: Seq<AstModel>)
    ensures
        count_text_asts(seq![c] + cs) == count_text_ast(c) + count_text_asts(cs),
{
    assert((seq![c] + cs).first() == c);
    assert((seq![c] + cs).drop_first() =~= cs);
    assert((seq![c] + cs).len() != 0);
}

proof fn lemma_next_text_count(toks: Seq<TokenModel>, fuel: nat)
    ensures
        spec_parse_next(toks, fuel) matches Ok(t) ==> t.1.len() == count_text_ast(t.0),
    decreases fuel, 0int,
{
    if fuel > 0 {
        lemma_node_text_count(toks);
        if let Ok((node, tas, k)) = spec_node(toks) {
            if k < toks.len() && (toks[k] matches TokenModel::OpenBracket) {
                lemma_children_text_count(toks.skip(k + 1), (fuel - 1) as nat);
            }
        }
    }
}

proof fn lemma_children_text_count(toks: Seq<TokenModel>, fuel: nat)
    ensures
        spec_parse_in(toks, fuel) matches Ok(t) ==> t.1.len() == count_text_asts(t.0),
        spec_parse_children(toks, fuel) matches Ok(t) ==> t.1.len() == count_text_asts(t.0),
    decreases fuel, 1int,
{
    if toks.len() == 0 {
    } else if (toks[0] matches TokenModel::CloseBracket) {
        assert(count_text_asts(Seq::<AstModel>::empty()) == 0);
    } else if fuel > 0 {
        lemma_next_text_count(toks, fuel);
        if let Ok((c, tas, k)) = spec_parse_next(toks, fuel) {
            lemma_children_text_count(toks.skip(k), (fuel - 1) as nat);
            if let Ok((cs, tas2, k2)) = spec_parse_children(toks.skip(k), (fuel - 1) as nat) {
                lemma_count_text_cons(c, cs);
            }
        }
    }
}

/// One text argument per `Text` node, in document order: a successful parse
/// yields exactly as many text arguments as the tree holds `Text` nodes.
pub proof fn lemma_parse_text_correlation(toks: Seq<TokenModel>)
    ensures
        spec_parse_tree(toks) matches Ok(t) ==> t.1.len() == count_text_ast(t.0),
{
    lemma_next_text_count(toks, (toks.len() + 1) as nat);
}

/// Well-formedness of a tree model: a node with children never carries an
/// empty child sequence.
pub open spec fn wf_ast(a: AstModel) -> bool
    decreases a, 1int,
{
    match a {
        AstModel::Element(n) => true,
        AstModel::Joint(n, ch) => ch.len() > 0 && wf_asts(ch),
    }
}

/// Well-formedness over a sequence of tree models.
pub open spec fn wf_asts(s: Seq<AstModel>) -> bool
    decreases s, 0int,
    via wf_asts_dec
{
    if s.len() == 0 {
        true
    } else {
        wf_ast(s.first()) && wf_asts(s.drop_first())
    }
}

#[via_fn]
proof fn wf_asts_dec(s: Seq<AstModel>) {
    if s.len() != 0 {
        vstd::seq::axiom_seq_subrange_decreases(s, 1, s.len() as int);
        assert(s.drop_first() == s.subrange(1, s.len() as int));
    }
}

proof fn lemma_next_wf(toks: Seq<TokenModel>, fuel: nat)
    ensures
        spec_parse_next(toks, fuel) matches Ok(t) ==> wf_ast(t.0),
    decreases fuel, 0int,
{
    if fuel > 0 {
        if let Ok((node, tas, k)) = spec_node(toks) {
            if k < toks.len() && (toks[k] matches TokenModel::OpenBracket) {
                lemma_children_wf(toks.skip(k + 1), (fuel - 1) as nat);
            }
        }
    }
}

proof fn lemma_children_wf(toks: Seq<TokenModel>, fuel: nat)
    ensures
        spec_parse_in(toks, fuel) matches Ok(t) ==> t.0.len() > 0 && wf_asts(t.0),
        spec_parse_children(toks, fuel) matches Ok(t) ==> wf_asts(t.0),
    decreases fuel, 1int,
{
    if toks.len() > 0 && !(toks[0] matches TokenModel::CloseBracket) && fuel > 0 {
        lemma_next_wf(toks, fuel);
        if let Ok((c, tas, k)) = spec_parse_next(toks, fuel) {
            lemma_children_wf(toks.skip(k), (fuel - 1) as nat);
            if let Ok((cs, tas2, k2)) = spec_parse_children(toks.skip(k), (fuel - 1) as nat) {
                assert((seq![c] + cs).first() == c);
                assert((seq![c] + cs).drop_first() =~= cs);
                assert((seq![c] + cs).len() != 0);
            }
        }
    }
}

/// Every tree the parser accepts is well-formed: each `Joint` carries one or
/// more children, all the way down.
pub proof fn lemma_parse_well_formed(toks: Seq<TokenModel>)
    ensures
        spec_parse_tree(toks) matches Ok(t) ==> wf_ast(t.0),
{
    lemma_next_wf(toks, (toks.len() + 1) as nat);
}

/// A document with a mismatched or unclosed delimiter fails with exactly its
/// bracket error and never reaches the parser.
pub proof fn lemma_brackets_gate_parser(toks: Seq<TokenModel>, e: BracketError)
    requires
        spec_check_brackets(toks) == Err::<(), BracketError>(e),
    ensures
        spec_parse(toks) == Err::<(Seq<TextArgModel>, AstModel, int), SyntaxError>(
            SyntaxError::Bracket(e),
        ),
{
}

} // verus!
