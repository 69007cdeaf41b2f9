//! Lexer: turns the source character stream into the ordered token stream.
//!
//! Whitespace and `{ ... }` block comments separate tokens.  Identifiers are
//! introduced by `:`, string literals are delimited by `"` with the escapes
//! `\t`, `\n`, `\\` and `\"`, and the keywords `div`, `label`, `image` and
//! `text` are only recognized when the following character is not part of the
//! identifier alphabet.

use vstd::prelude::*;

verus! {

/// One lexical unit of the markup language.
#[derive(Debug, Clone, PartialEq, Eq)]
pub enum Token {
    Div,
    Label,
    Image,
    Text,
    Semicolon,
    OpenBracket,
    CloseBracket,
    OpenParen,
    CloseParen,
    Num(usize),
    Id(String),
    Str(String),
}

/// Mathematical model of a token: strings as character sequences,
/// numbers as unbounded naturals.
pub enum TokenModel {
    Div,
    Label,
    Image,
    Text,
    Semicolon,
    OpenBracket,
    CloseBracket,
    OpenParen,
    CloseParen,
    Num(nat),
    Id(Seq<char>),
    Str(Seq<char>),
}

impl View for Token {
    type V = TokenModel;

    open spec fn view(&self) -> TokenModel {
        match self {
            Token::Div => TokenModel::Div,
            Token::Label => TokenModel::Label,
            Token::Image => TokenModel::Image,
            Token::Text => TokenModel::Text,
            Token::Semicolon => TokenModel::Semicolon,
            Token::OpenBracket => TokenModel::OpenBracket,
            Token::CloseBracket => TokenModel::CloseBracket,
            Token::OpenParen => TokenModel::OpenParen,
            Token::CloseParen => TokenModel::CloseParen,
            Token::Num(n) => TokenModel::Num(*n as nat),
            Token::Id(s) => TokenModel::Id(s@),
            Token::Str(s) => TokenModel::Str(s@),
        }
    }
}

/// The model of a token sequence.
pub open spec fn models(s: Seq<Token>) -> Seq<TokenModel> {
    s.map_values(|t: Token| t@)
}

/// Reasons the lexer rejects a document.
#[derive(Debug, Clone, PartialEq, Eq)]
pub enum LexError {
    /// A `{` comment with no closing `}` before the end of input.
    UnclosedComment,
    /// A `"` string literal with no closing quote.
    UnclosedString,
    /// A `\` escape followed by a character other than `t`, `n`, `\` or `"`.
    InvalidEscape(char),
    /// A numeric literal too large for the machine's unsigned integer.
    NumberOverflow,
    /// A character that cannot begin any token.
    UnexpectedChar(char),
}

/// The identifier alphabet: ASCII letters, digits, `-` and `_`.
pub open spec fn is_ident_char(c: char) -> bool {
    ||| ('a' as u32) <= (c as u32) && (c as u32) <= ('z' as u32)
    ||| ('A' as u32) <= (c as u32) && (c as u32) <= ('Z' as u32)
    ||| ('0' as u32) <= (c as u32) && (c as u32) <= ('9' as u32)
    ||| c == '-'
    ||| c == '_'
}

/// Decimal digits.
pub open spec fn is_digit(c: char) -> bool {
    ('0' as u32) <= (c as u32) && (c as u32) <= ('9' as u32)
}

/// Whitespace skipped between tokens.
pub open spec fn is_space(c: char) -> bool {
    c == ' ' || c == '\r' || c == '\t' || c == '\n'
}

/// First index at or after `i` holding `c`, or the length of `s` if none does.
pub open spec fn find_char(s: Seq<char>, i: int, c: char) -> int
    decreases s.len() - i,
    when 0 <= i <= s.len()
{
    if i >= s.len() {
        i
    } else if s[i] == c {
        i
    } else {
        find_char(s, i + 1, c)
    }
}

pub proof fn lemma_find_char(s: Seq<char>, i: int, c: char)
    requires
        0 <= i <= s.len(),
    ensures
        i <= find_char(s, i, c) <= s.len(),
        find_char(s, i, c) < s.len() ==> s[find_char(s, i, c)] == c,
        forall|j: int| i <= j < find_char(s, i, c) ==> s[j] != c,
    decreases s.len() - i,
{
    if i < s.len() && s[i] != c {
        lemma_find_char(s, i + 1, c);
    }
}

/// First index at or after `i` whose character is not whitespace.
pub open spec fn skip_spaces(s: Seq<char>, i: int) -> int
    decreases s.len() - i,
    when 0 <= i <= s.len()
{
    if i >= s.len() {
        i
    } else if is_space(s[i]) {
        skip_spaces(s, i + 1)
    } else {
        i
    }
}

pub proof fn lemma_skip_spaces(s: Seq<char>, i: int)
    requires
        0 <= i <= s.len(),
    ensures
        i <= skip_spaces(s, i) <= s.len(),
    decreases s.len() - i,
{
    if i < s.len() && is_space(s[i]) {
        lemma_skip_spaces(s, i + 1);
    }
}

/// First index at or after `i` whose character is outside the identifier alphabet.
pub open spec fn scan_ident_end(s: Seq<char>, i: int) -> int
    decreases s.len() - i,
    when 0 <= i <= s.len()
{
    if i >= s.len() {
        i
    } else if is_ident_char(s[i]) {
        scan_ident_end(s, i + 1)
    } else {
        i
    }
}

pub proof fn lemma_scan_ident_end(s: Seq<char>, i: int)
    requires
        0 <= i <= s.len(),
    ensures
        i <= scan_ident_end(s, i) <= s.len(),
    decreases s.len() - i,
{
    if i < s.len() && is_ident_char(s[i]) {
        lemma_scan_ident_end(s, i + 1);
    }
}

/// First index at or after `i` whose character is not a decimal digit.
pub open spec fn scan_digits_end(s: Seq<char>, i: int) -> int
    decreases s.len() - i,
    when 0 <= i <= s.len()
{
    if i >= s.len() {
        i
    } else if is_digit(s[i]) {
        scan_digits_end(s, i + 1)
    } else {
        i
    }
}

pub proof fn lemma_scan_digits_end(s: Seq<char>, i: int)
    requires
        0 <= i <= s.len(),
    ensures
        i <= scan_digits_end(s, i) <= s.len(),
    decreases s.len() - i,
{
    if i < s.len() && is_digit(s[i]) {
        lemma_scan_digits_end(s, i + 1);
    }
}

/// The position after all whitespace and block comments starting at `i`, or
/// the error for a comment that never closes.
pub open spec fn skip_trivia(s: Seq<char>, i: int) -> Result<int, LexError>
    decreases s.len() - i,
    when 0 <= i <= s.len()
    via skip_trivia_dec
{
    if i >= s.len() {
        Ok(i)
    } else if is_space(s[i]) {
        skip_trivia(s, i + 1)
    } else if s[i] == '{' {
        if find_char(s, i, '}') >= s.len() {
            Err(LexError::UnclosedComment)
        } else {
            skip_trivia(s, find_char(s, i, '}') + 1)
        }
    } else {
        Ok(i)
    }
}

#[via_fn]
proof fn skip_trivia_dec(s: Seq<char>, i: int) {
    if 0 <= i < s.len() {
        lemma_find_char(s, i, '}');
    }
}

pub proof fn lemma_skip_trivia(s: Seq<char>, i: int)
    requires
        0 <= i <= s.len(),
    ensures
        skip_trivia(s, i) matches Ok(j) ==> i <= j <= s.len(),
    decreases s.len() - i,
{
    if i < s.len() {
        if is_space(s[i]) {
            lemma_skip_trivia(s, i + 1);
        } else if s[i] == '{' {
            lemma_find_char(s, i, '}');
            if find_char(s, i, '}') < s.len() {
                lemma_skip_trivia(s, find_char(s, i, '}') + 1);
            }
        }
    }
}

/// The character an escape sequence stands for.
pub open spec fn esc_char(e: char) -> char {
    if e == 't' {
        '\t'
    } else if e == 'n' {
        '\n'
    } else {
        e
    }
}

/// Scans a string literal's contents beginning at `i` (just past the opening
/// quote); returns the substituted contents and the index just past the
/// closing quote.
pub open spec fn scan_string_body(s: Seq<char>, i: int) -> Result<(Seq<char>, int), LexError>
    decreases s.len() - i,
    when 0 <= i <= s.len()
{
    if i >= s.len() {
        Err(LexError::UnclosedString)
    } else if s[i] == '"' {
        Ok((Seq::empty(), i + 1))
    } else if s[i] == '\\' {
        if i + 1 >= s.len() {
            Err(LexError::UnclosedString)
        } else if s[i + 1] == 't' || s[i + 1] == 'n' || s[i + 1] == '\\' || s[i + 1] == '"' {
            match scan_string_body(s, i + 2) {
                Ok((body, end)) => Ok((seq![esc_char(s[i + 1])].add(body), end)),
                Err(e) => Err(e),
            }
        } else {
            Err(LexError::InvalidEscape(s[i + 1]))
        }
    } else {
        match scan_string_body(s, i + 1) {
            Ok((body, end)) => Ok((seq![s[i]].add(body), end)),
            Err(e) => Err(e),
        }
    }
}

pub proof fn lemma_scan_string_body(s: Seq<char>, i: int)
    requires
        0 <= i <= s.len(),
    ensures
        scan_string_body(s, i) matches Ok(r) ==> i < r.1 <= s.len(),
    decreases s.len() - i,
{
    if i < s.len() && s[i] == '\\' && i + 1 < s.len() {
        lemma_scan_string_body(s, i + 2);
    } else if i < s.len() && s[i] != '"' && s[i] != '\\' {
        lemma_scan_string_body(s, i + 1);
    }
}

/// Value of a run of decimal digits, most significant first.
pub open spec fn digits_val(s: Seq<char>) -> nat
    decreases s.len(),
{
    if s.len() == 0 {
        0
    } else {
        digits_val(s.drop_last()) * 10 + digit_val(s.last())
    }
}

pub open spec fn digit_val(c: char) -> nat {
    ((c as u32) - ('0' as u32)) as nat
}

/// The keyword `div` stands at `i`, with a non-identifier character (or the
/// end of input) right after it.
pub open spec fn keyword_div_at(s: Seq<char>, i: int) -> bool {
    &&& i + 3 <= s.len()
    &&& s[i] == 'd' && s[i + 1] == 'i' && s[i + 2] == 'v'
    &&& (i + 3 == s.len() || !is_ident_char(s[i + 3]))
}

pub open spec fn keyword_label_at(s: Seq<char>, i: int) -> bool {
    &&& i + 5 <= s.len()
    &&& s[i] == 'l' && s[i + 1] == 'a' && s[i + 2] == 'b' && s[i + 3] == 'e' && s[i + 4] == 'l'
    &&& (i + 5 == s.len() || !is_ident_char(s[i + 5]))
}

pub open spec fn keyword_image_at(s: Seq<char>, i: int) -> bool {
    &&& i + 5 <= s.len()
    &&& s[i] == 'i' && s[i + 1] == 'm' && s[i + 2] == 'a' && s[i + 3] == 'g' && s[i + 4] == 'e'
    &&& (i + 5 == s.len() || !is_ident_char(s[i + 5]))
}

pub open spec fn keyword_text_at(s: Seq<char>, i: int) -> bool {
    &&& i + 4 <= s.len()
    &&& s[i] == 't' && s[i + 1] == 'e' && s[i + 2] == 'x' && s[i + 3] == 't'
    &&& (i + 4 == s.len() || !is_ident_char(s[i + 4]))
}

/// The token starting at position `i` (which must hold neither whitespace nor
/// a comment opener) and the position just past it.
pub open spec fn next_token(s: Seq<char>, i: int) -> Result<(TokenModel, int), LexError> {
    let c = s[i];
    if c == ';' {
        Ok((TokenModel::Semicolon, i + 1))
    } else if c == '(' {
        Ok((TokenModel::OpenParen, i + 1))
    } else if c == ')' {
        Ok((TokenModel::CloseParen, i + 1))
    } else if c == '[' {
        Ok((TokenModel::OpenBracket, i + 1))
    } else if c == ']' {
        Ok((TokenModel::CloseBracket, i + 1))
    } else if c == ':' {
        let j = skip_spaces(s, i + 1);
        let k = scan_ident_end(s, j);
        Ok((TokenModel::Id(s.subrange(j, k)), k))
    } else if c == '"' {
        match scan_string_body(s, i + 1) {
            Ok((body, end)) => Ok((TokenModel::Str(body), end)),
            Err(e) => Err(e),
        }
    } else if keyword_div_at(s, i) {
        Ok((TokenModel::Div, i + 3))
    } else if keyword_label_at(s, i) {
        Ok((TokenModel::Label, i + 5))
    } else if keyword_image_at(s, i) {
        Ok((TokenModel::Image, i + 5))
    } else if keyword_text_at(s, i) {
        Ok((TokenModel::Text, i + 4))
    } else if is_digit(c) {
        let k = scan_digits_end(s, i);
        let v = digits_val(s.subrange(i, k));
        if v > usize::MAX as nat {
            Err(LexError::NumberOverflow)
        } else {
            Ok((TokenModel::Num(v), k))
        }
    } else {
        Err(LexError::UnexpectedChar(c))
    }
}

pub proof fn lemma_next_token(s: Seq<char>, i: int)
    requires
        0 <= i < s.len(),
    ensures
        next_token(s, i) matches Ok(r) ==> i < r.1 <= s.len(),
{
    let c = s[i];
    if c == ';' || c == '(' || c == ')' || c == '[' || c == ']' {
    } else if c == ':' {
        lemma_skip_spaces(s, i + 1);
        lemma_scan_ident_end(s, skip_spaces(s, i + 1));
        assert(skip_spaces(s, i + 1) >= i + 1);
    } else if c == '"' {
        lemma_scan_string_body(s, i + 1);
    } else if keyword_div_at(s, i) || keyword_label_at(s, i) || keyword_image_at(s, i)
        || keyword_text_at(s, i) {
    } else if is_digit(c) {
        lemma_scan_digits_end(s, i + 1);
        assert(scan_digits_end(s, i) == scan_digits_end(s, i + 1));
    }
}

/// The token sequence lexed from position `i` to the end of the input.
pub open spec fn tokens_from(s: Seq<char>, i: int) -> Result<Seq<TokenModel>, LexError>
    decreases s.len() - i,
    when 0 <= i <= s.len()
    via tokens_from_dec
{
    match skip_trivia(s, i) {
        Err(e) => Err(e),
        Ok(j) => if j >= s.len() {
            Ok(Seq::empty())
        } else {
            match next_token(s, j) {
                Err(e) => Err(e),
                Ok((t, k)) => match tokens_from(s, k) {
                    Err(e) => Err(e),
                    Ok(rest) => Ok(seq![t].add(rest)),
                },
            }
        },
    }
}

#[via_fn]
proof fn tokens_from_dec(s: Seq<char>, i: int) {
    lemma_skip_trivia(s, i);
    if let Ok(j) = skip_trivia(s, i) {
        if j < s.len() {
            lemma_next_token(s, j);
        }
    }
}

/// What the lexer returns for a whole document: its full token sequence, or
/// the first lexical error.
pub open spec fn spec_tokenize(s: Seq<char>) -> Result<Seq<TokenModel>, LexError> {
    tokens_from(s, 0)
}

fn is_ident_char_exec(c: char) -> (b: bool)
    ensures
        b == is_ident_char(c),
{
    (('a' as u32) <= (c as u32) && (c as u32) <= ('z' as u32))
        || (('A' as u32) <= (c as u32) && (c as u32) <= ('Z' as u32))
        || (('0' as u32) <= (c as u32) && (c as u32) <= ('9' as u32)) || c == '-' || c == '_'
}

fn is_digit_exec(c: char) -> (b: bool)
    ensures
        b == is_digit(c),
{
    ('0' as u32) <= (c as u32) && (c as u32) <= ('9' as u32)
}

fn is_space_exec(c: char) -> (b: bool)
    ensures
        b == is_space(c),
{
    c == ' ' || c == '\r' || c == '\t' || c == '\n'
}

/// Relies on std's String::push: appends one character at the end.
#[verifier::external_body]
fn push_char(s: &mut String, c: char)
    ensures
        final(s)@ == old(s)@.push(c),
{
    s.push(c);
}

fn to_chars(source: &str) -> (r: Vec<char>)
    ensures
        r@ == source@,
{
    let n = source.unicode_len();
    let mut v: Vec<char> = Vec::new();
    let mut i: usize = 0;
    while i < n
        invariant
            n == source@.len(),
            i <= n,
            v@ == source@.subrange(0, i as int),
        decreases n - i,
    {
        let c = source.get_char(i);
        v.push(c);
        i += 1;
        proof {
            assert(v@ =~= source@.subrange(0, i as int));
        }
    }
    proof {
        assert(source@.subrange(0, n as int) =~= source@);
    }
    v
}

fn skip_trivia_exec(s: &Vec<char>, start: usize) -> (r: Result<usize, LexError>)
    requires
        start <= s@.len(),
    ensures
        match r {
            Ok(j) => skip_trivia(s@, start as int) == Ok::<int, LexError>(j as int) && start <= j
                <= s@.len(),
            Err(e) => skip_trivia(s@, start as int) == Err::<int, LexError>(e),
        },
{
    let mut j = start;
    loop
        invariant
            start <= j <= s@.len(),
            skip_trivia(s@, start as int) == skip_trivia(s@, j as int),
        decreases s@.len() - j,
    {
        if j >= s.len() {
            return Ok(j);
        }
        let c = s[j];
        if is_space_exec(c) {
            j += 1;
        } else if c == '{' {
            let ghost j0 = j as int;
            let mut k = j;
            while k < s.len() && s[k] != '}'
                invariant
                    j <= k <= s@.len(),
                    find_char(s@, j as int, '}') == find_char(s@, k as int, '}'),
                decreases s@.len() - k,
            {
                k += 1;
            }
            proof {
                assert(find_char(s@, k as int, '}') == k as int);
                assert(find_char(s@, j0, '}') == k as int);
            }
            if k >= s.len() {
                return Err(LexError::UnclosedComment);
            }
            j = k + 1;
        } else {
            return Ok(j);
        }
    }
}

fn scan_string_exec(s: &Vec<char>, start: usize) -> (r: Result<(String, usize), LexError>)
    requires
        start <= s@.len(),
    ensures
        match r {
            Ok(p) => scan_string_body(s@, start as int) == Ok::<(Seq<char>, int), LexError>(
                (p.0@, p.1 as int),
            ) && start < p.1 <= s@.len(),
            Err(e) => scan_string_body(s@, start as int) == Err::<(Seq<char>, int), LexError>(e),
        },
{
    let mut j = start;
    let mut body = String::new();
    proof {
        match scan_string_body(s@, start as int) {
            Ok(p) => {
                assert(body@ + p.0 =~= p.0);
            },
            Err(_) => {},
        }
    }
    loop
        invariant
            start <= j <= s@.len(),
            str_prepend(body@, scan_string_body(s@, j as int)) == scan_string_body(
                s@,
                start as int,
            ),
        decreases s@.len() - j,
    {
        if j >= s.len() {
            return Err(LexError::UnclosedString);
        }
        let c = s[j];
        if c == '"' {
            proof {
                lemma_scan_string_body(s@, start as int);
                assert(body@ + Seq::<char>::empty() =~= body@);
            }
            return Ok((body, j + 1));
        } else if c == '\\' {
            if j + 1 >= s.len() {
                return Err(LexError::UnclosedString);
            }
            let e = s[j + 1];
            if e == 't' || e == 'n' || e == '\\' || e == '"' {
                let sub = if e == 't' {
                    '\t'
                } else if e == 'n' {
                    '\n'
                } else {
                    e
                };
                proof {
                    assert(sub == esc_char(s@[j as int + 1]));
                    assert(scan_string_body(s@, j as int) == (match scan_string_body(
                        s@,
                        j as int + 2,
                    ) {
                        Ok(p) => Ok::<(Seq<char>, int), LexError>((seq![sub].add(p.0), p.1)),
                        Err(e) => Err::<(Seq<char>, int), LexError>(e),
                    }));
                    lemma_str_prepend_step(body@, sub, s@, j as int, j as int + 2);
                }
                push_char(&mut body, sub);
                j += 2;
            } else {
                return Err(LexError::InvalidEscape(e));
            }
        } else {
            proof {
                assert(scan_string_body(s@, j as int) == (match scan_string_body(
                    s@,
                    j as int + 1,
                ) {
                    Ok(p) => Ok::<(Seq<char>, int), LexError>((seq![c].add(p.0), p.1)),
                    Err(e) => Err::<(Seq<char>, int), LexError>(e),
                }));
                lemma_str_prepend_step(body@, c, s@, j as int, j as int + 1);
            }
            push_char(&mut body, c);
            j += 1;
        }
    }
}

fn next_token_exec(s: &Vec<char>, i: usize) -> (r: Result<(Token, usize), LexError>)
    requires
        i < s@.len(),
    ensures
        match r {
            Ok(p) => next_token(s@, i as int) == Ok::<(TokenModel, int), LexError>(
                (p.0@, p.1 as int),
            ) && i < p.1 <= s@.len(),
            Err(e) => next_token(s@, i as int) == Err::<(TokenModel, int), LexError>(e),
        },
{
    let n = s.len();
    let c = s[i];
    if c == ';' {
        Ok((Token::Semicolon, i + 1))
    } else if c == '(' {
        Ok((Token::OpenParen, i + 1))
    } else if c == ')' {
        Ok((Token::CloseParen, i + 1))
    } else if c == '[' {
        Ok((Token::OpenBracket, i + 1))
    } else if c == ']' {
        Ok((Token::CloseBracket, i + 1))
    } else if c == ':' {
        let mut j = i + 1;
        while j < n && is_space_exec(s[j])
            invariant
                i + 1 <= j <= n,
                n == s@.len(),
                skip_spaces(s@, i as int + 1) == skip_spaces(s@, j as int),
            decreases n - j,
        {
            j += 1;
        }
        proof {
            assert(skip_spaces(s@, j as int) == j as int);
        }
        let mut k = j;
        let mut name = String::new();
        proof {
            assert(name@ =~= s@.subrange(j as int, j as int));
        }
        while k < n && is_ident_char_exec(s[k])
            invariant
                j <= k <= n,
                n == s@.len(),
                scan_ident_end(s@, j as int) == scan_ident_end(s@, k as int),
                name@ == s@.subrange(j as int, k as int),
            decreases n - k,
        {
            push_char(&mut name, s[k]);
            k += 1;
            proof {
                assert(name@ =~= s@.subrange(j as int, k as int));
            }
        }
        proof {
            assert(scan_ident_end(s@, k as int) == k as int);
        }
        Ok((Token::Id(name), k))
    } else if c == '"' {
        match scan_string_exec(s, i + 1) {
            Ok((body, end)) => Ok((Token::Str(body), end)),
            Err(e) => Err(e),
        }
    } else if n - i >= 3 && c == 'd' && s[i + 1] == 'i' && s[i + 2] == 'v' && (n - i == 3
        || !is_ident_char_exec(s[i + 3])) {
        proof {
            assert(keyword_div_at(s@, i as int));
        }
        Ok((Token::Div, i + 3))
    } else if n - i >= 5 && c == 'l' && s[i + 1] == 'a' && s[i + 2] == 'b' && s[i + 3] == 'e' && s[i
        + 4] == 'l' && (n - i == 5 || !is_ident_char_exec(s[i + 5])) {
        proof {
            assert(!keyword_div_at(s@, i as int));
            assert(keyword_label_at(s@, i as int));
        }
        Ok((Token::Label, i + 5))
    } else if n - i >= 5 && c == 'i' && s[i + 1] == 'm' && s[i + 2] == 'a' && s[i + 3] == 'g' && s[i
        + 4] == 'e' && (n - i == 5 || !is_ident_char_exec(s[i + 5])) {
        proof {
            assert(keyword_image_at(s@, i as int));
        }
        Ok((Token::Image, i + 5))
    } else if n - i >= 4 && c == 't' && s[i + 1] == 'e' && s[i + 2] == 'x' && s[i + 3] == 't' && (n
        - i == 4 || !is_ident_char_exec(s[i + 4])) {
        proof {
            assert(keyword_text_at(s@, i as int));
        }
        Ok((Token::Text, i + 4))
    } else if is_digit_exec(c) {
        proof {
            assert(!keyword_div_at(s@, i as int));
            assert(!keyword_label_at(s@, i as int));
            assert(!keyword_image_at(s@, i as int));
            assert(!keyword_text_at(s@, i as int));
        }
        let mut k = i;
        let mut val: usize = 0;
        let mut over = false;
        proof {
            assert(s@.subrange(i as int, i as int) =~= Seq::<char>::empty());
        }
        while k < n && is_digit_exec(s[k])
            invariant
                i <= k <= n,
                n == s@.len(),
                scan_digits_end(s@, i as int) == scan_digits_end(s@, k as int),
                !over ==> val as nat == digits_val(s@.subrange(i as int, k as int)),
                over ==> digits_val(s@.subrange(i as int, k as int)) > usize::MAX as nat,
            decreases n - k,
        {
            let d = (s[k] as u32 - '0' as u32) as usize;
            proof {
                assert(is_digit(s@[k as int]));
                assert(d as nat == digit_val(s@[k as int]));
                assert(s@.subrange(i as int, k as int + 1).drop_last() =~= s@.subrange(
                    i as int,
                    k as int,
                ));
                assert(s@.subrange(i as int, k as int + 1).last() == s@[k as int]);
            }
            if over {
            } else {
                match val.checked_mul(10) {
                    Some(v10) => {
                        match v10.checked_add(d) {
                            Some(v) => {
                                val = v;
                            },
                            None => {
                                over = true;
                            },
                        }
                    },
                    None => {
                        over = true;
                    },
                }
            }
            k += 1;
        }
        proof {
            assert(scan_digits_end(s@, k as int) == k as int);
        }
        if over {
            Err(LexError::NumberOverflow)
        } else {
            Ok((Token::Num(val), k))
        }
    } else {
        proof {
            assert(!keyword_div_at(s@, i as int));
            assert(!keyword_label_at(s@, i as int));
            assert(!keyword_image_at(s@, i as int));
            assert(!keyword_text_at(s@, i as int));
        }
        Err(LexError::UnexpectedChar(c))
    }
}

/// Glues an already-lexed token prefix in front of the rest of a lex.
pub open spec fn tok_prepend(pre: Seq<TokenModel>, r: Result<Seq<TokenModel>, LexError>) -> Result<
    Seq<TokenModel>,
    LexError,
> {
    match r {
        Ok(rest) => Ok(pre + rest),
        Err(e) => Err(e),
    }
}

/// Lexer: the complete ordered token sequence of the document, or the first
/// lexical error.  The result is exactly what the specification-level lexer
/// `spec_tokenize` yields on the document's character sequence.
pub fn tokenize(source: &str) -> (r: Result<Vec<Token>, LexError>)
    ensures
        match r {
            Ok(toks) => spec_tokenize(source@) == Ok::<Seq<TokenModel>, LexError>(models(toks@)),
            Err(e) => spec_tokenize(source@) == Err::<Seq<TokenModel>, LexError>(e),
        },
{
    let chars = to_chars(source);
    let n = chars.len();
    let mut out: Vec<Token> = Vec::new();
    let mut i: usize = 0;
    proof {
        assert(models(out@) =~= Seq::<TokenModel>::empty());
        match tokens_from(chars@, 0) {
            Ok(ts) => {
                assert(models(out@) + ts =~= ts);
            },
            Err(_) => {},
        }
    }
    loop
        invariant
            i <= n,
            n == chars@.len(),
            chars@ == source@,
            tok_prepend(models(out@), tokens_from(chars@, i as int)) == spec_tokenize(source@),
        decreases n - i,
    {
        match skip_trivia_exec(&chars, i) {
            Err(e) => {
                return Err(e);
            },
            Ok(j) => {
                if j >= n {
                    proof {
                        assert(tokens_from(chars@, i as int) == Ok::<Seq<TokenModel>, LexError>(
                            Seq::empty(),
                        ));
                        assert(models(out@) + Seq::<TokenModel>::empty() =~= models(out@));
                    }
                    return Ok(out);
                }
                match next_token_exec(&chars, j) {
                    Err(e) => {
                        return Err(e);
                    },
                    Ok((t, k)) => {
                        proof {
                            lemma_tok_prepend_step(models(out@), t@, chars@, i as int, k as int);
                            lemma_models_push(out@, t);
                        }
                        out.push(t);
                        i = k;
                    },
                }
            },
        }
    }
}

proof fn lemma_models_push(s: Seq<Token>, t: Token)
    ensures
        models(s.push(t)) == models(s).push(t@),
{
    assert(models(s.push(t)) =~= models(s).push(t@));
}

proof fn lemma_tok_prepend_step(pre: Seq<TokenModel>, t: TokenModel, s: Seq<char>, i: int, k: int)
    requires
        0 <= i <= s.len(),
        0 <= k <= s.len(),
        skip_trivia(s, i) matches Ok(j) && j < s.len() && next_token(s, j) == Ok::<
            (TokenModel, int),
            LexError,
        >((t, k)),
    ensures
        tok_prepend(pre, tokens_from(s, i)) == tok_prepend(pre.push(t), tokens_from(s, k)),
{
    match tokens_from(s, k) {
        Ok(rest) => {
            assert(tokens_from(s, i) == Ok::<Seq<TokenModel>, LexError>(seq![t].add(rest)));
            assert(pre + (seq![t].add(rest)) =~= pre.push(t) + rest);
        },
        Err(e2) => {
            assert(tokens_from(s, i) == Err::<Seq<TokenModel>, LexError>(e2));
        },
    }
}

/// Glues already-scanned contents in front of the rest of a string-literal scan.
pub open spec fn str_prepend(pre: Seq<char>, r: Result<(Seq<char>, int), LexError>) -> Result<
    (Seq<char>, int),
    LexError,
> {
    match r {
        Ok(p) => Ok((pre + p.0, p.1)),
        Err(e) => Err(e),
    }
}

proof fn lemma_str_prepend_step(pre: Seq<char>, c: char, s: Seq<char>, j: int, k: int)
    requires
        scan_string_body(s, j) == (match scan_string_body(s, k) {
            Ok(p) => Ok::<(Seq<char>, int), LexError>((seq![c].add(p.0), p.1)),
            Err(e) => Err::<(Seq<char>, int), LexError>(e),
        }),
    ensures
        str_prepend(pre, scan_string_body(s, j)) == str_prepend(
            pre.push(c),
            scan_string_body(s, k),
        ),
{
    match scan_string_body(s, k) {
        Ok(p) => {
            assert(pre + (seq![c].add(p.0)) =~= pre.push(c) + p.0);
        },
        Err(_) => {},
    }
}

} // verus!
