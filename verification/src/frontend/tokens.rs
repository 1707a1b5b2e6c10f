//! Tokens: the words and signs of the source text.

use vstd::prelude::*;
use vstd::std_specs::iter::IteratorSpec;
use vstd::string::{StrSliceExecFns, StringExecFns};

use super::Span;

verus! {

#[derive(Debug)]
pub enum TokenData {
    Entity,
    Behaviour,
    InPorts,
    OutPorts,
    Literal(String),
    OpenCurly,
    CloseCurly,
    OpenParen,
    CloseParen,
    Comma,
    Colon,
    Semicolon,
    Assign,
    PortAssign,
}

/// A token and the stretch of the source that it was read from.
#[derive(Debug)]
pub struct Token(pub TokenData, pub Span);

/// The sort of a token.
#[derive(Debug, Clone, Copy, PartialEq, Eq, Structural)]
pub enum Tag {
    Entity,
    Behaviour,
    InPorts,
    OutPorts,
    Literal,
    OpenCurly,
    CloseCurly,
    OpenParen,
    CloseParen,
    Comma,
    Colon,
    Semicolon,
    Assign,
    PortAssign,
}

/// A token as the sort it is of and the stretch it covers.
pub type Lexeme = (Tag, int, int);

/// Why a text could not be split into tokens.
#[derive(Debug, Clone, Copy, PartialEq, Eq, Structural)]
pub enum LexError {
    /// A `<` that no `=` follows, at the given character.
    LoneAngle(usize),
}

impl TokenData {
    /// The sort of the token.
    pub open spec fn tag_of(self) -> Tag {
        match self {
            TokenData::Entity => Tag::Entity,
            TokenData::Behaviour => Tag::Behaviour,
            TokenData::InPorts => Tag::InPorts,
            TokenData::OutPorts => Tag::OutPorts,
            TokenData::Literal(_) => Tag::Literal,
            TokenData::OpenCurly => Tag::OpenCurly,
            TokenData::CloseCurly => Tag::CloseCurly,
            TokenData::OpenParen => Tag::OpenParen,
            TokenData::CloseParen => Tag::CloseParen,
            TokenData::Comma => Tag::Comma,
            TokenData::Colon => Tag::Colon,
            TokenData::Semicolon => Tag::Semicolon,
            TokenData::Assign => Tag::Assign,
            TokenData::PortAssign => Tag::PortAssign,
        }
    }

    /// The sort of the token.
    pub fn tag(&self) -> (tag: Tag)
        ensures
            tag == self.tag_of(),
    {
        match self {
            TokenData::Entity => Tag::Entity,
            TokenData::Behaviour => Tag::Behaviour,
            TokenData::InPorts => Tag::InPorts,
            TokenData::OutPorts => Tag::OutPorts,
            TokenData::Literal(_) => Tag::Literal,
            TokenData::OpenCurly => Tag::OpenCurly,
            TokenData::CloseCurly => Tag::CloseCurly,
            TokenData::OpenParen => Tag::OpenParen,
            TokenData::CloseParen => Tag::CloseParen,
            TokenData::Comma => Tag::Comma,
            TokenData::Colon => Tag::Colon,
            TokenData::Semicolon => Tag::Semicolon,
            TokenData::Assign => Tag::Assign,
            TokenData::PortAssign => Tag::PortAssign,
        }
    }
}

impl Clone for TokenData {
    fn clone(&self) -> (copy: Self)
        ensures
            copy == *self,
    {
        match self {
            TokenData::Entity => TokenData::Entity,
            TokenData::Behaviour => TokenData::Behaviour,
            TokenData::InPorts => TokenData::InPorts,
            TokenData::OutPorts => TokenData::OutPorts,
            TokenData::Literal(text) => TokenData::Literal(text.clone()),
            TokenData::OpenCurly => TokenData::OpenCurly,
            TokenData::CloseCurly => TokenData::CloseCurly,
            TokenData::OpenParen => TokenData::OpenParen,
            TokenData::CloseParen => TokenData::CloseParen,
            TokenData::Comma => TokenData::Comma,
            TokenData::Colon => TokenData::Colon,
            TokenData::Semicolon => TokenData::Semicolon,
            TokenData::Assign => TokenData::Assign,
            TokenData::PortAssign => TokenData::PortAssign,
        }
    }
}

impl Token {
    /// The sort of the token.
    pub open spec fn kind(self) -> Tag {
        self.0.tag_of()
    }
}

impl Clone for Token {
    fn clone(&self) -> (copy: Self)
        ensures
            copy == *self,
    {
        Token(self.0.clone(), self.1.clone())
    }
}

/// The sign that `c` stands for, if it is one that ends a word and is a
/// token of its own.
pub open spec fn sign(c: char) -> Option<Tag> {
    if c == ';' {
        Some(Tag::Semicolon)
    } else if c == ':' {
        Some(Tag::Colon)
    } else if c == ',' {
        Some(Tag::Comma)
    } else if c == '(' {
        Some(Tag::OpenParen)
    } else if c == ')' {
        Some(Tag::CloseParen)
    } else if c == '{' {
        Some(Tag::OpenCurly)
    } else if c == '}' {
        Some(Tag::CloseCurly)
    } else {
        None
    }
}

/// Whether `c` ends a word: a space, a line end, or a sign.
pub open spec fn ends_word(c: char) -> bool {
    c == ' ' || c == '\n' || sign(c) is Some
}

/// The sort of the word `word`: one of the four keywords, or a literal.
pub open spec fn word_tag(word: Seq<char>) -> Tag {
    if word == "entity"@ {
        Tag::Entity
    } else if word == "behaviour"@ {
        Tag::Behaviour
    } else if word == "in_ports"@ {
        Tag::InPorts
    } else if word == "out_ports"@ {
        Tag::OutPorts
    } else {
        Tag::Literal
    }
}

/// The tokens that the character at `i` completes, where the word that is
/// being read began at `start`: the word, if one has been read, and then
/// the sign that ends it, if it is one.
pub open spec fn completed(chars: Seq<char>, i: int, start: int) -> Seq<Lexeme> {
    let word = if i > start {
        seq![(word_tag(chars.subrange(start, i)), start, i)]
    } else {
        Seq::empty()
    };
    match sign(chars[i]) {
        Some(tag) => word + seq![(tag, i, i + 1)],
        None => word,
    }
}

/// `tokens` before whatever `rest` holds.
pub open spec fn before(tokens: Seq<Lexeme>, rest: Result<Seq<Lexeme>, LexError>) -> Result<
    Seq<Lexeme>,
    LexError,
> {
    match rest {
        Ok(more) => Ok(tokens + more),
        Err(e) => Err(e),
    }
}

/// The tokens of `chars` from the character at `i` on, where the word that
/// is being read began at `start`. A word ends at a space, a line end or a
/// sign; `=` and `<=` are tokens wherever they stand, and what was read of a
/// word before them is dropped, as is a word that the text ends in.
pub open spec fn lex(chars: Seq<char>, i: int, start: int) -> Result<Seq<Lexeme>, LexError>
    decreases chars.len() - i,
{
    if i < 0 || i >= chars.len() {
        Ok(Seq::empty())
    } else if chars[i] == '<' {
        if i + 1 < chars.len() && chars[i + 1] == '=' {
            before(seq![(Tag::PortAssign, i, i + 2)], lex(chars, i + 2, i + 2))
        } else {
            Err(LexError::LoneAngle(i as usize))
        }
    } else if chars[i] == '=' {
        before(seq![(Tag::Assign, i, i + 1)], lex(chars, i + 1, i + 1))
    } else if ends_word(chars[i]) {
        before(completed(chars, i, start), lex(chars, i + 1, i + 1))
    } else {
        lex(chars, i + 1, start)
    }
}

/// Whether `token` is the token that `lexeme` describes in the text
/// `chars`, which begins at the character `offset` of the source.
pub open spec fn reads(token: Token, lexeme: Lexeme, chars: Seq<char>, offset: int) -> bool {
    &&& token.0.tag_of() == lexeme.0
    &&& token.1.start == offset + lexeme.1
    &&& token.1.end == offset + lexeme.2
    &&& token.1.text@ == chars.subrange(lexeme.1, lexeme.2)
    &&& token.0 matches TokenData::Literal(text) ==> text@ == token.1.text@
}

/// Whether `tokens` are the tokens that `lexemes` describe.
pub open spec fn read_all(
    tokens: Seq<Token>,
    lexemes: Seq<Lexeme>,
    chars: Seq<char>,
    offset: int,
) -> bool {
    &&& tokens.len() == lexemes.len()
    &&& forall|k: int|
        0 <= k < tokens.len() ==> reads(#[trigger] tokens[k], lexemes[k], chars, offset)
}

/// The characters of `text`.
pub fn chars_of(text: &str) -> (chars: Vec<char>)
    ensures
        chars@ == text@,
{
    let mut chars: Vec<char> = Vec::new();
    let mut rest = text.chars();
    loop
        invariant
            rest.obeys_prophetic_iter_laws(),
            rest.decrease() is Some,
            chars@ + rest.remaining() == text@,
        ensures
            chars@ == text@,
        decreases rest.decrease()->0,
    {
        let ghost before = chars@;
        let ghost left = rest.remaining();
        match rest.next() {
            Some(c) => {
                chars.push(c);
                proof {
                    assert(before.push(c) + left.drop_first() =~= before + left);
                }
            },
            None => {
                proof {
                    assert(before + left =~= before);
                }
                break ;
            },
        }
    }
    chars
}

/// The token for the word that `span` covers.
fn word_token(span: Span) -> (token: Token)
    ensures
        token.1 == span,
        token.0.tag_of() == word_tag(span.text@),
        token.0 matches TokenData::Literal(text) ==> text@ == span.text@,
{
    if span.text == String::from_str("entity") {
        Token(TokenData::Entity, span)
    } else if span.text == String::from_str("behaviour") {
        Token(TokenData::Behaviour, span)
    } else if span.text == String::from_str("in_ports") {
        Token(TokenData::InPorts, span)
    } else if span.text == String::from_str("out_ports") {
        Token(TokenData::OutPorts, span)
    } else {
        let text = span.text.clone();
        Token(TokenData::Literal(text), span)
    }
}

/// The token for the sign `c`, if it is one.
fn sign_token(c: char, span: Span) -> (token: Option<Token>)
    ensures
        match sign(c) {
            Some(tag) => token matches Some(t) && t.0.tag_of() == tag && t.1 == span && !(t.0
                is Literal),
            None => token is None,
        },
{
    if c == ';' {
        Some(Token(TokenData::Semicolon, span))
    } else if c == ':' {
        Some(Token(TokenData::Colon, span))
    } else if c == ',' {
        Some(Token(TokenData::Comma, span))
    } else if c == '(' {
        Some(Token(TokenData::OpenParen, span))
    } else if c == ')' {
        Some(Token(TokenData::CloseParen, span))
    } else if c == '{' {
        Some(Token(TokenData::OpenCurly, span))
    } else if c == '}' {
        Some(Token(TokenData::CloseCurly, span))
    } else {
        None
    }
}

/// Splits the text of `span` into tokens.
pub fn tokenize(span: Span) -> (result: Result<Vec<Token>, LexError>)
    requires
        span.wf(),
    ensures
        match lex(span.text@, 0, 0) {
            Ok(lexemes) => result matches Ok(tokens) && read_all(
                tokens@,
                lexemes,
                span.text@,
                span.start as int,
            ),
            Err(e) => result == Err::<Vec<Token>, LexError>(e),
        },
{
    let chars = chars_of(span.content());
    let base = span.start;
    let mut tokens: Vec<Token> = Vec::new();
    let ghost mut done: Seq<Lexeme> = Seq::empty();
    let mut start: usize = 0;
    let mut i: usize = 0;
    proof {
        assert(before(done, lex(chars@, 0, 0)) == lex(chars@, 0, 0)) by {
            match lex(chars@, 0, 0) {
                Ok(more) => {
                    assert(done + more =~= more);
                },
                Err(_) => {},
            }
        }
    }
    while i < chars.len()
        invariant
            span.wf(),
            base == span.start,
            chars@ == span.text@,
            0 <= start <= i <= chars.len(),
            before(done, lex(chars@, i as int, start as int)) == lex(chars@, 0, 0),
            read_all(tokens@, done, chars@, base as int),
        decreases chars.len() - i,
    {
        let c = chars[i];
        let ghost rest_here = lex(chars@, i as int, start as int);
        if c == '<' {
            if i + 1 < chars.len() && chars[i + 1] == '=' {
                tokens.push(Token(TokenData::PortAssign, span.sub_span(base + i, base + i + 2)));
                proof {
                    let more = seq![(Tag::PortAssign, i as int, i + 2)];
                    lemma_before_assoc(done, more, lex(chars@, i + 2, i + 2));
                    done = done + more;
                }
                i += 2;
                start = i;
            } else {
                return Err(LexError::LoneAngle(i));
            }
        } else if c == '=' {
            tokens.push(Token(TokenData::Assign, span.sub_span(base + i, base + i + 1)));
            proof {
                let more = seq![(Tag::Assign, i as int, i + 1)];
                lemma_before_assoc(done, more, lex(chars@, i + 1, i + 1));
                done = done + more;
            }
            i += 1;
            start = i;
        } else if c == ' ' || c == '\n' || c == ';' || c == ':' || c == ',' || c == '(' || c == ')'
            || c == '{' || c == '}' {
            let ghost mut more: Seq<Lexeme> = Seq::empty();
            if i > start {
                tokens.push(word_token(span.sub_span(base + start, base + i)));
                proof {
                    more = more.push(
                        (word_tag(chars@.subrange(start as int, i as int)), start as int, i as int),
                    );
                }
            }
            match sign_token(c, span.sub_span(base + i, base + i + 1)) {
                Some(token) => {
                    tokens.push(token);
                    proof {
                        more = more.push((sign(c)->0, i as int, i + 1));
                    }
                },
                None => {},
            }
            proof {
                assert(more =~= completed(chars@, i as int, start as int));
                lemma_before_assoc(done, more, lex(chars@, i + 1, i + 1));
                done = done + more;
            }
            i += 1;
            start = i;
        } else {
            i += 1;
        }
    }
    proof {
        assert(done + Seq::<Lexeme>::empty() =~= done);
    }
    Ok(tokens)
}

/// Putting tokens before tokens before a rest is putting them before the
/// rest one after the other.
proof fn lemma_before_assoc(a: Seq<Lexeme>, b: Seq<Lexeme>, rest: Result<Seq<Lexeme>, LexError>)
    ensures
        before(a, before(b, rest)) == before(a + b, rest),
{
    match rest {
        Ok(more) => {
            assert(a + (b + more) =~= (a + b) + more);
        },
        Err(_) => {},
    }
}

} // verus!
