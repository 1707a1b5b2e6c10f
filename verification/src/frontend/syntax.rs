//! Syntax: the tokens of a source as entities with their ports and
//! statements.

use vstd::prelude::*;

use super::tokens::{Tag, Token};
use super::Span;

pub mod scopeiter;

pub use scopeiter::ScopeIter;
use scopeiter::{scope_next, Cursor};

verus! {

/// The sorts of token that a parser can have expected.
#[derive(Debug, Clone, Copy, PartialEq, Eq, Structural)]
pub enum TokenNames {
    Entity,
    Literal,
    InPorts,
    OutPorts,
    Behaviour,
    OpenCurly,
    OpenParen,
    CloseParen,
    Comma,
    Colon,
    Semicolon,
    Assign,
    PortAssign,
}

/// Why tokens could not be read as entities.
#[derive(Debug)]
pub enum Error {
    /// The tokens end after the keyword `entity`.
    MissingEntityName,
    /// A token of another sort than any of `expected` stands where one of
    /// them must.
    UnexpectedToken { expected: Vec<TokenNames>, got: Token },
    /// The tokens, or the scope that is being read, end where a token must
    /// stand.
    UnexpectedEnd,
}

/// An error as the token it is about and what was expected in its place.
pub enum Fault {
    MissingEntityName,
    UnexpectedToken { expected: Seq<TokenNames>, got: Token },
    UnexpectedEnd,
}

impl Error {
    /// The error as a fault.
    pub open spec fn view(&self) -> Fault {
        match *self {
            Error::MissingEntityName => Fault::MissingEntityName,
            Error::UnexpectedToken { expected, got } => Fault::UnexpectedToken {
                expected: expected@,
                got,
            },
            Error::UnexpectedEnd => Fault::UnexpectedEnd,
        }
    }
}

#[derive(Debug)]
pub enum BehaviourValue {
    Operation { name: Token, arguments: Vec<Token> },
    Variables { vars: Vec<Token> },
}

#[derive(Debug)]
pub enum BehaviourStatement {
    PortAssign { targets: Vec<Token>, value: BehaviourValue },
    VarAssign { targets: Vec<Token>, value: BehaviourValue },
}

#[derive(Debug)]
pub struct Entity {
    pub name: Span,
    pub in_ports: Vec<(Token, Token)>,
    pub out_ports: Vec<(Token, Token)>,
    pub behaviour: Vec<BehaviourStatement>,
}

/// A value as it was written.
pub enum Value {
    Operation { name: Token, arguments: Seq<Token> },
    Variables { vars: Seq<Token> },
}

/// A statement as it was written.
pub enum Statement {
    PortAssign { targets: Seq<Token>, value: Value },
    VarAssign { targets: Seq<Token>, value: Value },
}

/// An entity as it was written.
pub struct Written {
    pub name: Span,
    pub in_ports: Seq<(Token, Token)>,
    pub out_ports: Seq<(Token, Token)>,
    pub behaviour: Seq<Statement>,
}

impl BehaviourValue {
    pub open spec fn view(&self) -> Value {
        match *self {
            BehaviourValue::Operation { name, arguments } => Value::Operation {
                name,
                arguments: arguments@,
            },
            BehaviourValue::Variables { vars } => Value::Variables { vars: vars@ },
        }
    }
}

impl BehaviourStatement {
    pub open spec fn view(&self) -> Statement {
        match *self {
            BehaviourStatement::PortAssign { targets, value } => Statement::PortAssign {
                targets: targets@,
                value: value@,
            },
            BehaviourStatement::VarAssign { targets, value } => Statement::VarAssign {
                targets: targets@,
                value: value@,
            },
        }
    }
}

/// The statements of `list` as they were written.
pub open spec fn statements(list: Seq<BehaviourStatement>) -> Seq<Statement> {
    Seq::new(list.len(), |i: int| list[i]@)
}

impl Entity {
    pub open spec fn view(&self) -> Written {
        Written {
            name: self.name,
            in_ports: self.in_ports@,
            out_ports: self.out_ports@,
            behaviour: statements(self.behaviour@),
        }
    }
}

/// The entities of `list` as they were written.
pub open spec fn written(list: Seq<Entity>) -> Seq<Written> {
    Seq::new(list.len(), |i: int| list[i]@)
}

/// What a parser makes of the tokens from a cursor on: what it read, or
/// why it could not, and where it stands then.
pub type Parsed<T> = (Result<T, Fault>, Cursor);

/// A token of another sort than any of `expected`.
pub open spec fn unexpected<T>(expected: Seq<TokenNames>, got: Token, cur: Cursor) -> Parsed<T> {
    (Err(Fault::UnexpectedToken { expected, got }), cur)
}

/// `first` before what `rest` read.
pub open spec fn cons<T>(first: T, rest: Parsed<Seq<T>>) -> Parsed<Seq<T>> {
    match rest.0 {
        Ok(more) => (Ok(seq![first] + more), rest.1),
        Err(e) => (Err(e), rest.1),
    }
}

/// The names between round brackets, the opening bracket having been read:
/// literals with commas between them, up to the closing bracket. A comma
/// may stand before the closing bracket, and the list also ends where the
/// scope does.
pub open spec fn args(tokens: Seq<Token>, cur: Cursor, base: int) -> Parsed<Seq<Token>>
    decreases tokens.len() - cur.pos,
{
    let (first, cur1) = scope_next(tokens, cur, base);
    match first {
        None => (Ok(Seq::empty()), cur1),
        Some(token) => match token.kind() {
            Tag::CloseParen => (Ok(Seq::empty()), cur1),
            Tag::Literal => {
                let (second, cur2) = scope_next(tokens, cur1, base);
                match second {
                    None => (Err(Fault::UnexpectedEnd), cur2),
                    Some(sep) => match sep.kind() {
                        Tag::Comma => cons(token, args(tokens, cur2, base)),
                        Tag::CloseParen => (Ok(seq![token]), cur2),
                        _ => unexpected(seq![TokenNames::Comma, TokenNames::CloseParen], sep, cur2),
                    },
                }
            },
            _ => unexpected(seq![TokenNames::Literal, TokenNames::CloseParen], token, cur1),
        },
    }
}

/// The ports of a port list, its opening bracket having been read: for
/// each port a name, a colon, a type and a semicolon, up to the end of the
/// scope.
pub open spec fn ports(tokens: Seq<Token>, cur: Cursor, base: int) -> Parsed<Seq<(Token, Token)>>
    decreases tokens.len() - cur.pos,
{
    let (first, cur1) = scope_next(tokens, cur, base);
    match first {
        None => (Ok(Seq::empty()), cur1),
        Some(name) => if name.kind() != Tag::Literal {
            unexpected(seq![TokenNames::Literal], name, cur1)
        } else {
            let (colon, cur2) = scope_next(tokens, cur1, base);
            match colon {
                None => (Err(Fault::UnexpectedEnd), cur2),
                Some(colon) => if colon.kind() != Tag::Colon {
                    unexpected(seq![TokenNames::Colon], colon, cur2)
                } else {
                    let (ty, cur3) = scope_next(tokens, cur2, base);
                    match ty {
                        None => (Err(Fault::UnexpectedEnd), cur3),
                        Some(ty) => {
                            let (semi, cur4) = scope_next(tokens, cur3, base);
                            match semi {
                                None => (Err(Fault::UnexpectedEnd), cur4),
                                Some(semi) => if semi.kind() != Tag::Semicolon {
                                    unexpected(seq![TokenNames::Semicolon], semi, cur4)
                                } else {
                                    cons((name, ty), ports(tokens, cur4, base))
                                },
                            }
                        },
                    }
                },
            }
        },
    }
}

/// A value: a name with its arguments in round brackets, or a list of
/// names in round brackets alone.
pub open spec fn value(tokens: Seq<Token>, cur: Cursor, base: int) -> Parsed<Value> {
    let (first, cur1) = scope_next(tokens, cur, base);
    match first {
        None => (Err(Fault::UnexpectedEnd), cur1),
        Some(token) => match token.kind() {
            Tag::Literal => {
                let (open, cur2) = scope_next(tokens, cur1, base);
                match open {
                    None => (Err(Fault::UnexpectedEnd), cur2),
                    Some(open) => if open.kind() != Tag::OpenParen {
                        unexpected(seq![TokenNames::OpenParen], open, cur2)
                    } else {
                        let read = args(tokens, cur2, base);
                        match read.0 {
                            Ok(arguments) => (Ok(Value::Operation { name: token, arguments }), read.1),
                            Err(e) => (Err(e), read.1),
                        }
                    },
                }
            },
            Tag::OpenParen => {
                let read = args(tokens, cur1, base);
                match read.0 {
                    Ok(vars) => (Ok(Value::Variables { vars }), read.1),
                    Err(e) => (Err(e), read.1),
                }
            },
            _ => unexpected(seq![TokenNames::Literal, TokenNames::OpenParen], token, cur1),
        },
    }
}

/// One statement, the opening bracket of its targets having been read: the
/// targets, `=` or `<=`, a value, and a semicolon.
pub open spec fn statement(tokens: Seq<Token>, cur: Cursor, base: int) -> Parsed<Statement> {
    let targets = args(tokens, cur, base);
    match targets.0 {
        Err(e) => (Err(e), targets.1),
        Ok(targets_read) => {
            let (sign, cur1) = scope_next(tokens, targets.1, base);
            match sign {
                None => (Err(Fault::UnexpectedEnd), cur1),
                Some(sign) => if sign.kind() != Tag::Assign && sign.kind()
                    != Tag::PortAssign {
                    unexpected(seq![TokenNames::Assign, TokenNames::PortAssign], sign, cur1)
                } else {
                    let read = value(tokens, cur1, base);
                    match read.0 {
                        Err(e) => (Err(e), read.1),
                        Ok(value_read) => {
                            let (end, cur2) = scope_next(tokens, read.1, base);
                            match end {
                                None => (Err(Fault::UnexpectedEnd), cur2),
                                Some(end) => if end.kind() != Tag::Semicolon {
                                    unexpected(seq![TokenNames::Semicolon], end, cur2)
                                } else if sign.kind() == Tag::Assign {
                                    (
                                        Ok(
                                            Statement::VarAssign {
                                                targets: targets_read,
                                                value: value_read,
                                            },
                                        ),
                                        cur2,
                                    )
                                } else {
                                    (
                                        Ok(
                                            Statement::PortAssign {
                                                targets: targets_read,
                                                value: value_read,
                                            },
                                        ),
                                        cur2,
                                    )
                                },
                            }
                        },
                    }
                },
            }
        },
    }
}

/// Reading arguments never moves the cursor back.
pub proof fn lemma_args_moves(tokens: Seq<Token>, cur: Cursor, base: int)
    requires
        0 <= cur.pos <= tokens.len(),
    ensures
        cur.pos <= args(tokens, cur, base).1.pos <= tokens.len(),
    decreases tokens.len() - cur.pos,
{
    let (first, cur1) = scope_next(tokens, cur, base);
    if first is Some && first->0.kind() == Tag::Literal {
        let (second, cur2) = scope_next(tokens, cur1, base);
        if second is Some && second->0.kind() == Tag::Comma {
            lemma_args_moves(tokens, cur2, base);
        }
    }
}

/// Reading a value never moves the cursor back.
pub proof fn lemma_value_moves(tokens: Seq<Token>, cur: Cursor, base: int)
    requires
        0 <= cur.pos <= tokens.len(),
    ensures
        cur.pos <= value(tokens, cur, base).1.pos <= tokens.len(),
{
    let (first, cur1) = scope_next(tokens, cur, base);
    if first is Some {
        if first->0.kind() == Tag::Literal {
            let (open, cur2) = scope_next(tokens, cur1, base);
            if open is Some && open->0.kind() == Tag::OpenParen {
                lemma_args_moves(tokens, cur2, base);
            }
        } else if first->0.kind() == Tag::OpenParen {
            lemma_args_moves(tokens, cur1, base);
        }
    }
}

/// Reading a statement never moves the cursor back.
pub proof fn lemma_statement_moves(tokens: Seq<Token>, cur: Cursor, base: int)
    requires
        0 <= cur.pos <= tokens.len(),
    ensures
        cur.pos <= statement(tokens, cur, base).1.pos <= tokens.len(),
{
    lemma_args_moves(tokens, cur, base);
    let targets = args(tokens, cur, base);
    if targets.0 is Ok {
        let (sign, cur1) = scope_next(tokens, targets.1, base);
        if sign is Some && (sign->0.kind() == Tag::Assign || sign->0.kind()
            == Tag::PortAssign) {
            lemma_value_moves(tokens, cur1, base);
        }
    }
}

/// The statements of a behaviour, its opening bracket having been read:
/// each begins with the opening bracket of its targets, up to the end of
/// the scope.
pub open spec fn behaviour(tokens: Seq<Token>, cur: Cursor, base: int) -> Parsed<Seq<Statement>>
    decreases tokens.len() - cur.pos,
{
    let (first, cur1) = scope_next(tokens, cur, base);
    match first {
        None => (Ok(Seq::empty()), cur1),
        Some(open) => if open.kind() != Tag::OpenParen {
            unexpected(seq![TokenNames::OpenParen], open, cur1)
        } else if 0 <= cur.pos <= tokens.len() {
            proof {
                lemma_statement_moves(tokens, cur1, base);
            }
            let read = statement(tokens, cur1, base);
            match read.0 {
                Err(e) => (Err(e), read.1),
                Ok(one) => cons(one, behaviour(tokens, read.1, base)),
            }
        } else {
            (Err(Fault::UnexpectedEnd), cur1)
        },
    }
}

/// Reading ports never moves the cursor back.
pub proof fn lemma_ports_moves(tokens: Seq<Token>, cur: Cursor, base: int)
    requires
        0 <= cur.pos <= tokens.len(),
    ensures
        cur.pos <= ports(tokens, cur, base).1.pos <= tokens.len(),
    decreases tokens.len() - cur.pos,
{
    let (first, cur1) = scope_next(tokens, cur, base);
    if first is Some && first->0.kind() == Tag::Literal {
        let (colon, cur2) = scope_next(tokens, cur1, base);
        if colon is Some && colon->0.kind() == Tag::Colon {
            let (ty, cur3) = scope_next(tokens, cur2, base);
            if ty is Some {
                let (semi, cur4) = scope_next(tokens, cur3, base);
                if semi is Some && semi->0.kind() == Tag::Semicolon {
                    lemma_ports_moves(tokens, cur4, base);
                }
            }
        }
    }
}

/// Reading a behaviour never moves the cursor back.
pub proof fn lemma_behaviour_moves(tokens: Seq<Token>, cur: Cursor, base: int)
    requires
        0 <= cur.pos <= tokens.len(),
    ensures
        cur.pos <= behaviour(tokens, cur, base).1.pos <= tokens.len(),
    decreases tokens.len() - cur.pos,
{
    let (first, cur1) = scope_next(tokens, cur, base);
    if first is Some && first->0.kind() == Tag::OpenParen {
        lemma_statement_moves(tokens, cur1, base);
        let read = statement(tokens, cur1, base);
        if read.0 is Ok {
            lemma_behaviour_moves(tokens, read.1, base);
        }
    }
}

/// The sections of an entity, its opening bracket having been read: port
/// lists and behaviours in any order, each a keyword and a scope of its
/// own, up to the end of the entity's scope. Of two sections of one sort
/// the later counts.
pub open spec fn sections(tokens: Seq<Token>, cur: Cursor, base: int, so_far: Written) -> Parsed<
    Written,
>
    decreases tokens.len() - cur.pos,
{
    let (first, cur1) = scope_next(tokens, cur, base);
    match first {
        None => (Ok(so_far), cur1),
        Some(keyword) => if keyword.kind() != Tag::InPorts && keyword.kind() != Tag::OutPorts
            && keyword.kind() != Tag::Behaviour {
            unexpected(
                seq![TokenNames::InPorts, TokenNames::OutPorts, TokenNames::Behaviour],
                keyword,
                cur1,
            )
        } else {
            let (open, cur2) = scope_next(tokens, cur1, base);
            match open {
                None => (Err(Fault::UnexpectedEnd), cur2),
                Some(open) => if open.kind() != Tag::OpenCurly {
                    unexpected(seq![TokenNames::OpenCurly], open, cur2)
                } else if !(0 <= cur.pos <= tokens.len()) {
                    (Err(Fault::UnexpectedEnd), cur2)
                } else if keyword.kind() == Tag::Behaviour {
                    proof {
                        lemma_behaviour_moves(tokens, cur2, cur2.depth);
                    }
                    let read = behaviour(tokens, cur2, cur2.depth);
                    match read.0 {
                        Err(e) => (Err(e), read.1),
                        Ok(list) => sections(
                            tokens,
                            read.1,
                            base,
                            Written { behaviour: list, ..so_far },
                        ),
                    }
                } else {
                    proof {
                        lemma_ports_moves(tokens, cur2, cur2.depth);
                    }
                    let read = ports(tokens, cur2, cur2.depth);
                    match read.0 {
                        Err(e) => (Err(e), read.1),
                        Ok(list) => sections(
                            tokens,
                            read.1,
                            base,
                            if keyword.kind() == Tag::InPorts {
                                Written { in_ports: list, ..so_far }
                            } else {
                                Written { out_ports: list, ..so_far }
                            },
                        ),
                    }
                },
            }
        },
    }
}

/// Reading sections never moves the cursor back.
pub proof fn lemma_sections_moves(tokens: Seq<Token>, cur: Cursor, base: int, so_far: Written)
    requires
        0 <= cur.pos <= tokens.len(),
    ensures
        cur.pos <= sections(tokens, cur, base, so_far).1.pos <= tokens.len(),
    decreases tokens.len() - cur.pos,
{
    let (first, cur1) = scope_next(tokens, cur, base);
    if first is Some {
        let keyword = first->0;
        if keyword.kind() == Tag::InPorts || keyword.kind() == Tag::OutPorts || keyword.kind()
            == Tag::Behaviour {
            let (open, cur2) = scope_next(tokens, cur1, base);
            if open is Some && open->0.kind() == Tag::OpenCurly {
                if keyword.kind() == Tag::Behaviour {
                    lemma_behaviour_moves(tokens, cur2, cur2.depth);
                    let read = behaviour(tokens, cur2, cur2.depth);
                    if read.0 is Ok {
                        lemma_sections_moves(
                            tokens,
                            read.1,
                            base,
                            Written { behaviour: read.0->Ok_0, ..so_far },
                        );
                    }
                } else {
                    lemma_ports_moves(tokens, cur2, cur2.depth);
                    let read = ports(tokens, cur2, cur2.depth);
                    if read.0 is Ok {
                        lemma_sections_moves(
                            tokens,
                            read.1,
                            base,
                            if keyword.kind() == Tag::InPorts {
                                Written { in_ports: read.0->Ok_0, ..so_far }
                            } else {
                                Written { out_ports: read.0->Ok_0, ..so_far }
                            },
                        );
                    }
                }
            }
        }
    }
}

/// An entity without ports or statements.
pub open spec fn bare(name: Span) -> Written {
    Written { name, in_ports: Seq::empty(), out_ports: Seq::empty(), behaviour: Seq::empty() }
}

/// The entities of a source from the token at `pos` on: for each the
/// keyword `entity`, a name, and a scope with its sections.
pub open spec fn all_entities(tokens: Seq<Token>, pos: int) -> Result<Seq<Written>, Fault>
    decreases tokens.len() - pos,
{
    if pos < 0 || pos >= tokens.len() {
        Ok(Seq::empty())
    } else if tokens[pos].kind() != Tag::Entity {
        Err(Fault::UnexpectedToken { expected: seq![TokenNames::Entity], got: tokens[pos] })
    } else if pos + 1 >= tokens.len() {
        Err(Fault::MissingEntityName)
    } else if tokens[pos + 1].kind() != Tag::Literal {
        Err(Fault::UnexpectedToken { expected: seq![TokenNames::Literal], got: tokens[pos + 1] })
    } else if pos + 2 >= tokens.len() {
        Err(Fault::UnexpectedEnd)
    } else if tokens[pos + 2].kind() != Tag::OpenCurly {
        Err(Fault::UnexpectedToken { expected: seq![TokenNames::OpenCurly], got: tokens[pos + 2] })
    } else {
        let inside = Cursor { pos: pos + 3, depth: 1 };
        proof {
            lemma_sections_moves(tokens, inside, 1, bare(tokens[pos + 1].1));
        }
        let read = sections(tokens, inside, 1, bare(tokens[pos + 1].1));
        match read.0 {
            Err(e) => Err(e),
            Ok(entity) => match all_entities(tokens, read.1.pos) {
                Ok(more) => Ok(seq![entity] + more),
                Err(e) => Err(e),
            },
        }
    }
}

/// `done` before what `rest` read.
pub open spec fn glue<T>(done: Seq<T>, rest: Parsed<Seq<T>>) -> Parsed<Seq<T>> {
    match rest.0 {
        Ok(more) => (Ok(done + more), rest.1),
        Err(e) => (Err(e), rest.1),
    }
}

/// Gluing one more item on is gluing it on with the rest.
pub proof fn lemma_glue_cons<T>(done: Seq<T>, item: T, rest: Parsed<Seq<T>>)
    ensures
        glue(done, cons(item, rest)) == glue(done.push(item), rest),
{
    match rest.0 {
        Ok(more) => {
            assert(done + (seq![item] + more) =~= done.push(item) + more);
        },
        Err(_) => {},
    }
}

/// Whether `result` is what the parser was to make of its tokens.
pub open spec fn tokens_read(result: Result<Vec<Token>, Error>, model: Result<Seq<Token>, Fault>) -> bool {
    match model {
        Ok(list) => result matches Ok(read) && read@ == list,
        Err(fault) => result matches Err(e) && e@ == fault,
    }
}

/// An error for a token of another sort than any of `expected`.
fn unexpected_token(expected: Vec<TokenNames>, got: Token) -> (e: Error)
    ensures
        e@ == (Fault::UnexpectedToken { expected: expected@, got }),
{
    Error::UnexpectedToken { expected, got }
}

/// Reads the names between round brackets, the opening bracket having
/// been read.
pub fn parse_args(stream: &mut ScopeIter, base: usize) -> (result: Result<Vec<Token>, Error>)
    requires
        old(stream).wf(),
        base >= 1,
    ensures
        final(stream).wf(),
        final(stream).tokens == old(stream).tokens,
        final(stream).cursor() == args(old(stream).tokens@, old(stream).cursor(), base as int).1,
        tokens_read(result, args(old(stream).tokens@, old(stream).cursor(), base as int).0),
{
    let mut out: Vec<Token> = Vec::new();
    let ghost tokens = stream.tokens@;
    let ghost start = stream.cursor();
    proof {
        let all = args(tokens, start, base as int);
        match all.0 {
            Ok(more) => {
                assert(out@ + more =~= more);
            },
            Err(_) => {},
        }
    }
    loop
        invariant_except_break
            glue(out@, args(tokens, stream.cursor(), base as int)) == args(
                tokens,
                start,
                base as int,
            ),
        invariant
            stream.wf(),
            base >= 1,
            stream.tokens == old(stream).tokens,
            tokens == old(stream).tokens@,
            start == old(stream).cursor(),
        ensures
            stream.wf(),
            stream.tokens == old(stream).tokens,
            args(tokens, start, base as int) == (
                Ok::<Seq<Token>, Fault>(out@),
                stream.cursor(),
            ),
        decreases tokens.len() - stream.pos,
    {
        let ghost here = stream.cursor();
        match stream.next(base) {
            None => {
                proof {
                    assert(out@ + Seq::<Token>::empty() =~= out@);
                }
                break ;
            },
            Some(token) => {
                match token.0.tag() {
                    Tag::CloseParen => {
                        proof {
                            assert(out@ + Seq::<Token>::empty() =~= out@);
                        }
                        break ;
                    },
                    Tag::Literal => {
                        match stream.next(base) {
                            None => {
                                return Err(Error::UnexpectedEnd);
                            },
                            Some(sep) => {
                                match sep.0.tag() {
                                    Tag::Comma => {
                                        proof {
                                            lemma_glue_cons(
                                                out@,
                                                token,
                                                args(tokens, stream.cursor(), base as int),
                                            );
                                        }
                                        out.push(token);
                                    },
                                    Tag::CloseParen => {
                                        proof {
                                            assert(out@ + seq![token] =~= out@.push(token));
                                        }
                                        out.push(token);
                                        break ;
                                    },
                                    _ => {
                                        let expected = vec![
                                            TokenNames::Comma,
                                            TokenNames::CloseParen,
                                        ];
                                        proof {
                                            assert(expected@ =~= seq![
                                                TokenNames::Comma,
                                                TokenNames::CloseParen,
                                            ]);
                                        }
                                        return Err(unexpected_token(expected, sep));
                                    },
                                }
                            },
                        }
                    },
                    _ => {
                        let expected = vec![TokenNames::Literal, TokenNames::CloseParen];
                        proof {
                            assert(expected@ =~= seq![TokenNames::Literal, TokenNames::CloseParen]);
                        }
                        return Err(unexpected_token(expected, token));
                    },
                }
            },
        }
    }
    Ok(out)
}

/// Whether `result` is what the parser was to make of its tokens.
pub open spec fn ports_read(
    result: Result<Vec<(Token, Token)>, Error>,
    model: Result<Seq<(Token, Token)>, Fault>,
) -> bool {
    match model {
        Ok(list) => result matches Ok(read) && read@ == list,
        Err(fault) => result matches Err(e) && e@ == fault,
    }
}

/// An error for a token that is not the one sort expected.
fn expected_one(name: TokenNames, got: Token) -> (e: Error)
    ensures
        e@ == (Fault::UnexpectedToken { expected: seq![name], got }),
{
    let expected = vec![name];
    proof {
        assert(expected@ =~= seq![name]);
    }
    Error::UnexpectedToken { expected, got }
}

/// An error for a token that is neither of the two sorts expected.
fn expected_two(first: TokenNames, second: TokenNames, got: Token) -> (e: Error)
    ensures
        e@ == (Fault::UnexpectedToken { expected: seq![first, second], got }),
{
    let expected = vec![first, second];
    proof {
        assert(expected@ =~= seq![first, second]);
    }
    Error::UnexpectedToken { expected, got }
}

/// Reads the ports of a port list, its opening bracket having been read.
pub fn parse_ports(stream: &mut ScopeIter, base: usize) -> (result: Result<
    Vec<(Token, Token)>,
    Error,
>)
    requires
        old(stream).wf(),
        base >= 1,
    ensures
        final(stream).wf(),
        final(stream).tokens == old(stream).tokens,
        final(stream).cursor() == ports(old(stream).tokens@, old(stream).cursor(), base as int).1,
        ports_read(result, ports(old(stream).tokens@, old(stream).cursor(), base as int).0),
{
    let mut out: Vec<(Token, Token)> = Vec::new();
    let ghost tokens = stream.tokens@;
    let ghost start = stream.cursor();
    proof {
        let all = ports(tokens, start, base as int);
        match all.0 {
            Ok(more) => {
                assert(out@ + more =~= more);
            },
            Err(_) => {},
        }
    }
    loop
        invariant_except_break
            glue(out@, ports(tokens, stream.cursor(), base as int)) == ports(
                tokens,
                start,
                base as int,
            ),
        invariant
            stream.wf(),
            base >= 1,
            stream.tokens == old(stream).tokens,
            tokens == old(stream).tokens@,
            start == old(stream).cursor(),
        ensures
            stream.wf(),
            stream.tokens == old(stream).tokens,
            ports(tokens, start, base as int) == (
                Ok::<Seq<(Token, Token)>, Fault>(out@),
                stream.cursor(),
            ),
        decreases tokens.len() - stream.pos,
    {
        let name = match stream.next(base) {
            None => {
                proof {
                    assert(out@ + Seq::<(Token, Token)>::empty() =~= out@);
                }
                break ;
            },
            Some(name) => name,
        };
        match name.0.tag() {
            Tag::Literal => {},
            _ => {
                return Err(expected_one(TokenNames::Literal, name));
            },
        }
        let colon = match stream.next(base) {
            None => {
                return Err(Error::UnexpectedEnd);
            },
            Some(colon) => colon,
        };
        match colon.0.tag() {
            Tag::Colon => {},
            _ => {
                return Err(expected_one(TokenNames::Colon, colon));
            },
        }
        let ty = match stream.next(base) {
            None => {
                return Err(Error::UnexpectedEnd);
            },
            Some(ty) => ty,
        };
        let semi = match stream.next(base) {
            None => {
                return Err(Error::UnexpectedEnd);
            },
            Some(semi) => semi,
        };
        match semi.0.tag() {
            Tag::Semicolon => {},
            _ => {
                return Err(expected_one(TokenNames::Semicolon, semi));
            },
        }
        proof {
            lemma_glue_cons(out@, (name, ty), ports(tokens, stream.cursor(), base as int));
        }
        out.push((name, ty));
    }
    Ok(out)
}

/// Whether `result` is what the parser was to make of its tokens.
pub open spec fn value_read(result: Result<BehaviourValue, Error>, model: Result<Value, Fault>) -> bool {
    match model {
        Ok(value) => result matches Ok(read) && read@ == value,
        Err(fault) => result matches Err(e) && e@ == fault,
    }
}

/// Reads a value.
pub fn parse_value(stream: &mut ScopeIter, base: usize) -> (result: Result<BehaviourValue, Error>)
    requires
        old(stream).wf(),
        base >= 1,
    ensures
        final(stream).wf(),
        final(stream).tokens == old(stream).tokens,
        final(stream).cursor() == value(old(stream).tokens@, old(stream).cursor(), base as int).1,
        value_read(result, value(old(stream).tokens@, old(stream).cursor(), base as int).0),
{
    let first = match stream.next(base) {
        None => {
            return Err(Error::UnexpectedEnd);
        },
        Some(first) => first,
    };
    match first.0.tag() {
        Tag::Literal => {
            let open = match stream.next(base) {
                None => {
                    return Err(Error::UnexpectedEnd);
                },
                Some(open) => open,
            };
            match open.0.tag() {
                Tag::OpenParen => {},
                _ => {
                    return Err(expected_one(TokenNames::OpenParen, open));
                },
            }
            match parse_args(stream, base) {
                Ok(arguments) => Ok(BehaviourValue::Operation { name: first, arguments }),
                Err(e) => Err(e),
            }
        },
        Tag::OpenParen => {
            match parse_args(stream, base) {
                Ok(vars) => Ok(BehaviourValue::Variables { vars }),
                Err(e) => Err(e),
            }
        },
        _ => Err(expected_two(TokenNames::Literal, TokenNames::OpenParen, first)),
    }
}

/// Whether `result` is what the parser was to make of its tokens.
pub open spec fn statement_read(
    result: Result<BehaviourStatement, Error>,
    model: Result<Statement, Fault>,
) -> bool {
    match model {
        Ok(one) => result matches Ok(read) && read@ == one,
        Err(fault) => result matches Err(e) && e@ == fault,
    }
}

/// Reads one statement, the opening bracket of its targets having been
/// read.
pub fn parse_statement(stream: &mut ScopeIter, base: usize) -> (result: Result<
    BehaviourStatement,
    Error,
>)
    requires
        old(stream).wf(),
        base >= 1,
    ensures
        final(stream).wf(),
        final(stream).tokens == old(stream).tokens,
        final(stream).cursor() == statement(
            old(stream).tokens@,
            old(stream).cursor(),
            base as int,
        ).1,
        statement_read(result, statement(old(stream).tokens@, old(stream).cursor(), base as int).0),
{
    let targets = match parse_args(stream, base) {
        Ok(targets) => targets,
        Err(e) => {
            return Err(e);
        },
    };
    let sign = match stream.next(base) {
        None => {
            return Err(Error::UnexpectedEnd);
        },
        Some(sign) => sign,
    };
    let to_port = match sign.0.tag() {
        Tag::Assign => false,
        Tag::PortAssign => true,
        _ => {
            return Err(expected_two(TokenNames::Assign, TokenNames::PortAssign, sign));
        },
    };
    let value = match parse_value(stream, base) {
        Ok(value) => value,
        Err(e) => {
            return Err(e);
        },
    };
    let end = match stream.next(base) {
        None => {
            return Err(Error::UnexpectedEnd);
        },
        Some(end) => end,
    };
    match end.0.tag() {
        Tag::Semicolon => {},
        _ => {
            return Err(expected_one(TokenNames::Semicolon, end));
        },
    }
    if to_port {
        Ok(BehaviourStatement::PortAssign { targets, value })
    } else {
        Ok(BehaviourStatement::VarAssign { targets, value })
    }
}

/// Whether `result` is what the parser was to make of its tokens.
pub open spec fn behaviour_read(
    result: Result<Vec<BehaviourStatement>, Error>,
    model: Result<Seq<Statement>, Fault>,
) -> bool {
    match model {
        Ok(list) => result matches Ok(read) && statements(read@) == list,
        Err(fault) => result matches Err(e) && e@ == fault,
    }
}

/// Reads the statements of a behaviour, its opening bracket having been
/// read.
pub fn parse_behaviour(stream: &mut ScopeIter, base: usize) -> (result: Result<
    Vec<BehaviourStatement>,
    Error,
>)
    requires
        old(stream).wf(),
        base >= 1,
    ensures
        final(stream).wf(),
        final(stream).tokens == old(stream).tokens,
        final(stream).cursor() == behaviour(
            old(stream).tokens@,
            old(stream).cursor(),
            base as int,
        ).1,
        behaviour_read(result, behaviour(old(stream).tokens@, old(stream).cursor(), base as int).0),
{
    let mut out: Vec<BehaviourStatement> = Vec::new();
    let ghost tokens = stream.tokens@;
    let ghost start = stream.cursor();
    proof {
        let all = behaviour(tokens, start, base as int);
        assert(statements(out@) =~= Seq::<Statement>::empty());
        match all.0 {
            Ok(more) => {
                assert(statements(out@) + more =~= more);
            },
            Err(_) => {},
        }
    }
    loop
        invariant_except_break
            glue(statements(out@), behaviour(tokens, stream.cursor(), base as int)) == behaviour(
                tokens,
                start,
                base as int,
            ),
        invariant
            stream.wf(),
            base >= 1,
            stream.tokens == old(stream).tokens,
            tokens == old(stream).tokens@,
            start == old(stream).cursor(),
        ensures
            stream.wf(),
            stream.tokens == old(stream).tokens,
            behaviour(tokens, start, base as int) == (
                Ok::<Seq<Statement>, Fault>(statements(out@)),
                stream.cursor(),
            ),
        decreases tokens.len() - stream.pos,
    {
        let ghost here = stream.cursor();
        let open = match stream.next(base) {
            None => {
                proof {
                    assert(statements(out@) + Seq::<Statement>::empty() =~= statements(out@));
                }
                break ;
            },
            Some(open) => open,
        };
        match open.0.tag() {
            Tag::OpenParen => {},
            _ => {
                return Err(expected_one(TokenNames::OpenParen, open));
            },
        }
        proof {
            lemma_statement_moves(tokens, stream.cursor(), base as int);
        }
        let one = match parse_statement(stream, base) {
            Ok(one) => one,
            Err(e) => {
                return Err(e);
            },
        };
        proof {
            lemma_glue_cons(
                statements(out@),
                one@,
                behaviour(tokens, stream.cursor(), base as int),
            );
            assert(statements(out@.push(one)) =~= statements(out@).push(one@));
        }
        out.push(one);
    }
    Ok(out)
}

/// Whether `result` is what the parser was to make of its tokens.
pub open spec fn entity_read(result: Result<Entity, Error>, model: Result<Written, Fault>) -> bool {
    match model {
        Ok(one) => result matches Ok(read) && read@ == one,
        Err(fault) => result matches Err(e) && e@ == fault,
    }
}

/// Reads the sections of the entity `name`, its opening bracket having
/// been read.
pub fn parse_entity(name: Span, stream: &mut ScopeIter, base: usize) -> (result: Result<
    Entity,
    Error,
>)
    requires
        old(stream).wf(),
        base >= 1,
    ensures
        final(stream).wf(),
        final(stream).tokens == old(stream).tokens,
        final(stream).cursor() == sections(
            old(stream).tokens@,
            old(stream).cursor(),
            base as int,
            bare(name),
        ).1,
        entity_read(
            result,
            sections(old(stream).tokens@, old(stream).cursor(), base as int, bare(name)).0,
        ),
{
    let mut entity = Entity {
        name,
        in_ports: Vec::new(),
        out_ports: Vec::new(),
        behaviour: Vec::new(),
    };
    let ghost tokens = stream.tokens@;
    let ghost start = stream.cursor();
    proof {
        assert(statements(entity.behaviour@) =~= Seq::<Statement>::empty());
        assert(entity@ == bare(name));
    }
    loop
        invariant_except_break
            sections(tokens, stream.cursor(), base as int, entity@) == sections(
                tokens,
                start,
                base as int,
                bare(name),
            ),
        invariant
            stream.wf(),
            base >= 1,
            stream.tokens == old(stream).tokens,
            tokens == old(stream).tokens@,
            start == old(stream).cursor(),
        ensures
            stream.wf(),
            stream.tokens == old(stream).tokens,
            sections(tokens, start, base as int, bare(name)) == (
                Ok::<Written, Fault>(entity@),
                stream.cursor(),
            ),
        decreases tokens.len() - stream.pos,
    {
        let keyword = match stream.next(base) {
            None => {
                break ;
            },
            Some(keyword) => keyword,
        };
        let sort = keyword.0.tag();
        match sort {
            Tag::InPorts => {},
            Tag::OutPorts => {},
            Tag::Behaviour => {},
            _ => {
                let expected = vec![
                    TokenNames::InPorts,
                    TokenNames::OutPorts,
                    TokenNames::Behaviour,
                ];
                proof {
                    assert(expected@ =~= seq![
                        TokenNames::InPorts,
                        TokenNames::OutPorts,
                        TokenNames::Behaviour,
                    ]);
                }
                return Err(unexpected_token(expected, keyword));
            },
        }
        let open = match stream.next(base) {
            None => {
                return Err(Error::UnexpectedEnd);
            },
            Some(open) => open,
        };
        match open.0.tag() {
            Tag::OpenCurly => {},
            _ => {
                return Err(expected_one(TokenNames::OpenCurly, open));
            },
        }
        let inner = stream.depth;
        proof {
            lemma_behaviour_moves(tokens, stream.cursor(), inner as int);
            lemma_ports_moves(tokens, stream.cursor(), inner as int);
        }
        match sort {
            Tag::Behaviour => {
                match parse_behaviour(stream, inner) {
                    Ok(list) => {
                        entity.behaviour = list;
                    },
                    Err(e) => {
                        return Err(e);
                    },
                }
            },
            Tag::InPorts => {
                match parse_ports(stream, inner) {
                    Ok(list) => {
                        entity.in_ports = list;
                    },
                    Err(e) => {
                        return Err(e);
                    },
                }
            },
            _ => {
                match parse_ports(stream, inner) {
                    Ok(list) => {
                        entity.out_ports = list;
                    },
                    Err(e) => {
                        return Err(e);
                    },
                }
            },
        }
    }
    Ok(entity)
}

/// Whether `result` is what the parser was to make of its tokens.
pub open spec fn source_read(result: Result<Vec<Entity>, Error>, model: Result<Seq<Written>, Fault>) -> bool {
    match model {
        Ok(list) => result matches Ok(read) && written(read@) == list,
        Err(fault) => result matches Err(e) && e@ == fault,
    }
}

/// `done` before the entities that `rest` holds.
pub open spec fn with_rest(done: Seq<Written>, rest: Result<Seq<Written>, Fault>) -> Result<
    Seq<Written>,
    Fault,
> {
    match rest {
        Ok(more) => Ok(done + more),
        Err(e) => Err(e),
    }
}

/// Reads the entities of a source from its tokens.
pub fn parse(tokens: Vec<Token>) -> (result: Result<Vec<Entity>, Error>)
    ensures
        source_read(result, all_entities(tokens@, 0)),
{
    let ghost all = tokens@;
    let mut stream = ScopeIter::new(tokens);
    let mut entities: Vec<Entity> = Vec::new();
    proof {
        assert(written(entities@) =~= Seq::<Written>::empty());
        match all_entities(all, 0) {
            Ok(more) => {
                assert(written(entities@) + more =~= more);
            },
            Err(_) => {},
        }
    }
    loop
        invariant_except_break
            with_rest(written(entities@), all_entities(all, stream.pos as int)) == all_entities(all, 0),
        invariant
            stream.wf(),
            stream.tokens@ == all,
            all == tokens@,
        ensures
            all_entities(all, 0) == Ok::<Seq<Written>, Fault>(written(entities@)),
        decreases all.len() - stream.pos,
    {
        let ghost at = stream.pos as int;
        let keyword = match stream.next_raw() {
            None => {
                proof {
                    assert(written(entities@) + Seq::<Written>::empty() =~= written(entities@));
                }
                break ;
            },
            Some(keyword) => keyword,
        };
        match keyword.0.tag() {
            Tag::Entity => {},
            _ => {
                return Err(expected_one(TokenNames::Entity, keyword));
            },
        }
        let name = match stream.next_raw() {
            None => {
                return Err(Error::MissingEntityName);
            },
            Some(name) => name,
        };
        match name.0.tag() {
            Tag::Literal => {},
            _ => {
                return Err(expected_one(TokenNames::Literal, name));
            },
        }
        let open = match stream.next_raw() {
            None => {
                return Err(Error::UnexpectedEnd);
            },
            Some(open) => open,
        };
        match open.0.tag() {
            Tag::OpenCurly => {},
            _ => {
                return Err(expected_one(TokenNames::OpenCurly, open));
            },
        }
        stream.enter();
        proof {
            lemma_sections_moves(all, stream.cursor(), 1, bare(name.1));
        }
        let entity = match parse_entity(name.1, &mut stream, 1) {
            Ok(entity) => entity,
            Err(e) => {
                return Err(e);
            },
        };
        proof {
            let rest = all_entities(all, stream.pos as int);
            match rest {
                Ok(more) => {
                    assert(written(entities@) + (seq![entity@] + more) =~= written(
                        entities@.push(entity),
                    ) + more);
                },
                Err(_) => {},
            }
            assert(written(entities@.push(entity)) =~= written(entities@).push(entity@));
        }
        entities.push(entity);
    }
    Ok(entities)
}

} // verus!
