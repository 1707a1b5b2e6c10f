//! Meaning: the entities of a source with every name resolved to the port,
//! variable, operation or entity that it stands for.

use vstd::prelude::*;
use vstd::string::StringExecFns;

use super::syntax;
use super::syntax::{Statement, Value, Written};
use super::tokens::Token;

verus! {

#[derive(Debug, Clone, Copy, PartialEq, Eq, Structural)]
pub enum Type_ {
    Bit,
}

#[derive(Debug)]
pub struct Port {
    pub name: String,
    pub ty: Type_,
}

#[derive(Debug)]
pub struct Variable {
    pub name: String,
    pub ty: Type_,
}

#[derive(Debug, Clone, Copy, PartialEq, Eq, Structural)]
pub enum BuiltinOp {
    Not,
    And,
    Xor,
    Or,
}

#[derive(Debug)]
pub enum Operand {
    Variable(Variable),
    Port(Port),
}

#[derive(Debug)]
#[allow(inconsistent_fields)]
pub enum BehaviourValue {
    BuiltinOp { op: BuiltinOp, arguments: Vec<Operand> },
    EntityOp { op: String, arguments: Vec<Operand>, port_count: u32 },
    Variables { vars: Vec<Variable> },
}

#[derive(Debug)]
#[allow(inconsistent_fields)]
pub enum Behaviour {
    VarAssign { targets: Vec<Variable>, value: BehaviourValue },
    PortAssign { targets: Vec<Port>, value: BehaviourValue },
}

#[derive(Debug)]
pub struct Entity {
    pub name: String,
    pub in_ports: Vec<Port>,
    pub out_ports: Vec<Port>,
    pub behaviour: Vec<Behaviour>,
}

/// What is wrong with a source that reads well.
#[derive(Debug, Clone, Copy, PartialEq, Eq, Structural)]
pub enum Problem {
    /// A port is declared with a type other than `bit`.
    UnknownType,
    /// An argument names neither an input port nor a variable.
    UnknownOperand,
    /// An operation is given more or fewer arguments than it takes.
    WrongArity,
    /// An operation names neither a builtin nor an entity of the source.
    UnknownEntity,
    /// A value names a variable that no earlier statement assigns.
    UnknownVariable,
    /// A port assignment names a port that the entity does not declare as
    /// an output.
    UnknownPort,
    /// A variable assignment has more or fewer targets than its value has
    /// results.
    TargetCount,
    /// A value has another type than the port or argument that takes it.
    TypeMismatch,
    /// An entity declares more output ports than fit into 32 bits.
    TooManyPorts,
}

/// Why a source could not be given a meaning: what is wrong, and the name
/// at which it went wrong.
#[derive(Debug)]
pub struct Error {
    pub problem: Problem,
    pub name: String,
}

/// A name with its type.
pub type Named = (Seq<char>, Type_);

/// An error as what is wrong and the name at which it went wrong.
pub type Fault = (Problem, Seq<char>);

impl Error {
    pub open spec fn view(&self) -> Fault {
        (self.problem, self.name@)
    }
}

impl Port {
    pub open spec fn view(&self) -> Named {
        (self.name@, self.ty)
    }
}

impl Variable {
    pub open spec fn view(&self) -> Named {
        (self.name@, self.ty)
    }
}

/// The ports of `list` as names with types.
pub open spec fn ports_of(list: Seq<Port>) -> Seq<Named> {
    Seq::new(list.len(), |i: int| list[i]@)
}

/// The variables of `list` as names with types.
pub open spec fn variables_of(list: Seq<Variable>) -> Seq<Named> {
    Seq::new(list.len(), |i: int| list[i]@)
}

/// An operand as the name it resolves to.
pub enum Resolved {
    Variable(Named),
    Port(Named),
}

impl Resolved {
    /// The type of the operand.
    pub open spec fn ty(self) -> Type_ {
        match self {
            Resolved::Variable(v) => v.1,
            Resolved::Port(p) => p.1,
        }
    }
}

impl Operand {
    pub open spec fn view(&self) -> Resolved {
        match *self {
            Operand::Variable(v) => Resolved::Variable(v@),
            Operand::Port(p) => Resolved::Port(p@),
        }
    }

    /// The type of the operand.
    pub fn ty(&self) -> (ty: &Type_)
        ensures
            *ty == self@.ty(),
    {
        match self {
            Operand::Port(p) => &p.ty,
            Operand::Variable(v) => &v.ty,
        }
    }
}

/// The operands of `list` as what they resolve to.
pub open spec fn operands_of(list: Seq<Operand>) -> Seq<Resolved> {
    Seq::new(list.len(), |i: int| list[i]@)
}

/// A value with its names resolved.
#[allow(inconsistent_fields)]
pub enum Meant {
    BuiltinOp { op: BuiltinOp, arguments: Seq<Resolved> },
    EntityOp { op: Seq<char>, arguments: Seq<Resolved>, port_count: u32 },
    Variables { vars: Seq<Named> },
}

impl BehaviourValue {
    pub open spec fn view(&self) -> Meant {
        match *self {
            BehaviourValue::BuiltinOp { op, arguments } => Meant::BuiltinOp {
                op,
                arguments: operands_of(arguments@),
            },
            BehaviourValue::EntityOp { op, arguments, port_count } => Meant::EntityOp {
                op: op@,
                arguments: operands_of(arguments@),
                port_count,
            },
            BehaviourValue::Variables { vars } => Meant::Variables { vars: variables_of(vars@) },
        }
    }
}

/// A statement with its names resolved.
pub enum Assigned {
    VarAssign { targets: Seq<Named>, value: Meant },
    PortAssign { targets: Seq<Named>, value: Meant },
}

impl Behaviour {
    pub open spec fn view(&self) -> Assigned {
        match *self {
            Behaviour::VarAssign { targets, value } => Assigned::VarAssign {
                targets: variables_of(targets@),
                value: value@,
            },
            Behaviour::PortAssign { targets, value } => Assigned::PortAssign {
                targets: ports_of(targets@),
                value: value@,
            },
        }
    }
}

/// The statements of `list` with their names resolved.
pub open spec fn assigned_of(list: Seq<Behaviour>) -> Seq<Assigned> {
    Seq::new(list.len(), |i: int| list[i]@)
}

/// The name and the ports of an entity.
pub struct Header {
    pub name: Seq<char>,
    pub in_ports: Seq<Named>,
    pub out_ports: Seq<Named>,
}

/// An entity with its names resolved.
pub struct Understood {
    pub name: Seq<char>,
    pub in_ports: Seq<Named>,
    pub out_ports: Seq<Named>,
    pub behaviour: Seq<Assigned>,
}

impl Entity {
    pub open spec fn view(&self) -> Understood {
        Understood {
            name: self.name@,
            in_ports: ports_of(self.in_ports@),
            out_ports: ports_of(self.out_ports@),
            behaviour: assigned_of(self.behaviour@),
        }
    }
}

/// The entities of `list` with their names resolved.
pub open spec fn understood_of(list: Seq<Entity>) -> Seq<Understood> {
    Seq::new(list.len(), |i: int| list[i]@)
}

/// The text of a token.
pub open spec fn text(token: Token) -> Seq<char> {
    token.1.text@
}

/// The ports that `raw` declares: each a name and the type `bit`.
pub open spec fn declared(raw: Seq<(Token, Token)>) -> Result<Seq<Named>, Fault>
    decreases raw.len(),
{
    if raw.len() == 0 {
        Ok(Seq::empty())
    } else {
        match declared(raw.drop_last()) {
            Err(e) => Err(e),
            Ok(rest) => if text(raw.last().1) == "bit"@ {
                Ok(rest.push((text(raw.last().0), Type_::Bit)))
            } else {
                Err((Problem::UnknownType, text(raw.last().1)))
            },
        }
    }
}

/// The header of the entity `raw`.
pub open spec fn header_of(raw: Written) -> Result<Header, Fault> {
    match declared(raw.in_ports) {
        Err(e) => Err(e),
        Ok(in_ports) => match declared(raw.out_ports) {
            Err(e) => Err(e),
            Ok(out_ports) => Ok(Header { name: raw.name.text@, in_ports, out_ports }),
        },
    }
}

/// The headers of the entities `raws`.
pub open spec fn headers_of(raws: Seq<Written>) -> Result<Seq<Header>, Fault>
    decreases raws.len(),
{
    if raws.len() == 0 {
        Ok(Seq::empty())
    } else {
        match headers_of(raws.drop_last()) {
            Err(e) => Err(e),
            Ok(rest) => match header_of(raws.last()) {
                Err(e) => Err(e),
                Ok(one) => Ok(rest.push(one)),
            },
        }
    }
}

/// Index of the first of `list` with the name `name`; `list.len()` when
/// there is none.
pub open spec fn first_named(list: Seq<Named>, name: Seq<char>) -> int
    decreases list.len(),
{
    if list.len() == 0 {
        0
    } else if list[0].0 == name {
        0
    } else {
        1 + first_named(list.drop_first(), name)
    }
}

/// Index of the last of `list` with the name `name`; -1 when there is
/// none.
pub open spec fn last_named(list: Seq<Named>, name: Seq<char>) -> int
    decreases list.len(),
{
    if list.len() == 0 {
        -1
    } else if list.last().0 == name {
        list.len() - 1
    } else {
        last_named(list.drop_last(), name)
    }
}

/// Index of the last header with the name `name`; -1 when there is none.
pub open spec fn last_header(headers: Seq<Header>, name: Seq<char>) -> int
    decreases headers.len(),
{
    if headers.len() == 0 {
        -1
    } else if headers.last().name == name {
        headers.len() - 1
    } else {
        last_header(headers.drop_last(), name)
    }
}

/// What the name `name` stands for as an argument: an input port of the
/// entity, or else the variable that was last assigned under the name.
pub open spec fn operand(name: Seq<char>, in_ports: Seq<Named>, vars: Seq<Named>) -> Result<
    Resolved,
    Fault,
> {
    if first_named(in_ports, name) < in_ports.len() {
        Ok(Resolved::Port(in_ports[first_named(in_ports, name)]))
    } else if last_named(vars, name) >= 0 {
        Ok(Resolved::Variable(vars[last_named(vars, name)]))
    } else {
        Err((Problem::UnknownOperand, name))
    }
}

/// What the arguments `raw` stand for.
pub open spec fn operands(raw: Seq<Token>, in_ports: Seq<Named>, vars: Seq<Named>) -> Result<
    Seq<Resolved>,
    Fault,
>
    decreases raw.len(),
{
    if raw.len() == 0 {
        Ok(Seq::empty())
    } else {
        match operands(raw.drop_last(), in_ports, vars) {
            Err(e) => Err(e),
            Ok(rest) => match operand(text(raw.last()), in_ports, vars) {
                Err(e) => Err(e),
                Ok(one) => Ok(rest.push(one)),
            },
        }
    }
}

/// The variables that the names `raw` stand for.
pub open spec fn variables(raw: Seq<Token>, vars: Seq<Named>) -> Result<Seq<Named>, Fault>
    decreases raw.len(),
{
    if raw.len() == 0 {
        Ok(Seq::empty())
    } else {
        match variables(raw.drop_last(), vars) {
            Err(e) => Err(e),
            Ok(rest) => if last_named(vars, text(raw.last())) >= 0 {
                Ok(rest.push(vars[last_named(vars, text(raw.last()))]))
            } else {
                Err((Problem::UnknownVariable, text(raw.last())))
            },
        }
    }
}

/// The builtin operation with the name `name`, and how many arguments it
/// takes.
pub open spec fn builtin(name: Seq<char>) -> Option<(BuiltinOp, nat)> {
    if name == "and"@ {
        Some((BuiltinOp::And, 2))
    } else if name == "not"@ {
        Some((BuiltinOp::Not, 1))
    } else if name == "xor"@ {
        Some((BuiltinOp::Xor, 2))
    } else if name == "or"@ {
        Some((BuiltinOp::Or, 2))
    } else {
        None
    }
}

/// The types of `list`.
pub open spec fn types_of(list: Seq<Named>) -> Seq<Type_> {
    Seq::new(list.len(), |i: int| list[i].1)
}

/// Whether every argument has the type of the port that takes it.
pub open spec fn types_agree(arguments: Seq<Resolved>, ports: Seq<Named>) -> bool {
    forall|i: int|
        0 <= i < arguments.len() && i < ports.len() ==> (#[trigger] arguments[i]).ty() == ports[i].1
}

/// What the value `raw` means within an entity with the input ports
/// `in_ports`, after the variables `vars` have been assigned, and the types
/// of its results.
pub open spec fn meaning(
    raw: Value,
    in_ports: Seq<Named>,
    vars: Seq<Named>,
    headers: Seq<Header>,
) -> Result<(Meant, Seq<Type_>), Fault> {
    match raw {
        Value::Operation { name, arguments } => match operands(arguments, in_ports, vars) {
            Err(e) => Err(e),
            Ok(resolved) => match builtin(text(name)) {
                Some((op, arity)) => if resolved.len() != arity {
                    Err((Problem::WrongArity, text(name)))
                } else {
                    Ok((Meant::BuiltinOp { op, arguments: resolved }, seq![Type_::Bit]))
                },
                None => {
                    let which = last_header(headers, text(name));
                    if which < 0 {
                        Err((Problem::UnknownEntity, text(name)))
                    } else if resolved.len() != headers[which].in_ports.len() {
                        Err((Problem::WrongArity, text(name)))
                    } else if !types_agree(resolved, headers[which].in_ports) {
                        Err((Problem::TypeMismatch, text(name)))
                    } else if headers[which].out_ports.len() > u32::MAX {
                        Err((Problem::TooManyPorts, text(name)))
                    } else {
                        Ok(
                            (
                                Meant::EntityOp {
                                    op: text(name),
                                    arguments: resolved,
                                    port_count: headers[which].out_ports.len() as u32,
                                },
                                types_of(headers[which].out_ports),
                            ),
                        )
                    }
                },
            },
        },
        Value::Variables { vars: names } => match variables(names, vars) {
            Err(e) => Err(e),
            Ok(list) => Ok((Meant::Variables { vars: list }, types_of(list))),
        },
    }
}

/// The variables that the targets `raw` become, the `k`-th with the `k`-th
/// of `types`.
pub open spec fn new_variables(raw: Seq<Token>, types: Seq<Type_>) -> Seq<Named> {
    Seq::new(raw.len(), |i: int| (text(raw[i]), types[i]))
}

/// The output ports that the targets `raw` stand for.
pub open spec fn target_ports(raw: Seq<Token>, out_ports: Seq<Named>) -> Result<Seq<Named>, Fault>
    decreases raw.len(),
{
    if raw.len() == 0 {
        Ok(Seq::empty())
    } else {
        match target_ports(raw.drop_last(), out_ports) {
            Err(e) => Err(e),
            Ok(rest) => if first_named(out_ports, text(raw.last())) < out_ports.len() {
                Ok(rest.push(out_ports[first_named(out_ports, text(raw.last()))]))
            } else {
                Err((Problem::UnknownPort, text(raw.last())))
            },
        }
    }
}

/// Whether every target has the type of the result that it takes.
pub open spec fn results_agree(targets: Seq<Named>, types: Seq<Type_>) -> bool {
    forall|i: int| 0 <= i < targets.len() && i < types.len() ==> (#[trigger] targets[i]).1 == types[i]
}

/// What the statement `raw` means, and the variables that are assigned
/// after it.
pub open spec fn assignment(
    raw: Statement,
    header: Header,
    vars: Seq<Named>,
    headers: Seq<Header>,
) -> Result<(Assigned, Seq<Named>), Fault> {
    match raw {
        Statement::VarAssign { targets, value } => match meaning(
            value,
            header.in_ports,
            vars,
            headers,
        ) {
            Err(e) => Err(e),
            Ok((meant, types)) => if types.len() != targets.len() {
                Err((Problem::TargetCount, header.name))
            } else {
                let made = new_variables(targets, types);
                Ok((Assigned::VarAssign { targets: made, value: meant }, vars + made))
            },
        },
        Statement::PortAssign { targets, value } => match meaning(
            value,
            header.in_ports,
            vars,
            headers,
        ) {
            Err(e) => Err(e),
            Ok((meant, types)) => match target_ports(targets, header.out_ports) {
                Err(e) => Err(e),
                Ok(ports) => if !results_agree(ports, types) {
                    Err((Problem::TypeMismatch, header.name))
                } else {
                    Ok((Assigned::PortAssign { targets: ports, value: meant }, vars))
                },
            },
        },
    }
}

/// What the statements `raw` mean, one after the other, the first of them
/// after the variables `vars` have been assigned.
pub open spec fn assignments(
    raw: Seq<Statement>,
    header: Header,
    vars: Seq<Named>,
    headers: Seq<Header>,
) -> Result<Seq<Assigned>, Fault>
    decreases raw.len(),
{
    if raw.len() == 0 {
        Ok(Seq::empty())
    } else {
        match assignment(raw[0], header, vars, headers) {
            Err(e) => Err(e),
            Ok((one, next)) => match assignments(raw.drop_first(), header, next, headers) {
                Err(e) => Err(e),
                Ok(rest) => Ok(seq![one] + rest),
            },
        }
    }
}

/// What the entity `raw` means among the entities with the headers
/// `headers`. Of several entities with one name the last lends its ports.
pub open spec fn understand(raw: Written, headers: Seq<Header>) -> Result<Understood, Fault> {
    let which = last_header(headers, raw.name.text@);
    if which < 0 {
        Err((Problem::UnknownEntity, raw.name.text@))
    } else {
        let header = headers[which];
        match assignments(raw.behaviour, header, Seq::empty(), headers) {
            Err(e) => Err(e),
            Ok(behaviour) => Ok(
                Understood {
                    name: header.name,
                    in_ports: header.in_ports,
                    out_ports: header.out_ports,
                    behaviour,
                },
            ),
        }
    }
}

/// What the entities `raws` mean among the entities with the headers
/// `headers`.
pub open spec fn understand_all(raws: Seq<Written>, headers: Seq<Header>) -> Result<
    Seq<Understood>,
    Fault,
>
    decreases raws.len(),
{
    if raws.len() == 0 {
        Ok(Seq::empty())
    } else {
        match understand_all(raws.drop_last(), headers) {
            Err(e) => Err(e),
            Ok(rest) => match understand(raws.last(), headers) {
                Err(e) => Err(e),
                Ok(one) => Ok(rest.push(one)),
            },
        }
    }
}

/// What the entities `raws` of one source mean.
pub open spec fn analysis(raws: Seq<Written>) -> Result<Seq<Understood>, Fault> {
    match headers_of(raws) {
        Err(e) => Err(e),
        Ok(headers) => understand_all(raws, headers),
    }
}

impl Clone for Port {
    fn clone(&self) -> (copy: Self)
        ensures
            copy == *self,
    {
        Port { name: self.name.clone(), ty: self.ty }
    }
}

impl Clone for Variable {
    fn clone(&self) -> (copy: Self)
        ensures
            copy == *self,
    {
        Variable { name: self.name.clone(), ty: self.ty }
    }
}

/// The name and the ports of an entity.
pub struct EntityHeader {
    pub name: String,
    pub in_ports: Vec<Port>,
    pub out_ports: Vec<Port>,
}

impl EntityHeader {
    pub open spec fn view(&self) -> Header {
        Header {
            name: self.name@,
            in_ports: ports_of(self.in_ports@),
            out_ports: ports_of(self.out_ports@),
        }
    }
}

/// The headers of `list`.
pub open spec fn headers_view(list: Seq<EntityHeader>) -> Seq<Header> {
    Seq::new(list.len(), |i: int| list[i]@)
}

/// An error about `name`.
fn fail<T>(problem: Problem, name: &String) -> (result: Result<T, Error>)
    ensures
        result matches Err(e) && e@ == (problem, name@),
{
    Err(Error { problem, name: name.clone() })
}

/// Whether `result` holds the ports `model`, or fails as `model` does.
pub open spec fn ports_made(result: Result<Vec<Port>, Error>, model: Result<Seq<Named>, Fault>) -> bool {
    match model {
        Ok(list) => result matches Ok(made) && ports_of(made@) == list,
        Err(fault) => result matches Err(e) && e@ == fault,
    }
}

/// The ports that `raw` declares.
pub fn parse_ports(raw: &Vec<(Token, Token)>) -> (result: Result<Vec<Port>, Error>)
    ensures
        ports_made(result, declared(raw@)),
{
    let mut out: Vec<Port> = Vec::new();
    let mut i: usize = 0;
    proof {
        assert(ports_of(out@) =~= Seq::<Named>::empty());
    }
    while i < raw.len()
        invariant
            0 <= i <= raw.len(),
            declared(raw@.take(i as int)) == Ok::<Seq<Named>, Fault>(ports_of(out@)),
        decreases raw.len() - i,
    {
        proof {
            assert(raw@.take(i + 1).drop_last() =~= raw@.take(i as int));
            assert(raw@.take(i + 1).last() == raw@[i as int]);
        }
        if raw[i].1.1.text == String::from_str("bit") {
            let ghost before = ports_of(out@);
            out.push(Port { name: raw[i].0.1.text.clone(), ty: Type_::Bit });
            proof {
                assert(ports_of(out@) =~= before.push((text(raw@[i as int].0), Type_::Bit)));
            }
        } else {
            proof {
                lemma_declared_fails(raw@, i + 1);
            }
            return fail(Problem::UnknownType, &raw[i].1.1.text);
        }
        i += 1;
    }
    proof {
        assert(raw@.take(i as int) =~= raw@);
    }
    Ok(out)
}

/// A port list that fails up to some port fails as a whole, in the same
/// way.
pub proof fn lemma_declared_fails(raw: Seq<(Token, Token)>, upto: int)
    requires
        0 <= upto <= raw.len(),
        declared(raw.take(upto)) is Err,
    ensures
        declared(raw) == declared(raw.take(upto)),
    decreases raw.len() - upto,
{
    if upto < raw.len() {
        assert(raw.take(upto + 1).drop_last() =~= raw.take(upto));
        lemma_declared_fails(raw, upto + 1);
    } else {
        assert(raw.take(upto) =~= raw);
    }
}

/// Whether `result` holds the header `model`, or fails as `model` does.
pub open spec fn header_made(result: Result<EntityHeader, Error>, model: Result<Header, Fault>) -> bool {
    match model {
        Ok(header) => result matches Ok(made) && made@ == header,
        Err(fault) => result matches Err(e) && e@ == fault,
    }
}

/// The header of the entity `raw`.
pub fn parse_entity_header(raw: &syntax::Entity) -> (result: Result<EntityHeader, Error>)
    ensures
        header_made(result, header_of(raw@)),
{
    let in_ports = match parse_ports(&raw.in_ports) {
        Ok(ports) => ports,
        Err(e) => {
            return Err(e);
        },
    };
    let out_ports = match parse_ports(&raw.out_ports) {
        Ok(ports) => ports,
        Err(e) => {
            return Err(e);
        },
    };
    Ok(EntityHeader { name: raw.name.text.clone(), in_ports, out_ports })
}

/// Index of the first port with the name `name`.
fn find_port(list: &Vec<Port>, name: &String) -> (at: usize)
    ensures
        at == first_named(ports_of(list@), name@),
        at <= list@.len(),
{
    let ghost all = ports_of(list@);
    let mut i: usize = 0;
    proof {
        assert(all.skip(0) =~= all);
    }
    while i < list.len()
        invariant
            0 <= i <= list.len(),
            all == ports_of(list@),
            first_named(all, name@) == i + first_named(all.skip(i as int), name@),
        decreases list.len() - i,
    {
        proof {
            assert(all.skip(i as int)[0] == all[i as int]);
            assert(all.skip(i as int).drop_first() =~= all.skip(i + 1));
        }
        if list[i].name == *name {
            return i;
        }
        i += 1;
    }
    proof {
        assert(all.skip(i as int) =~= Seq::<Named>::empty());
    }
    i
}

/// Index of the last variable with the name `name`.
fn find_variable(list: &Vec<Variable>, name: &String) -> (at: Option<usize>)
    ensures
        match at {
            Some(i) => i == last_named(variables_of(list@), name@) && i < list@.len(),
            None => last_named(variables_of(list@), name@) < 0,
        },
{
    let ghost all = variables_of(list@);
    let mut i: usize = list.len();
    proof {
        assert(all.take(i as int) =~= all);
    }
    while i > 0
        invariant
            0 <= i <= list.len(),
            all == variables_of(list@),
            last_named(all, name@) == last_named(all.take(i as int), name@),
        decreases i,
    {
        proof {
            assert(all.take(i as int).drop_last() =~= all.take(i - 1));
            assert(all.take(i as int).last() == all[i - 1]);
        }
        if list[i - 1].name == *name {
            return Some(i - 1);
        }
        i -= 1;
    }
    None
}

/// Index of the last header with the name `name`.
fn find_header(list: &Vec<EntityHeader>, name: &String) -> (at: Option<usize>)
    ensures
        match at {
            Some(i) => i == last_header(headers_view(list@), name@) && i < list@.len(),
            None => last_header(headers_view(list@), name@) < 0,
        },
{
    let ghost all = headers_view(list@);
    let mut i: usize = list.len();
    proof {
        assert(all.take(i as int) =~= all);
    }
    while i > 0
        invariant
            0 <= i <= list.len(),
            all == headers_view(list@),
            last_header(all, name@) == last_header(all.take(i as int), name@),
        decreases i,
    {
        proof {
            assert(all.take(i as int).drop_last() =~= all.take(i - 1));
            assert(all.take(i as int).last() == all[i - 1]);
        }
        if list[i - 1].name == *name {
            return Some(i - 1);
        }
        i -= 1;
    }
    None
}

/// Whether `result` holds the operands `model`, or fails as `model` does.
pub open spec fn operands_made(
    result: Result<Vec<Operand>, Error>,
    model: Result<Seq<Resolved>, Fault>,
) -> bool {
    match model {
        Ok(list) => result matches Ok(made) && operands_of(made@) == list,
        Err(fault) => result matches Err(e) && e@ == fault,
    }
}

/// An argument list that fails up to some argument fails as a whole, in
/// the same way.
pub proof fn lemma_operands_fail(
    raw: Seq<Token>,
    in_ports: Seq<Named>,
    vars: Seq<Named>,
    upto: int,
)
    requires
        0 <= upto <= raw.len(),
        operands(raw.take(upto), in_ports, vars) is Err,
    ensures
        operands(raw, in_ports, vars) == operands(raw.take(upto), in_ports, vars),
    decreases raw.len() - upto,
{
    if upto < raw.len() {
        assert(raw.take(upto + 1).drop_last() =~= raw.take(upto));
        lemma_operands_fail(raw, in_ports, vars, upto + 1);
    } else {
        assert(raw.take(upto) =~= raw);
    }
}

/// What the arguments `raw` stand for.
fn resolve_operands(raw: &Vec<Token>, in_ports: &Vec<Port>, vars: &Vec<Variable>) -> (result: Result<
    Vec<Operand>,
    Error,
>)
    ensures
        operands_made(result, operands(raw@, ports_of(in_ports@), variables_of(vars@))),
{
    let mut out: Vec<Operand> = Vec::new();
    let ghost ports = ports_of(in_ports@);
    let ghost known = variables_of(vars@);
    let mut i: usize = 0;
    proof {
        assert(operands_of(out@) =~= Seq::<Resolved>::empty());
    }
    while i < raw.len()
        invariant
            0 <= i <= raw.len(),
            ports == ports_of(in_ports@),
            known == variables_of(vars@),
            operands(raw@.take(i as int), ports, known) == Ok::<Seq<Resolved>, Fault>(
                operands_of(out@),
            ),
        decreases raw.len() - i,
    {
        proof {
            assert(raw@.take(i + 1).drop_last() =~= raw@.take(i as int));
            assert(raw@.take(i + 1).last() == raw@[i as int]);
        }
        let name = &raw[i].1.text;
        let ghost before = operands_of(out@);
        let port = find_port(in_ports, name);
        if port < in_ports.len() {
            out.push(Operand::Port(in_ports[port].clone()));
            proof {
                assert(operands_of(out@) =~= before.push(Resolved::Port(ports[port as int])));
            }
        } else {
            match find_variable(vars, name) {
                Some(at) => {
                    out.push(Operand::Variable(vars[at].clone()));
                    proof {
                        assert(operands_of(out@) =~= before.push(
                            Resolved::Variable(known[at as int]),
                        ));
                    }
                },
                None => {
                    proof {
                        lemma_operands_fail(raw@, ports, known, i + 1);
                    }
                    return fail(Problem::UnknownOperand, name);
                },
            }
        }
        i += 1;
    }
    proof {
        assert(raw@.take(i as int) =~= raw@);
    }
    Ok(out)
}

/// Whether `result` holds the variables `model`, or fails as `model` does.
pub open spec fn variables_made(
    result: Result<Vec<Variable>, Error>,
    model: Result<Seq<Named>, Fault>,
) -> bool {
    match model {
        Ok(list) => result matches Ok(made) && variables_of(made@) == list,
        Err(fault) => result matches Err(e) && e@ == fault,
    }
}

/// A list of names that fails up to some name fails as a whole, in the
/// same way.
pub proof fn lemma_variables_fail(raw: Seq<Token>, vars: Seq<Named>, upto: int)
    requires
        0 <= upto <= raw.len(),
        variables(raw.take(upto), vars) is Err,
    ensures
        variables(raw, vars) == variables(raw.take(upto), vars),
    decreases raw.len() - upto,
{
    if upto < raw.len() {
        assert(raw.take(upto + 1).drop_last() =~= raw.take(upto));
        lemma_variables_fail(raw, vars, upto + 1);
    } else {
        assert(raw.take(upto) =~= raw);
    }
}

/// The variables that the names `raw` stand for.
fn resolve_variables(raw: &Vec<Token>, vars: &Vec<Variable>) -> (result: Result<Vec<Variable>, Error>)
    ensures
        variables_made(result, variables(raw@, variables_of(vars@))),
{
    let mut out: Vec<Variable> = Vec::new();
    let ghost known = variables_of(vars@);
    let mut i: usize = 0;
    proof {
        assert(variables_of(out@) =~= Seq::<Named>::empty());
    }
    while i < raw.len()
        invariant
            0 <= i <= raw.len(),
            known == variables_of(vars@),
            variables(raw@.take(i as int), known) == Ok::<Seq<Named>, Fault>(variables_of(out@)),
        decreases raw.len() - i,
    {
        proof {
            assert(raw@.take(i + 1).drop_last() =~= raw@.take(i as int));
            assert(raw@.take(i + 1).last() == raw@[i as int]);
        }
        let name = &raw[i].1.text;
        let ghost before = variables_of(out@);
        match find_variable(vars, name) {
            Some(at) => {
                out.push(vars[at].clone());
                proof {
                    assert(variables_of(out@) =~= before.push(known[at as int]));
                }
            },
            None => {
                proof {
                    lemma_variables_fail(raw@, known, i + 1);
                }
                return fail(Problem::UnknownVariable, name);
            },
        }
        i += 1;
    }
    proof {
        assert(raw@.take(i as int) =~= raw@);
    }
    Ok(out)
}

/// The builtin operation with the name `name`, and how many arguments it
/// takes.
fn find_builtin(name: &String) -> (found: Option<(BuiltinOp, usize)>)
    ensures
        match builtin(name@) {
            Some((op, arity)) => found == Some((op, arity as usize)) && arity <= 2,
            None => found is None,
        },
{
    if *name == String::from_str("and") {
        Some((BuiltinOp::And, 2))
    } else if *name == String::from_str("not") {
        Some((BuiltinOp::Not, 1))
    } else if *name == String::from_str("xor") {
        Some((BuiltinOp::Xor, 2))
    } else if *name == String::from_str("or") {
        Some((BuiltinOp::Or, 2))
    } else {
        None
    }
}

/// Whether every argument has the type of the port that takes it.
fn check_types(arguments: &Vec<Operand>, ports: &Vec<Port>) -> (yes: bool)
    ensures
        yes == types_agree(operands_of(arguments@), ports_of(ports@)),
{
    let mut i: usize = 0;
    while i < arguments.len() && i < ports.len()
        invariant
            0 <= i <= arguments.len(),
            i <= ports.len(),
            forall|k: int|
                0 <= k < i ==> (#[trigger] operands_of(arguments@)[k]).ty() == ports_of(ports@)[k].1,
        decreases arguments.len() - i,
    {
        let same = match (arguments[i].ty(), &ports[i].ty) {
            (Type_::Bit, Type_::Bit) => true,
        };
        if !same {
            return false;
        }
        i += 1;
    }
    true
}

/// The types of `list`.
fn port_types(list: &Vec<Port>) -> (types: Vec<Type_>)
    ensures
        types@ == types_of(ports_of(list@)),
{
    let mut types: Vec<Type_> = Vec::new();
    let mut i: usize = 0;
    while i < list.len()
        invariant
            0 <= i <= list.len(),
            types@ == types_of(ports_of(list@)).take(i as int),
        decreases list.len() - i,
    {
        types.push(list[i].ty);
        proof {
            assert(types@ =~= types_of(ports_of(list@)).take(i + 1));
        }
        i += 1;
    }
    proof {
        assert(types_of(ports_of(list@)).take(i as int) =~= types_of(ports_of(list@)));
    }
    types
}

/// The types of `list`.
fn variable_types(list: &Vec<Variable>) -> (types: Vec<Type_>)
    ensures
        types@ == types_of(variables_of(list@)),
{
    let mut types: Vec<Type_> = Vec::new();
    let mut i: usize = 0;
    while i < list.len()
        invariant
            0 <= i <= list.len(),
            types@ == types_of(variables_of(list@)).take(i as int),
        decreases list.len() - i,
    {
        types.push(list[i].ty);
        proof {
            assert(types@ =~= types_of(variables_of(list@)).take(i + 1));
        }
        i += 1;
    }
    proof {
        assert(types_of(variables_of(list@)).take(i as int) =~= types_of(variables_of(list@)));
    }
    types
}

/// Whether `result` holds the value `model` with its types, or fails as
/// `model` does.
pub open spec fn value_made(
    result: Result<(BehaviourValue, Vec<Type_>), Error>,
    model: Result<(Meant, Seq<Type_>), Fault>,
) -> bool {
    match model {
        Ok((meant, types)) => result matches Ok(made) && made.0@ == meant && made.1@ == types,
        Err(fault) => result matches Err(e) && e@ == fault,
    }
}

/// What the value `value` means within the entity with the header
/// `current_header`, after the variables `vars` have been assigned, and
/// the types of its results.
pub fn parse_value(
    value: &syntax::BehaviourValue,
    current_header: &EntityHeader,
    vars: &Vec<Variable>,
    headers: &Vec<EntityHeader>,
) -> (result: Result<(BehaviourValue, Vec<Type_>), Error>)
    ensures
        value_made(
            result,
            meaning(value@, current_header@.in_ports, variables_of(vars@), headers_view(headers@)),
        ),
{
    match value {
        syntax::BehaviourValue::Operation { name, arguments } => {
            let arguments = match resolve_operands(arguments, &current_header.in_ports, vars) {
                Ok(arguments) => arguments,
                Err(e) => {
                    return Err(e);
                },
            };
            let op_name = &name.1.text;
            match find_builtin(op_name) {
                Some((op, arity)) => {
                    if arguments.len() != arity {
                        return fail(Problem::WrongArity, op_name);
                    }
                    let types = vec![Type_::Bit];
                    proof {
                        assert(types@ =~= seq![Type_::Bit]);
                    }
                    Ok((BehaviourValue::BuiltinOp { op, arguments }, types))
                },
                None => {
                    let which = match find_header(headers, op_name) {
                        Some(which) => which,
                        None => {
                            return fail(Problem::UnknownEntity, op_name);
                        },
                    };
                    let other = &headers[which];
                    if arguments.len() != other.in_ports.len() {
                        return fail(Problem::WrongArity, op_name);
                    }
                    if !check_types(&arguments, &other.in_ports) {
                        return fail(Problem::TypeMismatch, op_name);
                    }
                    if other.out_ports.len() > u32::MAX as usize {
                        return fail(Problem::TooManyPorts, op_name);
                    }
                    let types = port_types(&other.out_ports);
                    Ok(
                        (
                            BehaviourValue::EntityOp {
                                op: op_name.clone(),
                                arguments,
                                port_count: other.out_ports.len() as u32,
                            },
                            types,
                        ),
                    )
                },
            }
        },
        syntax::BehaviourValue::Variables { vars: names } => {
            let list = match resolve_variables(names, vars) {
                Ok(list) => list,
                Err(e) => {
                    return Err(e);
                },
            };
            let types = variable_types(&list);
            Ok((BehaviourValue::Variables { vars: list }, types))
        },
    }
}

/// A list of targets that fails up to some target fails as a whole, in the
/// same way.
pub proof fn lemma_target_ports_fail(raw: Seq<Token>, out_ports: Seq<Named>, upto: int)
    requires
        0 <= upto <= raw.len(),
        target_ports(raw.take(upto), out_ports) is Err,
    ensures
        target_ports(raw, out_ports) == target_ports(raw.take(upto), out_ports),
    decreases raw.len() - upto,
{
    if upto < raw.len() {
        assert(raw.take(upto + 1).drop_last() =~= raw.take(upto));
        lemma_target_ports_fail(raw, out_ports, upto + 1);
    } else {
        assert(raw.take(upto) =~= raw);
    }
}

/// The output ports that the targets `raw` stand for.
fn resolve_targets(raw: &Vec<Token>, out_ports: &Vec<Port>) -> (result: Result<Vec<Port>, Error>)
    ensures
        ports_made(result, target_ports(raw@, ports_of(out_ports@))),
{
    let mut out: Vec<Port> = Vec::new();
    let ghost ports = ports_of(out_ports@);
    let mut i: usize = 0;
    proof {
        assert(ports_of(out@) =~= Seq::<Named>::empty());
    }
    while i < raw.len()
        invariant
            0 <= i <= raw.len(),
            ports == ports_of(out_ports@),
            target_ports(raw@.take(i as int), ports) == Ok::<Seq<Named>, Fault>(ports_of(out@)),
        decreases raw.len() - i,
    {
        proof {
            assert(raw@.take(i + 1).drop_last() =~= raw@.take(i as int));
            assert(raw@.take(i + 1).last() == raw@[i as int]);
        }
        let name = &raw[i].1.text;
        let ghost before = ports_of(out@);
        let at = find_port(out_ports, name);
        if at < out_ports.len() {
            out.push(out_ports[at].clone());
            proof {
                assert(ports_of(out@) =~= before.push(ports[at as int]));
            }
        } else {
            proof {
                lemma_target_ports_fail(raw@, ports, i + 1);
            }
            return fail(Problem::UnknownPort, name);
        }
        i += 1;
    }
    proof {
        assert(raw@.take(i as int) =~= raw@);
    }
    Ok(out)
}

/// Whether every target has the type of the result that it takes.
fn check_results(targets: &Vec<Port>, types: &Vec<Type_>) -> (yes: bool)
    ensures
        yes == results_agree(ports_of(targets@), types@),
{
    let mut i: usize = 0;
    while i < targets.len() && i < types.len()
        invariant
            0 <= i <= targets.len(),
            i <= types.len(),
            forall|k: int| 0 <= k < i ==> (#[trigger] ports_of(targets@)[k]).1 == types@[k],
        decreases targets.len() - i,
    {
        let same = match (&targets[i].ty, &types[i]) {
            (Type_::Bit, Type_::Bit) => true,
        };
        if !same {
            return false;
        }
        i += 1;
    }
    true
}

/// Whether `result` and `vars` hold what `model` does, or `result` fails as
/// `model` does.
pub open spec fn statement_made(
    result: Result<Behaviour, Error>,
    vars: Seq<Variable>,
    model: Result<(Assigned, Seq<Named>), Fault>,
) -> bool {
    match model {
        Ok((assigned, known)) => result matches Ok(made) && made@ == assigned && variables_of(vars)
            == known,
        Err(fault) => result matches Err(e) && e@ == fault,
    }
}

/// What the statement `stmnt` means; the variables that it assigns are
/// added to `vars`.
pub fn parse_statement(
    stmnt: &syntax::BehaviourStatement,
    current_header: &EntityHeader,
    vars: &mut Vec<Variable>,
    headers: &Vec<EntityHeader>,
) -> (result: Result<Behaviour, Error>)
    ensures
        statement_made(
            result,
            final(vars)@,
            assignment(
                stmnt@,
                current_header@,
                variables_of(old(vars)@),
                headers_view(headers@),
            ),
        ),
{
    match stmnt {
        syntax::BehaviourStatement::VarAssign { targets, value } => {
            let (b_value, value_types) = match parse_value(value, current_header, vars, headers) {
                Ok(made) => made,
                Err(e) => {
                    return Err(e);
                },
            };
            if value_types.len() != targets.len() {
                return fail(Problem::TargetCount, &current_header.name);
            }
            let ghost known = variables_of(vars@);
            let ghost made = new_variables(targets@, value_types@);
            let mut target_vars: Vec<Variable> = Vec::new();
            let mut i: usize = 0;
            proof {
                assert(variables_of(target_vars@) =~= made.take(0));
                assert(variables_of(vars@) =~= known + made.take(0));
            }
            while i < targets.len()
                invariant
                    0 <= i <= targets.len(),
                    targets@.len() == value_types@.len(),
                    made == new_variables(targets@, value_types@),
                    variables_of(target_vars@) == made.take(i as int),
                    variables_of(vars@) == known + made.take(i as int),
                decreases targets.len() - i,
            {
                let var = Variable { name: targets[i].1.text.clone(), ty: value_types[i] };
                let ghost before_vars = variables_of(vars@);
                let ghost before_targets = variables_of(target_vars@);
                proof {
                    assert(var@ == made[i as int]);
                }
                vars.push(var.clone());
                target_vars.push(var);
                proof {
                    assert(variables_of(target_vars@) =~= before_targets.push(made[i as int]));
                    assert(variables_of(vars@) =~= before_vars.push(made[i as int]));
                    assert(variables_of(target_vars@) =~= made.take(i + 1));
                    assert(variables_of(vars@) =~= known + made.take(i + 1));
                }
                i += 1;
            }
            proof {
                assert(made.take(i as int) =~= made);
            }
            Ok(Behaviour::VarAssign { targets: target_vars, value: b_value })
        },
        syntax::BehaviourStatement::PortAssign { targets, value } => {
            let (b_value, value_types) = match parse_value(value, current_header, vars, headers) {
                Ok(made) => made,
                Err(e) => {
                    return Err(e);
                },
            };
            let target_ports = match resolve_targets(targets, &current_header.out_ports) {
                Ok(ports) => ports,
                Err(e) => {
                    return Err(e);
                },
            };
            if !check_results(&target_ports, &value_types) {
                return fail(Problem::TypeMismatch, &current_header.name);
            }
            Ok(Behaviour::PortAssign { targets: target_ports, value: b_value })
        },
    }
}

/// `done` before the statements that `rest` holds.
pub open spec fn and_then(done: Seq<Assigned>, rest: Result<Seq<Assigned>, Fault>) -> Result<
    Seq<Assigned>,
    Fault,
> {
    match rest {
        Ok(more) => Ok(done + more),
        Err(e) => Err(e),
    }
}

/// Whether `result` holds the entity `model`, or fails as `model` does.
pub open spec fn entity_made(result: Result<Entity, Error>, model: Result<Understood, Fault>) -> bool {
    match model {
        Ok(one) => result matches Ok(made) && made@ == one,
        Err(fault) => result matches Err(e) && e@ == fault,
    }
}

/// A copy of `ports`.
fn copy_ports(ports: &Vec<Port>) -> (copy: Vec<Port>)
    ensures
        copy@ == ports@,
{
    let mut copy: Vec<Port> = Vec::new();
    let mut i: usize = 0;
    while i < ports.len()
        invariant
            0 <= i <= ports.len(),
            copy@ == ports@.take(i as int),
        decreases ports.len() - i,
    {
        copy.push(ports[i].clone());
        proof {
            assert(copy@ =~= ports@.take(i + 1));
        }
        i += 1;
    }
    proof {
        assert(ports@.take(i as int) =~= ports@);
    }
    copy
}

/// What the entity `raw_entity` means among the entities with the headers
/// `headers`.
pub fn parse_entity(raw_entity: &syntax::Entity, headers: &Vec<EntityHeader>) -> (result: Result<
    Entity,
    Error,
>)
    ensures
        entity_made(result, understand(raw_entity@, headers_view(headers@))),
{
    let which = match find_header(headers, &raw_entity.name.text) {
        Some(which) => which,
        None => {
            return fail(Problem::UnknownEntity, &raw_entity.name.text);
        },
    };
    let current_header = &headers[which];
    let ghost raw = statements_of(raw_entity);
    let ghost header = current_header@;
    let ghost all = headers_view(headers@);
    let mut behaviour: Vec<Behaviour> = Vec::new();
    let mut vars: Vec<Variable> = Vec::new();
    let mut i: usize = 0;
    proof {
        assert(raw.skip(0) =~= raw);
        assert(variables_of(vars@) =~= Seq::<Named>::empty());
        assert(assigned_of(behaviour@) =~= Seq::<Assigned>::empty());
        match assignments(raw, header, Seq::empty(), all) {
            Ok(more) => {
                assert(assigned_of(behaviour@) + more =~= more);
            },
            Err(_) => {},
        }
    }
    while i < raw_entity.behaviour.len()
        invariant
            0 <= i <= raw_entity.behaviour.len(),
            which < headers@.len(),
            current_header == &headers@[which as int],
            raw == statements_of(raw_entity),
            raw.len() == raw_entity.behaviour@.len(),
            header == current_header@,
            all == headers_view(headers@),
            and_then(
                assigned_of(behaviour@),
                assignments(raw.skip(i as int), header, variables_of(vars@), all),
            ) == assignments(raw, header, Seq::empty(), all),
            last_header(all, raw_entity.name.text@) == which,
        decreases raw_entity.behaviour.len() - i,
    {
        proof {
            assert(raw.skip(i as int)[0] == raw[i as int]);
            assert(raw.skip(i as int).drop_first() =~= raw.skip(i + 1));
            assert(raw[i as int] == raw_entity.behaviour@[i as int]@);
        }
        let ghost before = assigned_of(behaviour@);
        let one = match parse_statement(&raw_entity.behaviour[i], current_header, &mut vars, headers) {
            Ok(one) => one,
            Err(e) => {
                return Err(e);
            },
        };
        proof {
            match assignments(raw.skip(i + 1), header, variables_of(vars@), all) {
                Ok(more) => {
                    assert(before + (seq![one@] + more) =~= before.push(one@) + more);
                },
                Err(_) => {},
            }
            assert(assigned_of(behaviour@.push(one)) =~= before.push(one@));
        }
        behaviour.push(one);
        i += 1;
    }
    proof {
        assert(raw.skip(i as int) =~= Seq::<Statement>::empty());
        assert(assigned_of(behaviour@) + Seq::<Assigned>::empty() =~= assigned_of(behaviour@));
    }
    Ok(
        Entity {
            name: current_header.name.clone(),
            in_ports: copy_ports(&current_header.in_ports),
            out_ports: copy_ports(&current_header.out_ports),
            behaviour,
        },
    )
}

/// The statements of `entity` as they were written.
pub open spec fn statements_of(entity: &syntax::Entity) -> Seq<Statement> {
    entity@.behaviour
}

/// Whether `result` holds the entities `model`, or fails as `model` does.
pub open spec fn entities_made(
    result: Result<Vec<Entity>, Error>,
    model: Result<Seq<Understood>, Fault>,
) -> bool {
    match model {
        Ok(list) => result matches Ok(made) && understood_of(made@) == list,
        Err(fault) => result matches Err(e) && e@ == fault,
    }
}

/// A list of entities whose headers fail up to some entity fails as a
/// whole, in the same way.
pub proof fn lemma_headers_fail(raws: Seq<Written>, upto: int)
    requires
        0 <= upto <= raws.len(),
        headers_of(raws.take(upto)) is Err,
    ensures
        headers_of(raws) == headers_of(raws.take(upto)),
    decreases raws.len() - upto,
{
    if upto < raws.len() {
        assert(raws.take(upto + 1).drop_last() =~= raws.take(upto));
        lemma_headers_fail(raws, upto + 1);
    } else {
        assert(raws.take(upto) =~= raws);
    }
}

/// A list of entities that fails up to some entity fails as a whole, in
/// the same way.
pub proof fn lemma_understand_fails(raws: Seq<Written>, headers: Seq<Header>, upto: int)
    requires
        0 <= upto <= raws.len(),
        understand_all(raws.take(upto), headers) is Err,
    ensures
        understand_all(raws, headers) == understand_all(raws.take(upto), headers),
    decreases raws.len() - upto,
{
    if upto < raws.len() {
        assert(raws.take(upto + 1).drop_last() =~= raws.take(upto));
        lemma_understand_fails(raws, headers, upto + 1);
    } else {
        assert(raws.take(upto) =~= raws);
    }
}

/// What the entities of one source mean: every name in them resolved, or
/// the first name that cannot be.
pub fn parse(raw_entities: Vec<syntax::Entity>) -> (result: Result<Vec<Entity>, Error>)
    ensures
        entities_made(result, analysis(syntax::written(raw_entities@))),
{
    let ghost raws = syntax::written(raw_entities@);
    let mut headers: Vec<EntityHeader> = Vec::new();
    let mut i: usize = 0;
    proof {
        assert(headers_view(headers@) =~= Seq::<Header>::empty());
    }
    while i < raw_entities.len()
        invariant
            0 <= i <= raw_entities.len(),
            raws == syntax::written(raw_entities@),
            headers_of(raws.take(i as int)) == Ok::<Seq<Header>, Fault>(headers_view(headers@)),
        decreases raw_entities.len() - i,
    {
        proof {
            assert(raws.take(i + 1).drop_last() =~= raws.take(i as int));
            assert(raws.take(i + 1).last() == raw_entities@[i as int]@);
        }
        let ghost before = headers_view(headers@);
        match parse_entity_header(&raw_entities[i]) {
            Ok(header) => {
                proof {
                    assert(headers_view(headers@.push(header)) =~= before.push(header@));
                }
                headers.push(header);
            },
            Err(e) => {
                proof {
                    lemma_headers_fail(raws, i + 1);
                }
                return Err(e);
            },
        }
        i += 1;
    }
    proof {
        assert(raws.take(i as int) =~= raws);
    }
    let ghost all = headers_view(headers@);
    let mut entities: Vec<Entity> = Vec::new();
    let mut k: usize = 0;
    proof {
        assert(understood_of(entities@) =~= Seq::<Understood>::empty());
    }
    while k < raw_entities.len()
        invariant
            0 <= k <= raw_entities.len(),
            raws == syntax::written(raw_entities@),
            all == headers_view(headers@),
            headers_of(raws) == Ok::<Seq<Header>, Fault>(all),
            understand_all(raws.take(k as int), all) == Ok::<Seq<Understood>, Fault>(
                understood_of(entities@),
            ),
        decreases raw_entities.len() - k,
    {
        proof {
            assert(raws.take(k + 1).drop_last() =~= raws.take(k as int));
            assert(raws.take(k + 1).last() == raw_entities@[k as int]@);
        }
        let ghost before = understood_of(entities@);
        match parse_entity(&raw_entities[k], &headers) {
            Ok(entity) => {
                proof {
                    assert(understood_of(entities@.push(entity)) =~= before.push(entity@));
                }
                entities.push(entity);
            },
            Err(e) => {
                proof {
                    lemma_understand_fails(raws, all, k + 1);
                }
                return Err(e);
            },
        }
        k += 1;
    }
    proof {
        assert(raws.take(k as int) =~= raws);
    }
    Ok(entities)
}

} // verus!
