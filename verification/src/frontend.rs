//! From source text to a normalized graph: tokens, syntax, meaning, and the
//! lowering of the entity that is to be compiled.

use vstd::prelude::*;
use vstd::string::{StrSliceExecFns, StringExecFns};

use crate::graph::builtin::{fan_out_free, sources_exist};
use crate::graph::entity::{
    first_instance, inline_steps, lemma_inline_done, plain_nodes, sound_library, InlineError,
};
use crate::graph::general::{acyclic, ends_exist, max_node_id};
use crate::graph::{builtin, entity, normalized};
use graphs::{entity_graph, lemma_ports_round_trip, port_names, port_node_names, GraphError};
use semantics::{analysis, understood_of, Entity};
use syntax::all_entities;
use tokens::{lex, read_all, LexError, Token};

pub mod graphs;
pub mod semantics;
pub mod syntax;
pub mod tokens;

verus! {

/// A stretch of the source text: the characters from `start` to just
/// before `end`, counted in characters from the start of the source, and
/// the text that stands there.
#[derive(Debug)]
pub struct Span {
    pub start: usize,
    pub end: usize,
    pub text: String,
}

impl Span {
    /// The span is as long as its text.
    pub open spec fn wf(&self) -> bool {
        self.start <= self.end && self.text@.len() == self.end - self.start
    }

    /// The span that covers all of `content`.
    pub fn new(content: &str) -> (span: Self)
        ensures
            span.wf(),
            span.start == 0,
            span.text@ == content@,
    {
        Span { start: 0, end: content.unicode_len(), text: String::from_str(content) }
    }

    /// The text of the span.
    pub fn content(&self) -> (text: &str)
        ensures
            text@ == self.text@,
    {
        self.text.as_str()
    }

    /// The span from `start` to just before `end`, which must lie within
    /// this span.
    pub fn sub_span(&self, start: usize, end: usize) -> (span: Self)
        requires
            self.wf(),
            self.start <= start <= end <= self.end,
        ensures
            span.wf(),
            span.start == start,
            span.end == end,
            span.text@ == self.text@.subrange(start - self.start, end - self.start),
    {
        let text = self.text.as_str().substring_char(start - self.start, end - self.start);
        Span { start, end, text: String::from_str(text) }
    }
}

impl Clone for Span {
    fn clone(&self) -> (copy: Self)
        ensures
            copy == *self,
    {
        Span { start: self.start, end: self.end, text: self.text.clone() }
    }
}

/// How many instances of entities are inlined at most when a source is
/// parsed.
pub const INLINE_LIMIT: u32 = 0x0000_1000;

/// Why a source could not be turned into a graph.
#[derive(Debug)]
pub enum ParseError {
    /// The text cannot be split into tokens.
    Tokens(LexError),
    /// The tokens cannot be read as entities.
    Syntax(syntax::Error),
    /// A name in the source stands for nothing.
    Meaning(semantics::Error),
    /// The source holds no entity.
    NoEntity,
    /// The source holds no entity with the name asked for.
    UnknownTarget,
    /// An entity cannot be turned into a graph.
    Graph(GraphError),
    /// The instances in the entity cannot be inlined.
    Inline(InlineError),
    /// The graph needs more ids than there are.
    TooLarge,
}

/// Index of the first entity with the name `name`; `entities.len()` when
/// there is none.
pub open spec fn entity_named(entities: Seq<Entity>, name: Seq<char>) -> int
    decreases entities.len(),
{
    if entities.len() == 0 {
        0
    } else if entities[0].name@ == name {
        0
    } else {
        1 + entity_named(entities.drop_first(), name)
    }
}

/// Whether `library` holds the graph of every entity of `entities` under
/// its name, in order.
pub open spec fn graphs_of(library: Seq<(String, entity::Graph)>, entities: Seq<Entity>) -> bool {
    &&& library.len() == entities.len()
    &&& forall|i: int|
        0 <= i < library.len() ==> (#[trigger] library[i]).0 == entities[i].name && entity_graph(
            entities[i],
        ) == Ok::<(Seq<entity::Node>, Seq<entity::Edge>), GraphError>(
            (library[i].1.nodes@, library[i].1.edges@),
        )
}

/// Index of the first entity whose graph cannot be made; `entities.len()`
/// when there is none.
pub open spec fn first_graphless(entities: Seq<Entity>) -> int
    decreases entities.len(),
{
    if entities.len() == 0 {
        0
    } else if entity_graph(entities[0]) is Err {
        0
    } else {
        1 + first_graphless(entities.drop_first())
    }
}

/// Whether `result` is what lowering makes of the builtin graph with the
/// nodes `nodes` and the edges `edges`: the normalized graph, unless its
/// ids do not fit.
pub open spec fn lowered(
    nodes: Seq<builtin::Node>,
    edges: Seq<builtin::Edge>,
    result: Result<normalized::Graph, ParseError>,
) -> bool {
    if max_node_id(nodes) + 1 + edges.len() > u32::MAX {
        result matches Err(ParseError::TooLarge)
    } else {
        let first = max_node_id(nodes) + 1;
        result matches Ok(graph) && graph.nodes@ == builtin::lower_nodes(nodes) + builtin::split_all(
            edges,
            first,
        ).0 && graph.edges@ == builtin::split_all(edges, first).1 + builtin::split_all(
            edges,
            first,
        ).2 && (sources_exist(nodes, edges) ==> fan_out_free(graph.edges@)) && (ends_exist(
            nodes,
            edges,
        ) && acyclic(edges) ==> acyclic(graph.edges@))
    }
}

/// Whether `result` is what compiling the entity asked for makes of the
/// entities `entities`: the entity named by `target`, or the first where
/// none is named, as a graph with the instances of the other entities
/// inlined and every fan-out split.
pub open spec fn compiled(
    entities: Seq<Entity>,
    target: Option<Seq<char>>,
    result: Result<normalized::Graph, ParseError>,
) -> bool {
    let which = match target {
        Some(name) => entity_named(entities, name),
        None => 0,
    };
    if which >= entities.len() {
        match target {
            Some(_) => result matches Err(ParseError::UnknownTarget),
            None => result matches Err(ParseError::NoEntity),
        }
    } else {
        match entity_graph(entities[which]) {
            Err(e) => result matches Err(ParseError::Graph(err)) && err == e,
            Ok(own) => if first_graphless(entities) < entities.len() {
                result matches Err(ParseError::Graph(err)) && entity_graph(
                    entities[first_graphless(entities)],
                ) == Err::<(Seq<entity::Node>, Seq<entity::Edge>), GraphError>(err)
            } else {
                exists|library: Seq<(String, entity::Graph)>|
                    #![trigger graphs_of(library, entities)]
                    graphs_of(library, entities) && match inline_steps(
                        own,
                        library,
                        INLINE_LIMIT as nat,
                    ) {
                        Err(e) => result matches Err(ParseError::Inline(err)) && err == e,
                        Ok(last) => if first_instance(last.0) < last.0.len() {
                            result matches Err(ParseError::Inline(err)) && err
                                == InlineError::TooManyInstances
                        } else {
                            lowered(plain_nodes(last.0), last.1, result)
                        },
                    }
            },
        }
    }
}

/// The graph compiled from an entity that holds no instance of another
/// entity has exactly the declared input ports of the entity as its input
/// nodes and exactly its declared output ports as its output nodes, by name
/// and in order.
pub proof fn lemma_compiled_ports(
    entities: Seq<Entity>,
    target: Option<Seq<char>>,
    graph: normalized::Graph,
    which: int,
)
    requires
        compiled(entities, target, Ok(graph)),
        which == match target {
            Some(name) => entity_named(entities, name),
            None => 0,
        },
        which < entities.len() ==> (entity_graph(entities[which]) matches Ok(own) ==> first_instance(
            own.0,
        ) >= own.0.len()),
    ensures
        0 <= which < entities.len(),
        port_node_names(graph.nodes@, true) == port_names(entities[which].in_ports@),
        port_node_names(graph.nodes@, false) == port_names(entities[which].out_ports@),
{
    lemma_entity_named(entities, target);
    let own = entity_graph(entities[which])->Ok_0;
    let library = choose|library: Seq<(String, entity::Graph)>|
        #![trigger graphs_of(library, entities)]
        graphs_of(library, entities) && match inline_steps(own, library, INLINE_LIMIT as nat) {
            Err(e) => false,
            Ok(last) => first_instance(last.0) >= last.0.len() && lowered(
                plain_nodes(last.0),
                last.1,
                Ok(graph),
            ),
        };
    lemma_inline_done(own, library, INLINE_LIMIT as nat);
    lemma_ports_round_trip(entities[which], max_node_id(plain_nodes(own.0)) + 1);
}

/// The index that `target` picks is not negative.
proof fn lemma_entity_named(entities: Seq<Entity>, target: Option<Seq<char>>)
    ensures
        target matches Some(name) ==> 0 <= entity_named(entities, name),
    decreases entities.len(),
{
    if let Some(name) = target {
        if entities.len() > 0 && entities[0].name@ != name {
            lemma_entity_named(entities.drop_first(), target);
        }
    }
}

/// Whether `result` is what parsing makes of the source `content`.
pub open spec fn parsed(
    content: Seq<char>,
    target: Option<Seq<char>>,
    result: Result<normalized::Graph, ParseError>,
) -> bool {
    match lex(content, 0, 0) {
        Err(e) => result matches Err(ParseError::Tokens(err)) && err == e,
        Ok(lexemes) => exists|tokens: Seq<Token>|
            #![trigger read_all(tokens, lexemes, content, 0)]
            read_all(tokens, lexemes, content, 0) && match all_entities(tokens, 0) {
                Err(fault) => result matches Err(ParseError::Syntax(err)) && err@ == fault,
                Ok(written) => match analysis(written) {
                    Err(fault) => result matches Err(ParseError::Meaning(err)) && err@ == fault,
                    Ok(understood) => exists|entities: Seq<Entity>|
                        #![trigger understood_of(entities)]
                        understood_of(entities) == understood && compiled(entities, target, result),
                },
            },
    }
}

/// Index of the first entity with the name `name`.
fn find_entity(entities: &Vec<Entity>, name: &String) -> (at: usize)
    ensures
        at == entity_named(entities@, name@),
        at <= entities@.len(),
{
    let mut i: usize = 0;
    proof {
        assert(entities@.skip(0) =~= entities@);
    }
    while i < entities.len()
        invariant
            0 <= i <= entities.len(),
            entity_named(entities@, name@) == i + entity_named(entities@.skip(i as int), name@),
        decreases entities.len() - i,
    {
        proof {
            assert(entities@.skip(i as int)[0] == entities@[i as int]);
            assert(entities@.skip(i as int).drop_first() =~= entities@.skip(i + 1));
        }
        if entities[i].name == *name {
            return i;
        }
        i += 1;
    }
    proof {
        assert(entities@.skip(i as int) =~= Seq::<Entity>::empty());
    }
    i
}

/// The graph of every entity of `entities` under its name, or the first
/// error.
fn all_graphs(entities: &Vec<Entity>) -> (result: Result<Vec<(String, entity::Graph)>, GraphError>)
    ensures
        match result {
            Ok(library) => graphs_of(library@, entities@) && sound_library(library@)
                && first_graphless(entities@) == entities@.len(),
            Err(e) => first_graphless(entities@) < entities@.len() && entity_graph(
                entities@[first_graphless(entities@)],
            ) == Err::<(Seq<entity::Node>, Seq<entity::Edge>), GraphError>(e),
        },
{
    let mut library: Vec<(String, entity::Graph)> = Vec::new();
    let mut i: usize = 0;
    proof {
        assert(entities@.skip(0) =~= entities@);
    }
    while i < entities.len()
        invariant
            0 <= i <= entities.len(),
            first_graphless(entities@) == i + first_graphless(entities@.skip(i as int)),
            library@.len() == i,
            sound_library(library@),
            forall|k: int|
                0 <= k < i ==> (#[trigger] library@[k]).0 == entities@[k].name && entity_graph(
                    entities@[k],
                ) == Ok::<(Seq<entity::Node>, Seq<entity::Edge>), GraphError>(
                    (library@[k].1.nodes@, library@[k].1.edges@),
                ),
        decreases entities.len() - i,
    {
        proof {
            assert(entities@.skip(i as int)[0] == entities@[i as int]);
            assert(entities@.skip(i as int).drop_first() =~= entities@.skip(i + 1));
        }
        match entities[i].graph() {
            Ok(graph) => {
                let ghost before = library@;
                library.push((entities[i].name.clone(), graph));
                proof {
                    assert forall|k: int| 0 <= k < library@.len() implies ends_exist(
                        (#[trigger] library@[k]).1.nodes@,
                        library@[k].1.edges@,
                    ) && acyclic(library@[k].1.edges@) by {
                        if k < before.len() {
                            assert(library@[k] == before[k]);
                        }
                    }
                }
            },
            Err(e) => {
                return Err(e);
            },
        }
        i += 1;
    }
    proof {
        assert(entities@.skip(i as int) =~= Seq::<Entity>::empty());
    }
    Ok(library)
}

/// Lowers a builtin graph to its normalized form, unless its ids do not
/// fit.
pub fn lower(graph: builtin::Graph) -> (result: Result<normalized::Graph, ParseError>)
    ensures
        lowered(graph.nodes@, graph.edges@, result),
{
    let highest: u64 = if graph.nodes.len() == 0 {
        0
    } else {
        graph.max_id() as u64 + 1
    };
    proof {
        crate::graph::general::lemma_max_node_id(graph.nodes@);
    }
    if graph.edges.len() as u128 + highest as u128 > u32::MAX as u128 {
        return Err(ParseError::TooLarge);
    }
    Ok(graph.into_normalized())
}

/// Compiles the entity named by `target`, or the first entity where none
/// is named.
pub fn compile(entities: Vec<Entity>, target: Option<String>) -> (result: Result<
    normalized::Graph,
    ParseError,
>)
    ensures
        compiled(
            entities@,
            match target {
                Some(name) => Some(name@),
                None => None,
            },
            result,
        ),
        result matches Ok(graph) ==> fan_out_free(graph.edges@) && acyclic(graph.edges@),
{
    let which = match &target {
        Some(name) => {
            let at = find_entity(&entities, name);
            if at >= entities.len() {
                return Err(ParseError::UnknownTarget);
            }
            at
        },
        None => {
            if entities.len() == 0 {
                return Err(ParseError::NoEntity);
            }
            0
        },
    };
    let own = match entities[which].graph() {
        Ok(own) => own,
        Err(e) => {
            return Err(ParseError::Graph(e));
        },
    };
    let library = match all_graphs(&entities) {
        Ok(library) => library,
        Err(e) => {
            return Err(ParseError::Graph(e));
        },
    };
    let plain = match own.into_builtin(&library, INLINE_LIMIT) {
        Ok(plain) => plain,
        Err(e) => {
            return Err(ParseError::Inline(e));
        },
    };
    proof {
        assert(sources_exist(plain.nodes@, plain.edges@)) by {
            assert forall|i: int| 0 <= i < plain.edges@.len() implies crate::graph::general::has_id(
                plain.nodes@,
                (#[trigger] plain.edges@[i]).src_id,
            ) by {}
        }
    }
    lower(plain)
}

/// Parses the source `content` and compiles the entity named by `target`,
/// or the first entity of the source where none is named.
pub fn parse(content: &str, target: Option<String>) -> (result: Result<normalized::Graph, ParseError>)
    ensures
        parsed(
            content@,
            match target {
                Some(name) => Some(name@),
                None => None,
            },
            result,
        ),
        result matches Ok(graph) ==> fan_out_free(graph.edges@) && acyclic(graph.edges@),
{
    let span = Span::new(content);
    let tokens = match tokens::tokenize(span) {
        Ok(tokens) => tokens,
        Err(e) => {
            return Err(ParseError::Tokens(e));
        },
    };
    let ghost read = tokens@;
    let written = match syntax::parse(tokens) {
        Ok(written) => written,
        Err(e) => {
            return Err(ParseError::Syntax(e));
        },
    };
    let entities = match semantics::parse(written) {
        Ok(entities) => entities,
        Err(e) => {
            return Err(ParseError::Meaning(e));
        },
    };
    let ghost understood = entities@;
    let result = compile(entities, target);
    proof {
        assert(understood_of(understood) == understood_of(understood));
    }
    result
}

} // verus!
