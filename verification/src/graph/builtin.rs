//! The builtin graph: every user-defined entity has been inlined, so only
//! primitive operations remain, but an output port may still drive several
//! inputs.

use vstd::prelude::*;

pub use super::general::Edge;
pub use super::general::fan_out_free;
use super::general::{acyclic, ends_exist, has_id, lemma_max_node_id, max_node_id, respects};
use super::normalized;

verus! {

pub type Node = super::general::Node<NodeType>;

pub type Graph = super::general::Graph<NodeType>;

#[derive(Debug, Clone, Copy, PartialEq, Eq, Structural)]
pub enum BuiltinOp {
    And,
    Not,
    Xor,
    Or,
}

#[derive(Debug)]
pub enum NodeType {
    Input { name: String, number: u32 },
    Output { name: String, number: u32 },
    Variable { name: String },
    BuiltinOp { op: BuiltinOp },
}

/// The normalized operation that stands for `op`.
pub open spec fn lower_op(op: BuiltinOp) -> normalized::BuiltinOp {
    match op {
        BuiltinOp::And => normalized::BuiltinOp::And,
        BuiltinOp::Not => normalized::BuiltinOp::Not,
        BuiltinOp::Xor => normalized::BuiltinOp::Xor,
        BuiltinOp::Or => normalized::BuiltinOp::Or,
    }
}

/// The normalized node kind that stands for `kind`.
pub open spec fn lower_kind(kind: NodeType) -> normalized::NodeType {
    match kind {
        NodeType::Input { name, number } => normalized::NodeType::Input { name, number },
        NodeType::Output { name, number } => normalized::NodeType::Output { name, number },
        NodeType::Variable { name } => normalized::NodeType::Variable { name },
        NodeType::BuiltinOp { op } => normalized::NodeType::Operation { op: lower_op(op) },
    }
}

/// Every node of `nodes` under its old id with its kind lowered.
pub open spec fn lower_nodes(nodes: Seq<Node>) -> Seq<normalized::Node> {
    Seq::new(
        nodes.len(),
        |i: int| normalized::Node { id: nodes[i].id, inner: lower_kind(nodes[i].inner) },
    )
}

/// Whether another edge of `edges` leaves from the same output port as
/// `edges[i]`.
pub open spec fn shares_source(edges: Seq<Edge>, i: int) -> bool {
    exists|j: int|
        0 <= j < edges.len() && j != i && (#[trigger] edges[j]).source() == edges[i].source()
}

/// The least index at or after `from` whose edge shares its source;
/// `edges.len()` when there is none.
pub open spec fn first_shared_from(edges: Seq<Edge>, from: int) -> int
    decreases edges.len() - from,
{
    if from >= edges.len() {
        edges.len() as int
    } else if shares_source(edges, from) {
        from
    } else {
        first_shared_from(edges, from + 1)
    }
}

/// The edges that leave from output port `s`, in order.
pub open spec fn from_source(edges: Seq<Edge>, s: (u32, u32)) -> Seq<Edge> {
    edges.filter(|e: Edge| e.source() == s)
}

/// The edges that leave from any other output port than `s`, in order.
pub open spec fn not_from_source(edges: Seq<Edge>, s: (u32, u32)) -> Seq<Edge> {
    edges.filter(|e: Edge| e.source() != s)
}

/// The splitter that takes over the fan-out `moved`.
pub open spec fn splitter_node(id: int, moved: Seq<Edge>) -> normalized::Node {
    normalized::Node {
        id: id as u32,
        inner: normalized::NodeType::Splitter { port_count: moved.len() as u32 },
    }
}

/// The edge that feeds the splitter `id` from output port `s`.
pub open spec fn splitter_feed(id: int, s: (u32, u32)) -> Edge {
    Edge { src_id: s.0, src_port: s.1, dest_id: id as u32, dest_port: 0 }
}

/// One edge per edge of `moved`, to the same destination, leaving from the
/// splitter's output port of the same index.
pub open spec fn splitter_edges(id: int, moved: Seq<Edge>) -> Seq<Edge> {
    Seq::new(
        moved.len(),
        |k: int|
            Edge {
                src_id: id as u32,
                src_port: k as u32,
                dest_id: moved[k].dest_id,
                dest_port: moved[k].dest_port,
            },
    )
}

/// A predicate that rejects some element strictly shortens the sequence.
pub proof fn lemma_filter_shrinks<A>(s: Seq<A>, pred: spec_fn(A) -> bool, i: int)
    requires
        0 <= i < s.len(),
        !pred(s[i]),
    ensures
        s.filter(pred).len() < s.len(),
    decreases s.len(),
{
    reveal(Seq::filter);
    s.drop_last().lemma_filter_len(pred);
    if i < s.len() - 1 {
        assert(s.drop_last()[i] == s[i]);
        lemma_filter_shrinks(s.drop_last(), pred, i);
    }
}

/// What splitter insertion makes of the edge list `head` when the next free
/// node id is `next_id`: the splitters added, the edges of `head` that stay,
/// and the edges added. Sources are taken in the order in which `head` first
/// names them; each fan-out is replaced by one splitter.
pub open spec fn split_all(head: Seq<Edge>, next_id: int) -> (
    Seq<normalized::Node>,
    Seq<Edge>,
    Seq<Edge>,
)
    decreases head.len(),
{
    let i = first_shared_from(head, 0);
    if 0 <= i < head.len() {
        let s = head[i].source();
        let moved = from_source(head, s);
        let kept = not_from_source(head, s);
        proof {
            lemma_filter_shrinks(head, |e: Edge| e.source() != s, i);
        }
        let rest = split_all(kept, next_id + 1);
        (
            seq![splitter_node(next_id, moved)] + rest.0,
            rest.1,
            seq![splitter_feed(next_id, s)] + splitter_edges(next_id, moved) + rest.2,
        )
    } else {
        (Seq::empty(), head, Seq::empty())
    }
}

/// `first_shared_from` is the least shared index at or after `from`.
pub proof fn lemma_first_shared_from(edges: Seq<Edge>, from: int)
    requires
        0 <= from <= edges.len(),
    ensures
        from <= first_shared_from(edges, from) <= edges.len(),
        first_shared_from(edges, from) < edges.len() ==> shares_source(
            edges,
            first_shared_from(edges, from),
        ),
        forall|k: int| from <= k < first_shared_from(edges, from) ==> !shares_source(edges, k),
    decreases edges.len() - from,
{
    if from < edges.len() && !shares_source(edges, from) {
        lemma_first_shared_from(edges, from + 1);
    }
}

/// Whether some edge of `edges` leaves from output port `s`.
pub open spec fn uses_source(edges: Seq<Edge>, s: (u32, u32)) -> bool {
    exists|j: int| 0 <= j < edges.len() && (#[trigger] edges[j]).source() == s
}

/// Every edge names a node of `nodes` as its source.
pub open spec fn sources_exist(nodes: Seq<Node>, edges: Seq<Edge>) -> bool {
    forall|i: int| 0 <= i < edges.len() ==> has_id(nodes, (#[trigger] edges[i]).src_id)
}

/// A source used after filtering was used before.
proof fn lemma_filter_uses_source(edges: Seq<Edge>, pred: spec_fn(Edge) -> bool, s: (u32, u32))
    requires
        uses_source(edges.filter(pred), s),
    ensures
        uses_source(edges, s),
        exists|j: int| 0 <= j < edges.len() && pred(edges[j]) && (#[trigger] edges[j]).source() == s,
{
    let f = edges.filter(pred);
    let j = choose|j: int| 0 <= j < f.len() && (#[trigger] f[j]).source() == s;
    broadcast use vstd::seq_lib::group_filter_ensures;

    assert(f.contains(f[j]));
    edges.lemma_filter_contains_rev(pred, f[j]);
    let k = choose|k: int| 0 <= k < edges.len() && edges[k] == f[j];
    assert(edges[k].source() == s);
}

/// Splitter insertion leaves no shared source, provided the ids below
/// `next_id` cover every source that `head` names.
pub proof fn lemma_split_all_fan_out_free(head: Seq<Edge>, next_id: int)
    requires
        0 <= next_id,
        next_id + head.len() <= u32::MAX,
        forall|i: int| 0 <= i < head.len() ==> (#[trigger] head[i]).src_id < next_id,
    ensures
        fan_out_free(split_all(head, next_id).1 + split_all(head, next_id).2),
        forall|s: (u32, u32)| #[trigger]
            uses_source(split_all(head, next_id).1, s) ==> uses_source(head, s),
        forall|i: int|
            0 <= i < split_all(head, next_id).2.len() ==> {
                let e = #[trigger] split_all(head, next_id).2[i];
                e.src_id >= next_id || (uses_source(head, e.source()) && !uses_source(
                    split_all(head, next_id).1,
                    e.source(),
                ))
            },
    decreases head.len(),
{
    let at = first_shared_from(head, 0);
    lemma_first_shared_from(head, 0);
    let out = split_all(head, next_id);
    if 0 <= at < head.len() {
        let s = head[at].source();
        let keep = |e: Edge| e.source() != s;
        let moved = from_source(head, s);
        let kept = not_from_source(head, s);
        lemma_filter_shrinks(head, keep, at);
        head.lemma_filter_len(|e: Edge| e.source() == s);
        broadcast use vstd::seq_lib::group_filter_ensures;

        assert forall|i: int| 0 <= i < kept.len() implies (#[trigger] kept[i]).src_id < next_id
            + 1 by {
            assert(kept.contains(kept[i]));
            head.lemma_filter_contains_rev(keep, kept[i]);
            let k = choose|k: int| 0 <= k < head.len() && head[k] == kept[i];
            assert(head[k].src_id < next_id);
        }
        lemma_split_all_fan_out_free(kept, next_id + 1);
        let rest = split_all(kept, next_id + 1);
        let feed = splitter_feed(next_id, s);
        let fresh = splitter_edges(next_id, moved);
        assert(out.1 == rest.1);
        assert(out.2 == seq![feed] + fresh + rest.2);
        let all = out.1 + out.2;
        let inner = rest.1 + rest.2;
        let n1 = rest.1.len() as int;
        let nf = fresh.len() as int;
        // sources that remain in the kept part differ from `s` and lie below `next_id`
        assert forall|x: (u32, u32)| uses_source(kept, x) implies x != s && x.0 < next_id
            && uses_source(head, x) by {
            lemma_filter_uses_source(head, keep, x);
            let j = choose|j: int|
                0 <= j < head.len() && keep(head[j]) && (#[trigger] head[j]).source() == x;
            assert(head[j].src_id < next_id);
        }
        assert forall|x: (u32, u32)| #[trigger] uses_source(out.1, x) implies uses_source(
            head,
            x,
        ) by {
            assert(uses_source(rest.1, x));
            assert(uses_source(kept, x));
        }
        assert forall|i: int| 0 <= i < out.2.len() implies ({
            let e = #[trigger] out.2[i];
            e.src_id >= next_id || (uses_source(head, e.source()) && !uses_source(
                out.1,
                e.source(),
            ))
        }) by {
            let e = out.2[i];
            if i == 0 {
                assert(e == feed);
                assert(head[at].source() == s);
                assert(uses_source(head, s));
                if uses_source(rest.1, s) {
                    assert(uses_source(kept, s));
                }
            } else if i < 1 + nf {
                assert(e == fresh[i - 1]);
            } else {
                assert(e == rest.2[i - 1 - nf]);
                if e.src_id < next_id + 1 {
                    assert(uses_source(kept, e.source()));
                }
            }
        }
        assert forall|i: int, j: int| 0 <= i < j < all.len() implies (#[trigger] all[i]).source()
            != (#[trigger] all[j]).source() by {
            // classify an index of `all`: kept part, feed, fresh, or the rest
            let a = all[i];
            let b = all[j];
            if i < n1 {
                assert(a == rest.1[i]);
                assert(uses_source(rest.1, a.source()));
                assert(uses_source(kept, a.source()));
                if j < n1 {
                    assert(inner[i] == a && inner[j] == b);
                } else if j == n1 {
                    assert(b == feed);
                } else if j < n1 + 1 + nf {
                    assert(b == fresh[j - n1 - 1]);
                } else {
                    assert(b == rest.2[j - n1 - 1 - nf]);
                    assert(inner[i] == a && inner[j - 1 - nf] == b);
                }
            } else if i == n1 {
                assert(a == feed);
                if j < n1 + 1 + nf {
                    assert(b == fresh[j - n1 - 1]);
                } else {
                    assert(b == rest.2[j - n1 - 1 - nf]);
                    if b.src_id < next_id + 1 {
                        assert(uses_source(kept, b.source()));
                    }
                }
            } else if i < n1 + 1 + nf {
                assert(a == fresh[i - n1 - 1]);
                if j < n1 + 1 + nf {
                    assert(b == fresh[j - n1 - 1]);
                } else {
                    assert(b == rest.2[j - n1 - 1 - nf]);
                    if b.src_id < next_id + 1 {
                        assert(uses_source(kept, b.source()));
                    }
                }
            } else {
                assert(a == rest.2[i - n1 - 1 - nf]);
                assert(b == rest.2[j - n1 - 1 - nf]);
                assert(inner[i - 1 - nf] == a && inner[j - 1 - nf] == b);
            }
        }
    } else {
        assert(out.1 + out.2 =~= head);
        assert forall|i: int, j: int| 0 <= i < j < head.len() implies (#[trigger] head[i]).source()
            != (#[trigger] head[j]).source() by {
            if head[i].source() == head[j].source() {
                assert(shares_source(head, i));
            }
        }
    }
}

/// Splitter insertion keeps a graph free of cycles: from a ranking of the
/// nodes that rises along every edge of `head` it yields one that rises
/// along every edge of the result, provided that the ids below `next_id`
/// cover every node that `head` names.
pub proof fn lemma_split_all_respects(head: Seq<Edge>, next_id: int, rank: spec_fn(u32) -> int)
    requires
        0 <= next_id,
        next_id + head.len() <= u32::MAX,
        forall|i: int|
            0 <= i < head.len() ==> (#[trigger] head[i]).src_id < next_id && head[i].dest_id
                < next_id,
        respects(head, rank),
    ensures
        exists|higher: spec_fn(u32) -> int|
            #![trigger respects(split_all(head, next_id).1 + split_all(head, next_id).2, higher)]
            respects(split_all(head, next_id).1 + split_all(head, next_id).2, higher) && forall|
                v: u32,
            |
                v < next_id ==> #[trigger] higher(v) == 2 * rank(v),
        forall|i: int|
            0 <= i < (split_all(head, next_id).1 + split_all(head, next_id).2).len() ==> {
                let e = #[trigger] (split_all(head, next_id).1 + split_all(head, next_id).2)[i];
                (e.src_id >= next_id || exists|j: int|
                    0 <= j < head.len() && (#[trigger] head[j]).src_id == e.src_id) && (e.dest_id
                    >= next_id || exists|j: int|
                    0 <= j < head.len() && (#[trigger] head[j]).dest_id == e.dest_id)
            },
    decreases head.len(),
{
    let at = first_shared_from(head, 0);
    lemma_first_shared_from(head, 0);
    let out = split_all(head, next_id);
    let all = out.1 + out.2;
    if 0 <= at < head.len() {
        let s = head[at].source();
        let keep = |e: Edge| e.source() != s;
        let take = |e: Edge| e.source() == s;
        let moved = from_source(head, s);
        let kept = not_from_source(head, s);
        lemma_filter_shrinks(head, keep, at);
        head.lemma_filter_len(take);
        broadcast use vstd::seq_lib::group_filter_ensures;

        assert forall|i: int| 0 <= i < kept.len() implies (#[trigger] kept[i]).src_id < next_id + 1
            && kept[i].dest_id < next_id + 1 && head.contains(kept[i]) by {
            assert(kept.contains(kept[i]));
            head.lemma_filter_contains_rev(keep, kept[i]);
            let k = choose|k: int| 0 <= k < head.len() && head[k] == kept[i];
            assert(head[k].src_id < next_id);
        }
        assert forall|i: int| 0 <= i < moved.len() implies head.contains(#[trigger] moved[i])
            && moved[i].source() == s by {
            assert(moved.contains(moved[i]));
            head.lemma_filter_contains_rev(take, moved[i]);
        }
        assert(respects(kept, rank)) by {
            assert forall|i: int| 0 <= i < kept.len() implies rank((#[trigger] kept[i]).src_id)
                < rank(kept[i].dest_id) by {
                let k = choose|k: int| 0 <= k < head.len() && head[k] == kept[i];
                assert(rank(head[k].src_id) < rank(head[k].dest_id));
            }
        }
        lemma_split_all_respects(kept, next_id + 1, rank);
        let rest = split_all(kept, next_id + 1);
        let inner = rest.1 + rest.2;
        let lower = choose|lower: spec_fn(u32) -> int|
            #![trigger respects(rest.1 + rest.2, lower)]
            respects(rest.1 + rest.2, lower) && forall|v: u32|
                v < next_id + 1 ==> #[trigger] lower(v) == 2 * rank(v);
        let feed = splitter_feed(next_id, s);
        let fresh = splitter_edges(next_id, moved);
        let higher = |v: u32|
            if v == next_id {
                2 * rank(s.0) + 1
            } else {
                lower(v)
            };
        let n1 = rest.1.len() as int;
        let nf = fresh.len() as int;
        assert(out.1 == rest.1);
        assert(out.2 == seq![feed] + fresh + rest.2);
        assert(head[at].src_id == s.0);
        // an edge of the inner result names no node with the id `next_id`
        assert forall|i: int| 0 <= i < inner.len() implies (#[trigger] inner[i]).src_id != next_id
            && inner[i].dest_id != next_id by {
            let e = inner[i];
            if e.src_id < next_id + 1 {
                let j = choose|j: int| 0 <= j < kept.len() && (#[trigger] kept[j]).src_id == e.src_id;
                assert(kept[j].src_id < next_id) by {
                    let k = choose|k: int| 0 <= k < head.len() && head[k] == kept[j];
                    assert(head[k].src_id < next_id);
                }
            }
            if e.dest_id < next_id + 1 {
                let j = choose|j: int|
                    0 <= j < kept.len() && (#[trigger] kept[j]).dest_id == e.dest_id;
                assert(kept[j].dest_id < next_id) by {
                    let k = choose|k: int| 0 <= k < head.len() && head[k] == kept[j];
                    assert(head[k].dest_id < next_id);
                }
            }
        }
        assert forall|i: int| 0 <= i < all.len() implies higher((#[trigger] all[i]).src_id) < higher(
            all[i].dest_id,
        ) by {
            if i < n1 {
                assert(all[i] == inner[i]);
                assert(lower(inner[i].src_id) < lower(inner[i].dest_id));
            } else if i == n1 {
                assert(all[i] == feed);
            } else if i < n1 + 1 + nf {
                let k = i - n1 - 1;
                assert(all[i] == fresh[k]);
                let m = moved[k];
                assert(head.contains(m));
                let h = choose|h: int| 0 <= h < head.len() && head[h] == m;
                assert(rank(head[h].src_id) < rank(head[h].dest_id));
                assert(head[h].dest_id < next_id);
            } else {
                assert(all[i] == inner[i - 1 - nf]);
                assert(lower(inner[i - 1 - nf].src_id) < lower(inner[i - 1 - nf].dest_id));
            }
        }
        assert(respects(all, higher));
        assert forall|v: u32| v < next_id implies #[trigger] higher(v) == 2 * rank(v) by {}
        assert forall|i: int| 0 <= i < all.len() implies ({
            let e = #[trigger] all[i];
            (e.src_id >= next_id || exists|j: int|
                0 <= j < head.len() && (#[trigger] head[j]).src_id == e.src_id) && (e.dest_id
                >= next_id || exists|j: int|
                0 <= j < head.len() && (#[trigger] head[j]).dest_id == e.dest_id)
        }) by {
            let e = all[i];
            if i < n1 || i >= n1 + 1 + nf {
                let ii = if i < n1 {
                    i
                } else {
                    i - 1 - nf
                };
                assert(e == inner[ii]);
                if e.src_id < next_id {
                    let j = choose|j: int|
                        0 <= j < kept.len() && (#[trigger] kept[j]).src_id == e.src_id;
                    let k = choose|k: int| 0 <= k < head.len() && head[k] == kept[j];
                    assert(head[k].src_id == e.src_id);
                }
                if e.dest_id < next_id {
                    let j = choose|j: int|
                        0 <= j < kept.len() && (#[trigger] kept[j]).dest_id == e.dest_id;
                    let k = choose|k: int| 0 <= k < head.len() && head[k] == kept[j];
                    assert(head[k].dest_id == e.dest_id);
                }
            } else if i == n1 {
                assert(e == feed);
                assert(head[at].src_id == e.src_id);
            } else {
                let k = i - n1 - 1;
                assert(e == fresh[k]);
                let m = moved[k];
                assert(head.contains(m));
                let h = choose|h: int| 0 <= h < head.len() && head[h] == m;
                assert(head[h].dest_id == e.dest_id);
            }
        }
    } else {
        assert(all =~= head);
        let higher = |v: u32| 2 * rank(v);
        assert(respects(all, higher));
        assert forall|v: u32| v < next_id implies #[trigger] higher(v) == 2 * rank(v) by {}
    }
}

/// How many edges of `edges` leave from an output port that an earlier edge
/// leaves from already.
pub open spec fn repeats(edges: Seq<Edge>) -> nat
    decreases edges.len(),
{
    if edges.len() == 0 {
        0
    } else if uses_source(edges.drop_last(), edges.last().source()) {
        repeats(edges.drop_last()) + 1
    } else {
        repeats(edges.drop_last())
    }
}

/// The sum over the splitters among `nodes` of their port count less one.
pub open spec fn splitter_excess(nodes: Seq<normalized::Node>) -> int
    decreases nodes.len(),
{
    if nodes.len() == 0 {
        0
    } else {
        let rest = splitter_excess(nodes.drop_last());
        match nodes.last().inner {
            normalized::NodeType::Splitter { port_count } => rest + port_count - 1,
            _ => rest,
        }
    }
}

/// The edges from a source are as many as the source is used.
proof fn lemma_uses_source_count(edges: Seq<Edge>, s: (u32, u32))
    ensures
        uses_source(edges, s) <==> from_source(edges, s).len() > 0,
        forall|t: (u32, u32)|
            t != s ==> (uses_source(not_from_source(edges, s), t) <==> uses_source(edges, t)),
    decreases edges.len(),
{
    reveal(Seq::filter);
    if edges.len() > 0 {
        let rest = edges.drop_last();
        let last = edges.last();
        lemma_uses_source_count(rest, s);
        if uses_source(edges, s) {
            let j = choose|j: int| 0 <= j < edges.len() && (#[trigger] edges[j]).source() == s;
            if j < rest.len() {
                assert(rest[j].source() == s);
            }
        }
        if from_source(edges, s).len() > 0 {
            if last.source() == s {
                assert(edges[edges.len() - 1].source() == s);
            } else {
                let j = choose|j: int| 0 <= j < rest.len() && (#[trigger] rest[j]).source() == s;
                assert(edges[j].source() == s);
            }
        }
        assert forall|t: (u32, u32)| t != s implies (uses_source(not_from_source(edges, s), t)
            <==> uses_source(edges, t)) by {
            let kept = not_from_source(edges, s);
            let kept_rest = not_from_source(rest, s);
            if uses_source(kept, t) {
                lemma_filter_uses_source(edges, |e: Edge| e.source() != s, t);
            }
            if uses_source(edges, t) {
                let j = choose|j: int| 0 <= j < edges.len() && (#[trigger] edges[j]).source() == t;
                if j < rest.len() {
                    assert(rest[j].source() == t);
                    assert(uses_source(rest, t));
                    assert(uses_source(kept_rest, t));
                    let k = choose|k: int|
                        0 <= k < kept_rest.len() && (#[trigger] kept_rest[k]).source() == t;
                    if last.source() != s {
                        assert(kept == kept_rest.push(last));
                        assert(kept[k] == kept_rest[k]);
                    }
                } else {
                    assert(last.source() == t);
                    assert(kept == kept_rest.push(last));
                    assert(kept[kept.len() - 1].source() == t);
                }
            }
        }
    } else {
        assert(not_from_source(edges, s) =~= edges);
    }
}

/// Taking every edge of one source out takes out as many repeats as that
/// source has edges beyond its first.
proof fn lemma_repeats_split(edges: Seq<Edge>, s: (u32, u32))
    ensures
        repeats(edges) == repeats(not_from_source(edges, s)) + if from_source(edges, s).len() > 0 {
            from_source(edges, s).len() - 1
        } else {
            0
        },
    decreases edges.len(),
{
    reveal(Seq::filter);
    if edges.len() > 0 {
        let rest = edges.drop_last();
        let last = edges.last();
        lemma_repeats_split(rest, s);
        lemma_uses_source_count(rest, s);
        if last.source() != s {
            assert(not_from_source(edges, s) == not_from_source(rest, s).push(last));
            assert(not_from_source(edges, s).drop_last() =~= not_from_source(rest, s));
        }
    }
}

/// A list of edges in which no source is shared has no repeats.
proof fn lemma_no_repeats(edges: Seq<Edge>)
    requires
        fan_out_free(edges),
    ensures
        repeats(edges) == 0,
    decreases edges.len(),
{
    if edges.len() > 0 {
        let rest = edges.drop_last();
        assert forall|i: int, j: int| 0 <= i < j < rest.len() implies (#[trigger] rest[i]).source()
            != (#[trigger] rest[j]).source() by {
            assert(rest[i] == edges[i] && rest[j] == edges[j]);
        }
        lemma_no_repeats(rest);
        if uses_source(rest, edges.last().source()) {
            let j = choose|j: int|
                0 <= j < rest.len() && (#[trigger] rest[j]).source() == edges.last().source();
            assert(edges[j].source() == edges[edges.len() - 1].source());
        }
    }
}

/// Nodes lowered from a builtin graph hold no splitter.
proof fn lemma_lowered_has_no_splitter(nodes: Seq<Node>)
    ensures
        splitter_excess(lower_nodes(nodes)) == 0,
    decreases nodes.len(),
{
    if nodes.len() > 0 {
        assert(lower_nodes(nodes).drop_last() =~= lower_nodes(nodes.drop_last()));
        lemma_lowered_has_no_splitter(nodes.drop_last());
    }
}

/// The excess of `a + b` is the excess of `a` and of `b` together.
proof fn lemma_excess_add(a: Seq<normalized::Node>, b: Seq<normalized::Node>)
    ensures
        splitter_excess(a + b) == splitter_excess(a) + splitter_excess(b),
    decreases b.len(),
{
    if b.len() == 0 {
        assert(a + b =~= a);
    } else {
        assert((a + b).drop_last() =~= a + b.drop_last());
        assert((a + b).last() == b.last());
        lemma_excess_add(a, b.drop_last());
    }
}

/// The splitters that splitter insertion adds have, summed up, as many
/// ports beyond their first as the edge list had edges that repeat a
/// source: every fan-out edge taken away comes back as one splitter port.
pub proof fn lemma_split_all_conserves(head: Seq<Edge>, next_id: int)
    requires
        head.len() <= u32::MAX,
    ensures
        splitter_excess(split_all(head, next_id).0) == repeats(head),
    decreases head.len(),
{
    let at = first_shared_from(head, 0);
    lemma_first_shared_from(head, 0);
    if 0 <= at < head.len() {
        let s = head[at].source();
        let moved = from_source(head, s);
        let kept = not_from_source(head, s);
        lemma_filter_shrinks(head, |e: Edge| e.source() != s, at);
        head.lemma_filter_len(|e: Edge| e.source() == s);
        lemma_split_all_conserves(kept, next_id + 1);
        lemma_repeats_split(head, s);
        lemma_uses_source_count(head, s);
        assert(uses_source(head, s));
        let rest = split_all(kept, next_id + 1);
        let first = seq![splitter_node(next_id, moved)];
        lemma_excess_add(first, rest.0);
        assert(first.drop_last() =~= Seq::<normalized::Node>::empty());
        assert(splitter_excess(first.drop_last()) == 0);
        assert(first.last() == splitter_node(next_id, moved));
        assert(moved.len() <= head.len());
        assert(splitter_excess(first) == moved.len() - 1);
    } else {
        assert(fan_out_free(head)) by {
            assert forall|i: int, j: int| 0 <= i < j < head.len() implies (
            #[trigger] head[i]).source() != (#[trigger] head[j]).source() by {
                if head[i].source() == head[j].source() {
                    assert(shares_source(head, i));
                }
            }
        }
        lemma_no_repeats(head);
    }
}

/// Whether an edge other than `edges[i]` leaves from the source of `edges[i]`.
fn has_sibling(edges: &Vec<Edge>, i: usize) -> (found: bool)
    requires
        i < edges@.len(),
    ensures
        found == shares_source(edges@, i as int),
{
    let e = edges[i];
    let mut j: usize = 0;
    while j < edges.len()
        invariant
            0 <= j <= edges.len(),
            i < edges@.len(),
            e == edges@[i as int],
            forall|k: int|
                0 <= k < j && k != i ==> (#[trigger] edges@[k]).source() != e.source(),
        decreases edges.len() - j,
    {
        if j != i && edges[j].src_id == e.src_id && edges[j].src_port == e.src_port {
            return true;
        }
        j += 1;
    }
    false
}

/// Index of the first edge whose source drives another edge too.
fn find_shared(edges: &Vec<Edge>) -> (found: usize)
    ensures
        found == first_shared_from(edges@, 0),
        found <= edges@.len(),
{
    let mut i: usize = 0;
    while i < edges.len()
        invariant
            0 <= i <= edges.len(),
            first_shared_from(edges@, i as int) == first_shared_from(edges@, 0),
        decreases edges.len() - i,
    {
        if has_sibling(edges, i) {
            return i;
        }
        i += 1;
    }
    i
}

/// Splits `edges` into those that leave from `(src_id, src_port)` and the
/// others, both in order.
fn partition_by_source(edges: &Vec<Edge>, src_id: u32, src_port: u32) -> (parts: (
    Vec<Edge>,
    Vec<Edge>,
))
    ensures
        parts.0@ == from_source(edges@, (src_id, src_port)),
        parts.1@ == not_from_source(edges@, (src_id, src_port)),
{
    let mut moved: Vec<Edge> = Vec::new();
    let mut kept: Vec<Edge> = Vec::new();
    let mut i: usize = 0;
    while i < edges.len()
        invariant
            0 <= i <= edges.len(),
            moved@ == from_source(edges@.take(i as int), (src_id, src_port)),
            kept@ == not_from_source(edges@.take(i as int), (src_id, src_port)),
        decreases edges.len() - i,
    {
        proof {
            assert(edges@.take(i + 1).drop_last() =~= edges@.take(i as int));
            reveal(Seq::filter);
        }
        let e = edges[i];
        if e.src_id == src_id && e.src_port == src_port {
            moved.push(e);
        } else {
            kept.push(e);
        }
        i += 1;
    }
    proof {
        assert(edges@.take(i as int) =~= edges@);
    }
    (moved, kept)
}

impl BuiltinOp {
    /// The normalized operation that stands for this one.
    pub fn lower(self) -> (op: normalized::BuiltinOp)
        ensures
            op == lower_op(self),
    {
        match self {
            BuiltinOp::And => normalized::BuiltinOp::And,
            BuiltinOp::Not => normalized::BuiltinOp::Not,
            BuiltinOp::Xor => normalized::BuiltinOp::Xor,
            BuiltinOp::Or => normalized::BuiltinOp::Or,
        }
    }
}

impl NodeType {
    /// The normalized node kind that stands for this one.
    pub fn lower(&self) -> (kind: normalized::NodeType)
        ensures
            kind == lower_kind(*self),
    {
        match self {
            NodeType::Input { name, number } => normalized::NodeType::Input {
                name: name.clone(),
                number: *number,
            },
            NodeType::Output { name, number } => normalized::NodeType::Output {
                name: name.clone(),
                number: *number,
            },
            NodeType::Variable { name } => normalized::NodeType::Variable { name: name.clone() },
            NodeType::BuiltinOp { op } => normalized::NodeType::Operation { op: op.lower() },
        }
    }
}

impl Graph {
    /// Lowers the graph to its normalized form: every node keeps its id, and
    /// every output port that drives several edges gets a splitter, so that
    /// afterwards each output port drives exactly one edge.
    pub fn into_normalized(self) -> (lowered: normalized::Graph)
        requires
            max_node_id(self.nodes@) + 1 + self.edges@.len() <= u32::MAX,
        ensures
            lowered.nodes@ == lower_nodes(self.nodes@) + split_all(
                self.edges@,
                max_node_id(self.nodes@) + 1,
            ).0,
            lowered.edges@ == split_all(self.edges@, max_node_id(self.nodes@) + 1).1 + split_all(
                self.edges@,
                max_node_id(self.nodes@) + 1,
            ).2,
            sources_exist(self.nodes@, self.edges@) ==> fan_out_free(lowered.edges@),
            ends_exist(self.nodes@, self.edges@) && acyclic(self.edges@) ==> acyclic(
                lowered.edges@,
            ),
            splitter_excess(lowered.nodes@) == repeats(self.edges@),
    {
        proof {
            lemma_max_node_id(self.nodes@);
            lemma_split_all_conserves(self.edges@, max_node_id(self.nodes@) + 1);
            lemma_lowered_has_no_splitter(self.nodes@);
            lemma_excess_add(
                lower_nodes(self.nodes@),
                split_all(self.edges@, max_node_id(self.nodes@) + 1).0,
            );
            if ends_exist(self.nodes@, self.edges@) && acyclic(self.edges@) {
                let rank = choose|rank: spec_fn(u32) -> int| #[trigger] respects(self.edges@, rank);
                assert forall|i: int| 0 <= i < self.edges@.len() implies (
                #[trigger] self.edges@[i]).src_id < max_node_id(self.nodes@) + 1
                    && self.edges@[i].dest_id < max_node_id(self.nodes@) + 1 by {
                    let a = self.edges@[i].src_id;
                    let b = self.edges@[i].dest_id;
                    let k = choose|k: int|
                        0 <= k < self.nodes@.len() && (#[trigger] self.nodes@[k]).id == a;
                    let l = choose|l: int|
                        0 <= l < self.nodes@.len() && (#[trigger] self.nodes@[l]).id == b;
                    assert(self.nodes@[k].id <= max_node_id(self.nodes@));
                    assert(self.nodes@[l].id <= max_node_id(self.nodes@));
                }
                lemma_split_all_respects(self.edges@, max_node_id(self.nodes@) + 1, rank);
            }
        }
        proof {
            if sources_exist(self.nodes@, self.edges@) {
                lemma_max_node_id(self.nodes@);
                assert forall|i: int| 0 <= i < self.edges@.len() implies (
                #[trigger] self.edges@[i]).src_id < max_node_id(self.nodes@) + 1 by {
                    let id = self.edges@[i].src_id;
                    assert(has_id(self.nodes@, id));
                    let k = choose|k: int|
                        0 <= k < self.nodes@.len() && (#[trigger] self.nodes@[k]).id == id;
                    assert(self.nodes@[k].id <= max_node_id(self.nodes@));
                }
                lemma_split_all_fan_out_free(self.edges@, max_node_id(self.nodes@) + 1);
            }
        }
        let mut nodes: Vec<normalized::Node> = Vec::new();
        let mut i: usize = 0;
        while i < self.nodes.len()
            invariant
                0 <= i <= self.nodes.len(),
                nodes@ == lower_nodes(self.nodes@.take(i as int)),
            decreases self.nodes.len() - i,
        {
            let node = normalized::Node::new(self.nodes[i].id, self.nodes[i].inner.lower());
            nodes.push(node);
            proof {
                assert(nodes@ =~= lower_nodes(self.nodes@.take(i + 1)));
            }
            i += 1;
        }
        proof {
            assert(self.nodes@.take(i as int) =~= self.nodes@);
        }
        let ghost first_id = max_node_id(self.nodes@) + 1;
        let ghost total = split_all(self.edges@, first_id);
        let mut next_id: u32 = if self.nodes.len() == 0 {
            0
        } else {
            self.max_id() + 1
        };
        let mut head: Vec<Edge> = self.edges;
        let mut tail: Vec<Edge> = Vec::new();
        let ghost lowered_nodes = nodes@;
        let ghost mut splitters: Seq<normalized::Node> = Seq::empty();
        proof {
            lemma_max_node_id(self.nodes@);
            assert(splitters + total.0 =~= total.0);
            assert(tail@ + total.2 =~= total.2);
        }
        loop
            invariant
                next_id + head@.len() <= u32::MAX,
                nodes@ == lowered_nodes + splitters,
                splitters + split_all(head@, next_id as int).0 == total.0,
                split_all(head@, next_id as int).1 == total.1,
                tail@ + split_all(head@, next_id as int).2 == total.2,
            ensures
                nodes@ == lowered_nodes + total.0,
                head@ == total.1,
                tail@ == total.2,
            decreases head@.len(),
        {
            let at = find_shared(&head);
            if at >= head.len() {
                proof {
                    assert(splitters + Seq::<normalized::Node>::empty() =~= splitters);
                    assert(tail@ + Seq::<Edge>::empty() =~= tail@);
                }
                break ;
            }
            let src_id = head[at].src_id;
            let src_port = head[at].src_port;
            let (moved, kept) = partition_by_source(&head, src_id, src_port);
            proof {
                lemma_filter_shrinks(
                    head@,
                    |e: Edge| e.source() != (src_id, src_port),
                    at as int,
                );
                head@.lemma_filter_len(|e: Edge| e.source() == (src_id, src_port));
            }
            let ghost rest = split_all(kept@, next_id + 1);
            let ghost old_tail = tail@;
            let splitter = normalized::Node::new(
                next_id,
                normalized::NodeType::Splitter { port_count: moved.len() as u32 },
            );
            nodes.push(splitter);
            tail.push(Edge::new(src_id, src_port, next_id, 0));
            let mut k: usize = 0;
            while k < moved.len()
                invariant
                    0 <= k <= moved.len(),
                    moved@.len() <= u32::MAX,
                    tail@ == old_tail.push(splitter_feed(next_id as int, (src_id, src_port)))
                        + splitter_edges(next_id as int, moved@).take(k as int),
                decreases moved.len() - k,
            {
                tail.push(Edge::new(next_id, k as u32, moved[k].dest_id, moved[k].dest_port));
                proof {
                    assert(tail@ =~= old_tail.push(
                        splitter_feed(next_id as int, (src_id, src_port)),
                    ) + splitter_edges(next_id as int, moved@).take(k + 1));
                }
                k += 1;
            }
            proof {
                let feed = splitter_feed(next_id as int, (src_id, src_port));
                let fresh = splitter_edges(next_id as int, moved@);
                assert(fresh.take(k as int) =~= fresh);
                assert((splitters.push(splitter)) + rest.0 =~= splitters + (seq![splitter]
                    + rest.0));
                assert(tail@ + rest.2 =~= old_tail + (seq![feed] + fresh + rest.2));
                splitters = splitters.push(splitter);
                assert(nodes@ =~= lowered_nodes + splitters);
            }
            head = kept;
            next_id = next_id + 1;
        }
        let mut edges = head;
        let mut tail = tail;
        edges.append(&mut tail);
        normalized::Graph::new(nodes, edges)
    }
}

} // verus!
