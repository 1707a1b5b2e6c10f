//! Shortest-path search over grid addresses, with the neighbour rule and the
//! heuristic supplied by the caller.

use std::collections::HashMap;
use vstd::prelude::*;

use crate::backend::Pos;

pub mod openset;

pub use openset::OpenSet;

verus! {

/// The hasher state that the search tables are built with.
#[verifier::external_type_specification]
#[verifier::external_body]
pub struct ExRandomState(ahash::RandomState);

/// A table keyed by grid address.
pub type Table<V> = HashMap<Pos, V, ahash::RandomState>;

/// An empty table, through `HashMap::with_hasher` under the state that
/// `ahash::RandomState::with_seeds` makes from four fixed keys, so that
/// every table hashes alike in every run and no source of chance is asked.
///
/// Not proved: that the table made holds nothing.
#[verifier::external_body]
pub(crate) fn new_table<V>() -> (table: Table<V>)
    ensures
        forall|key: Pos| !table@.contains_key(key),
{
    HashMap::with_hasher(ahash::RandomState::with_seeds(0x6d63, 0x6c63, 0x7461, 0x626c))
}

/// The value stored under `key`, through `HashMap::get`.
///
/// Not proved: that the value returned is the one the table holds under
/// `key`, and that none is returned exactly when it holds none.
#[verifier::external_body]
pub(crate) fn table_get<V: Copy>(table: &Table<V>, key: Pos) -> (found: Option<V>)
    ensures
        found == if table@.contains_key(key) {
            Some(table@[key])
        } else {
            None::<V>
        },
{
    match table.get(&key) {
        Some(value) => Some(*value),
        None => None,
    }
}

/// Stores `value` under `key`, through `HashMap::insert`.
///
/// Not proved: that afterwards the table holds `value` under `key` and is
/// otherwise unchanged.
#[verifier::external_body]
pub(crate) fn table_insert<V>(table: &mut Table<V>, key: Pos, value: V)
    ensures
        final(table)@ == old(table)@.insert(key, value),
{
    table.insert(key, value);
}

/// Drops what is stored under `key`, through `HashMap::remove`.
///
/// Not proved: that afterwards the table holds nothing under `key` and is
/// otherwise unchanged.
#[verifier::external_body]
pub(crate) fn table_remove<V>(table: &mut Table<V>, key: Pos)
    ensures
        final(table)@ == old(table)@.remove(key),
{
    table.remove(&key);
}

/// What a search runs over. The search itself never looks inside: it hands
/// the container to the neighbour rule.
pub trait Container {
    type Index;
}

/// The highest cost that one step may have.
pub const MAX_STEP_COST: i64 = 0x7fff_ffff;

/// The highest estimate with which the score of an address stays below the
/// highest score however long the search runs.
pub const MAX_ESTIMATE: i64 = 0xffff_ffff;

/// Why a search did not return a route.
#[derive(Debug, Clone, Copy, PartialEq, Eq, Structural)]
pub enum SearchError {
    /// Every address that can be reached was expanded, and the destination
    /// was not among them.
    Unreachable,
    /// The search gave up after as many expansions as it was allowed.
    StepLimit,
}

/// Whether the neighbour rule offers the step from `from` to `to` at the
/// cost `cost`.
pub open spec fn offers_at<C, NF: Fn(&C, Pos) -> Vec<(Pos, i64)>>(
    container: &C,
    neigh: NF,
    from: Pos,
    to: Pos,
    cost: int,
) -> bool {
    exists|out: Vec<(Pos, i64)>, i: int|
        call_ensures(neigh, (container, from), out) && 0 <= i < out@.len() && (#[trigger] out@[i]).0
            == to && out@[i].1 == cost
}

/// Whether the neighbour rule offers `to` as a neighbour of `from`.
pub open spec fn offers<C, NF: Fn(&C, Pos) -> Vec<(Pos, i64)>>(
    container: &C,
    neigh: NF,
    from: Pos,
    to: Pos,
) -> bool {
    exists|out: Vec<(Pos, i64)>, i: int|
        call_ensures(neigh, (container, from), out) && 0 <= i < out@.len() && (#[trigger] out@[i]).0
            == to
}

/// Whether `route` leads from `start` to `dest` by steps that the neighbour
/// rule offers.
pub open spec fn is_route<C, NF: Fn(&C, Pos) -> Vec<(Pos, i64)>>(
    container: &C,
    neigh: NF,
    start: Pos,
    dest: Pos,
    route: Seq<Pos>,
) -> bool {
    &&& route.len() >= 1
    &&& route[0] == start
    &&& route[route.len() - 1] == dest
    &&& forall|i: int|
        0 <= i < route.len() - 1 ==> offers(container, neigh, #[trigger] route[i], route[i + 1])
}

/// The sum of `costs`.
pub open spec fn total(costs: Seq<int>) -> int
    decreases costs.len(),
{
    if costs.len() == 0 {
        0
    } else {
        total(costs.drop_last()) + costs.last()
    }
}

/// Whether `route` leads from `start` to `dest` by steps of the relation
/// `step`, the `k`-th at the cost `costs[k]`.
pub open spec fn steps_route(
    step: spec_fn(Pos, Pos, int) -> bool,
    start: Pos,
    dest: Pos,
    route: Seq<Pos>,
    costs: Seq<int>,
) -> bool {
    &&& route.len() == costs.len() + 1
    &&& route[0] == start
    &&& route[route.len() - 1] == dest
    &&& forall|i: int| 0 <= i < costs.len() ==> step(#[trigger] route[i], route[i + 1], costs[i])
}

/// The steps that the neighbour rule offers, as a relation.
pub open spec fn offered<C, NF: Fn(&C, Pos) -> Vec<(Pos, i64)>>(container: &C, neigh: NF) -> spec_fn(
    Pos,
    Pos,
    int,
) -> bool {
    |from: Pos, to: Pos, cost: int| offers_at(container, neigh, from, to, cost)
}

/// Whether `route` leads from `start` to `dest` by steps that the neighbour
/// rule offers, the `k`-th at the cost `costs[k]`.
pub open spec fn is_priced_route<C, NF: Fn(&C, Pos) -> Vec<(Pos, i64)>>(
    container: &C,
    neigh: NF,
    start: Pos,
    dest: Pos,
    route: Seq<Pos>,
    costs: Seq<int>,
) -> bool {
    steps_route(offered(container, neigh), start, dest, route, costs)
}

/// Whether the neighbour rule is usable by the search: it can be asked at
/// every address, it always gives the same answer for the same address, and
/// no step costs less than nothing or more than `MAX_STEP_COST`.
pub open spec fn steady<C, NF: Fn(&C, Pos) -> Vec<(Pos, i64)>>(container: &C, neigh: NF) -> bool {
    &&& forall|p: Pos| call_requires(neigh, (container, p))
    &&& forall|p: Pos, a: Vec<(Pos, i64)>, b: Vec<(Pos, i64)>|
        call_ensures(neigh, (container, p), a) && call_ensures(neigh, (container, p), b) ==> a@
            == b@
    &&& forall|p: Pos, out: Vec<(Pos, i64)>, i: int|
        #![trigger call_ensures(neigh, (container, p), out), out@[i]]
        call_ensures(neigh, (container, p), out) && 0 <= i < out@.len() ==> 0 <= out@[i].1
            <= MAX_STEP_COST
}

/// Whether the estimate never asks too much with regard to the steps of
/// `step`: for no address more than any route from it to `dest` costs, and
/// for `dest` itself nothing.
pub open spec fn fair<DF: Fn(Pos, Pos) -> i64>(
    dist: DF,
    dest: Pos,
    step: spec_fn(Pos, Pos, int) -> bool,
) -> bool {
    &&& forall|h: i64| #[trigger] call_ensures(dist, (dest, dest), h) ==> 0 <= h
    &&& forall|v: Pos, route: Seq<Pos>, costs: Seq<int>, h: i64|
        #![trigger steps_route(step, v, dest, route, costs), call_ensures(dist, (v, dest), h)]
        steps_route(step, v, dest, route, costs) && call_ensures(dist, (v, dest), h) ==> h
            <= total(costs)
}

/// Whether the estimate never asks too much with regard to the steps that
/// the neighbour rule offers.
pub open spec fn admissible<C, DF: Fn(Pos, Pos) -> i64, NF: Fn(&C, Pos) -> Vec<(Pos, i64)>>(
    container: &C,
    dist: DF,
    neigh: NF,
    dest: Pos,
) -> bool {
    fair(dist, dest, offered(container, neigh))
}

/// Whether the estimate is the function `h` of the address, and `h` is
/// consistent with regard to the steps of `step`: it is 0 at `dest`, and
/// along no step does it fall by more than the step costs.
pub open spec fn consistent_as<DF: Fn(Pos, Pos) -> i64>(
    dist: DF,
    dest: Pos,
    step: spec_fn(Pos, Pos, int) -> bool,
    h: spec_fn(Pos) -> int,
) -> bool {
    &&& forall|p: Pos, v: i64| #[trigger] call_ensures(dist, (p, dest), v) ==> v == h(p)
    &&& h(dest) == 0
    &&& forall|p: Pos, q: Pos, c: int| #[trigger] step(p, q, c) ==> h(p) <= c + h(q)
}

/// Whether the estimate is consistent with regard to the steps of `step`.
pub open spec fn consistent<DF: Fn(Pos, Pos) -> i64>(
    dist: DF,
    dest: Pos,
    step: spec_fn(Pos, Pos, int) -> bool,
) -> bool {
    exists|h: spec_fn(Pos) -> int| consistent_as(dist, dest, step, h)
}

/// Whether the scores of the addresses that a search expands stay below
/// the highest score: a route from `start` to `dest` costs less than that,
/// or no estimate is above `MAX_ESTIMATE`.
pub open spec fn in_range<DF: Fn(Pos, Pos) -> i64>(
    dist: DF,
    dest: Pos,
    step: spec_fn(Pos, Pos, int) -> bool,
    start: Pos,
) -> bool {
    ||| exists|route: Seq<Pos>, costs: Seq<int>|
        #![trigger steps_route(step, start, dest, route, costs)]
        steps_route(step, start, dest, route, costs) && total(costs) < i64::MAX
    ||| forall|p: Pos, v: i64| #[trigger] call_ensures(dist, (p, dest), v) ==> v <= MAX_ESTIMATE
}

/// Whether `route` at the prices `costs` is a route that the neighbour rule
/// offers from `start` to `p`, `g` is no less than it costs, `h` is an
/// estimate for `p`, and the score of the two is no more than any route
/// from `start` to `dest` by steps of `step` costs.
pub open spec fn reached_at<C, DF: Fn(Pos, Pos) -> i64, NF: Fn(&C, Pos) -> Vec<(Pos, i64)>>(
    container: &C,
    dist: DF,
    neigh: NF,
    step: spec_fn(Pos, Pos, int) -> bool,
    start: Pos,
    dest: Pos,
    p: Pos,
    g: i64,
    h: i64,
    route: Seq<Pos>,
    costs: Seq<int>,
) -> bool {
    &&& is_priced_route(container, neigh, start, p, route, costs)
    &&& total(costs) <= g
    &&& call_ensures(dist, (p, dest), h)
    &&& forall|other: Seq<Pos>, prices: Seq<int>|
        #![trigger steps_route(step, start, dest, other, prices)]
        steps_route(step, start, dest, other, prices) ==> scored(g, h) <= total(prices)
}

/// Whether `p` is an address that a search from `start` for `dest` may
/// expand: a route that the neighbour rule offers leads to it, and its
/// score is no more than any route from `start` to `dest` costs.
pub open spec fn expandable<C, DF: Fn(Pos, Pos) -> i64, NF: Fn(&C, Pos) -> Vec<(Pos, i64)>>(
    container: &C,
    dist: DF,
    neigh: NF,
    step: spec_fn(Pos, Pos, int) -> bool,
    start: Pos,
    dest: Pos,
    p: Pos,
) -> bool {
    exists|g: i64, h: i64, route: Seq<Pos>, costs: Seq<int>| #[trigger]
        reached_at(container, dist, neigh, step, start, dest, p, g, h, route, costs)
}

/// Whether `seen` are `count` addresses other than `dest`, each of which a
/// search from `start` for `dest` may expand.
pub open spec fn expansions<C, DF: Fn(Pos, Pos) -> i64, NF: Fn(&C, Pos) -> Vec<(Pos, i64)>>(
    container: &C,
    dist: DF,
    neigh: NF,
    step: spec_fn(Pos, Pos, int) -> bool,
    start: Pos,
    dest: Pos,
    seen: Set<Pos>,
    count: nat,
) -> bool {
    &&& seen.finite()
    &&& seen.len() == count
    &&& !seen.contains(dest)
    &&& forall|p: Pos| #[trigger]
        seen.contains(p) ==> expandable(container, dist, neigh, step, start, dest, p)
}

/// Whether a search of `max_steps` expansions from `start` for `dest` can
/// end without an answer: there are `max_steps` addresses other than
/// `dest` that it may expand.
pub open spec fn exhausts<C, DF: Fn(Pos, Pos) -> i64, NF: Fn(&C, Pos) -> Vec<(Pos, i64)>>(
    container: &C,
    dist: DF,
    neigh: NF,
    step: spec_fn(Pos, Pos, int) -> bool,
    start: Pos,
    dest: Pos,
    max_steps: u32,
) -> bool {
    exists|seen: Set<Pos>| #[trigger]
        expansions(container, dist, neigh, step, start, dest, seen, max_steps as nat)
}

/// Whether `costs` are prices at which the neighbour rule offers the steps
/// of `route`, and prices such that, where the estimate never asks too
/// much with regard to `step`, no route from `start` to `dest` by steps of
/// `step` costs less.
pub open spec fn cheapest_at<C, DF: Fn(Pos, Pos) -> i64, NF: Fn(&C, Pos) -> Vec<(Pos, i64)>>(
    container: &C,
    dist: DF,
    neigh: NF,
    step: spec_fn(Pos, Pos, int) -> bool,
    start: Pos,
    dest: Pos,
    route: Seq<Pos>,
    costs: Seq<int>,
) -> bool {
    &&& is_priced_route(container, neigh, start, dest, route, costs)
    &&& fair(dist, dest, step) ==> forall|other: Seq<Pos>, prices: Seq<int>|
        #![trigger steps_route(step, start, dest, other, prices)]
        steps_route(step, start, dest, other, prices) ==> total(costs) <= total(prices)
}

/// Whether `route` is a route from `start` to `dest` that the neighbour
/// rule offers, and one such that, where the estimate never asks too much,
/// no route from `start` to `dest` that the neighbour rule offers costs
/// less.
pub open spec fn is_cheapest_route<
    C,
    DF: Fn(Pos, Pos) -> i64,
    NF: Fn(&C, Pos) -> Vec<(Pos, i64)>,
>(container: &C, dist: DF, neigh: NF, start: Pos, dest: Pos, route: Seq<Pos>) -> bool {
    exists|costs: Seq<int>| #[trigger]
        cheapest_at(container, dist, neigh, offered(container, neigh), start, dest, route, costs)
}

/// The score of an address whose route so far costs `g` and whose estimate
/// is `h`: their sum, or the highest score where that does not fit.
pub open spec fn scored(g: i64, h: i64) -> i64 {
    if h > i64::MAX - g {
        i64::MAX
    } else {
        (g + h) as i64
    }
}

/// The search tables describe a tree of offered steps rooted at `start`, in
/// which the cost so far falls toward the root by at least the price of
/// each step, and where it stays the same along a step that costs
/// nothing, the rank falls.
pub open spec fn rooted<C, NF: Fn(&C, Pos) -> Vec<(Pos, i64)>>(
    container: &C,
    neigh: NF,
    start: Pos,
    came_from: Map<Pos, Pos>,
    prices: Map<Pos, int>,
    ranks: Map<Pos, nat>,
    gscores: Map<Pos, i64>,
) -> bool {
    &&& gscores.contains_key(start)
    &&& gscores[start] == 0
    &&& !came_from.contains_key(start)
    &&& forall|p: Pos| #[trigger] gscores.contains_key(p) ==> 0 <= gscores[p]
    &&& forall|p: Pos| #[trigger]
        gscores.contains_key(p) ==> p == start || came_from.contains_key(p)
    &&& forall|p: Pos| #[trigger]
        came_from.contains_key(p) ==> gscores.contains_key(p) && gscores.contains_key(
            came_from[p],
        ) && prices.contains_key(p) && prices[p] >= 0 && gscores[came_from[p]] + prices[p]
            <= gscores[p] && (gscores[came_from[p]] == gscores[p] ==> ranks[came_from[p]]
            < ranks[p]) && offers_at(container, neigh, came_from[p], p, prices[p])
}

/// Putting a cost before a list adds it to the sum.
pub proof fn lemma_total_prepend(first: int, costs: Seq<int>)
    ensures
        total(seq![first] + costs) == first + total(costs),
    decreases costs.len(),
{
    let all = seq![first] + costs;
    if costs.len() == 0 {
        assert(all.drop_last() =~= Seq::<int>::empty());
        assert(total(all.drop_last()) == 0);
        assert(all.last() == first);
    } else {
        assert(all.drop_last() =~= seq![first] + costs.drop_last());
        assert(all.last() == costs.last());
        lemma_total_prepend(first, costs.drop_last());
    }
}

/// The sum of a list is the sum of a front part and of the rest.
pub proof fn lemma_total_split(costs: Seq<int>, at: int)
    requires
        0 <= at <= costs.len(),
    ensures
        total(costs.take(at)) + total(costs.skip(at)) == total(costs),
    decreases costs.len() - at,
{
    if at == costs.len() {
        assert(costs.take(at) =~= costs);
        assert(costs.skip(at) =~= Seq::<int>::empty());
    } else {
        lemma_total_split(costs, at + 1);
        assert(costs.take(at + 1).drop_last() =~= costs.take(at));
        assert(costs.take(at + 1).last() == costs[at]);
        assert(costs.skip(at) =~= seq![costs[at]] + costs.skip(at + 1));
        lemma_total_prepend(costs[at], costs.skip(at + 1));
    }
}

/// A priced route is a route.
pub proof fn lemma_priced_is_route<C, NF: Fn(&C, Pos) -> Vec<(Pos, i64)>>(
    container: &C,
    neigh: NF,
    start: Pos,
    dest: Pos,
    route: Seq<Pos>,
    costs: Seq<int>,
)
    requires
        is_priced_route(container, neigh, start, dest, route, costs),
    ensures
        is_route(container, neigh, start, dest, route),
{
    assert forall|i: int| 0 <= i < route.len() - 1 implies offers(
        container,
        neigh,
        #[trigger] route[i],
        route[i + 1],
    ) by {
        assert(offered(container, neigh)(route[i], route[i + 1], costs[i]));
        let (out, k) = choose|out: Vec<(Pos, i64)>, k: int|
            call_ensures(neigh, (container, route[i]), out) && 0 <= k < out@.len() && (
            #[trigger] out@[k]).0 == route[i + 1] && out@[k].1 == costs[i];
        assert(out@[k].0 == route[i + 1]);
    }
}

/// A price at which the neighbour rule offers the step from `from` to
/// `to`.
pub open spec fn price_of<C, NF: Fn(&C, Pos) -> Vec<(Pos, i64)>>(
    container: &C,
    neigh: NF,
    from: Pos,
    to: Pos,
) -> int {
    choose|cost: int| offers_at(container, neigh, from, to, cost)
}

/// A route has prices.
pub proof fn lemma_route_is_priced<C, NF: Fn(&C, Pos) -> Vec<(Pos, i64)>>(
    container: &C,
    neigh: NF,
    start: Pos,
    dest: Pos,
    route: Seq<Pos>,
) -> (costs: Seq<int>)
    requires
        is_route(container, neigh, start, dest, route),
    ensures
        is_priced_route(container, neigh, start, dest, route, costs),
{
    let costs = Seq::new(
        (route.len() - 1) as nat,
        |i: int| price_of(container, neigh, route[i], route[i + 1]),
    );
    assert forall|i: int| 0 <= i < costs.len() implies offered(container, neigh)(
        #[trigger] route[i],
        route[i + 1],
        costs[i],
    ) by {
        assert(offers(container, neigh, route[i], route[i + 1]));
        let (out, k) = choose|out: Vec<(Pos, i64)>, k: int|
            call_ensures(neigh, (container, route[i]), out) && 0 <= k < out@.len() && (
            #[trigger] out@[k]).0 == route[i + 1];
        assert(offers_at(container, neigh, route[i], route[i + 1], out@[k].1 as int));
    }
    costs
}

/// Walks the tree from `current` back to its root and returns the addresses
/// met, root first, with the prices of the steps between them.
fn reconstruct_path<C, NF: Fn(&C, Pos) -> Vec<(Pos, i64)>>(
    came_from: &Table<Pos>,
    current: Pos,
    container: &C,
    neigh: &NF,
    Ghost(start): Ghost<Pos>,
    Ghost(prices): Ghost<Map<Pos, int>>,
    Ghost(ranks): Ghost<Map<Pos, nat>>,
    Ghost(gscores): Ghost<Map<Pos, i64>>,
) -> (found: (Vec<Pos>, Ghost<Seq<int>>))
    requires
        rooted(container, *neigh, start, came_from@, prices, ranks, gscores),
        gscores.contains_key(current),
    ensures
        is_priced_route(container, *neigh, start, current, found.0@, found.1@),
        total(found.1@) <= gscores[current],
        !came_from@.contains_key(current) ==> found.0@ == seq![current],
{
    let mut route: Vec<Pos> = Vec::new();
    route.push(current);
    let ghost mut costs: Seq<int> = Seq::empty();
    let mut at = current;
    loop
        invariant
            rooted(container, *neigh, start, came_from@, prices, ranks, gscores),
            gscores.contains_key(at),
            route@.len() == costs.len() + 1,
            route@[0] == at,
            route@[route@.len() - 1] == current,
            total(costs) + gscores[at] <= gscores[current],
            costs.len() == 0 ==> route@ =~= seq![current],
            costs.len() > 0 ==> came_from@.contains_key(current),
            forall|i: int|
                0 <= i < costs.len() ==> offers_at(
                    container,
                    *neigh,
                    #[trigger] route@[i],
                    route@[i + 1],
                    costs[i],
                ),
        ensures
            is_priced_route(container, *neigh, start, current, route@, costs),
            total(costs) <= gscores[current],
            !came_from@.contains_key(current) ==> route@ == seq![current],
        decreases gscores[at], ranks[at],
    {
        match table_get(came_from, at) {
            Some(parent) => {
                let ghost before = route@;
                let ghost before_costs = costs;
                route.insert(0, parent);
                proof {
                    costs = seq![prices[at]] + before_costs;
                    lemma_total_prepend(prices[at], before_costs);
                    assert forall|i: int| 0 <= i < costs.len() implies offers_at(
                        container,
                        *neigh,
                        #[trigger] route@[i],
                        route@[i + 1],
                        costs[i],
                    ) by {
                        if i > 0 {
                            assert(route@[i] == before[i - 1]);
                            assert(route@[i + 1] == before[i]);
                            assert(costs[i] == before_costs[i - 1]);
                        }
                    }
                }
                at = parent;
            },
            None => {
                break ;
            },
        }
    }
    (route, Ghost(costs))
}

/// Whether every address that was expanded and has not been scored anew
/// since has passed its cost on: each step of `step` from it leads to an
/// address whose cost so far is no more than its own and the price of the
/// step.
pub open spec fn settled(
    step: spec_fn(Pos, Pos, int) -> bool,
    gscores: Map<Pos, i64>,
    open: Map<Pos, i64>,
    but: Option<Pos>,
) -> bool {
    forall|p: Pos, q: Pos, c: int|
        #![trigger step(p, q, c), gscores.contains_key(p)]
        Some(p) != but && gscores.contains_key(p) && !open.contains_key(p) && step(p, q, c)
            ==> gscores.contains_key(q) && gscores[q] <= gscores[p] + c
}

/// Whether every address in the open set is scored by its cost so far and
/// an estimate that `dist` gave for it.
pub open spec fn guided<DF: Fn(Pos, Pos) -> i64>(
    dist: DF,
    dest: Pos,
    gscores: Map<Pos, i64>,
    open: Map<Pos, i64>,
    guess: Map<Pos, i64>,
) -> bool {
    forall|p: Pos| #[trigger]
        open.contains_key(p) ==> gscores.contains_key(p) && guess.contains_key(p) && call_ensures(
            dist,
            (p, dest),
            guess[p],
        ) && open[p] == scored(gscores[p], guess[p])
}

/// Whether every answer of the neighbour rule holds every step of `step`:
/// what `step` relates, the rule offers.
pub open spec fn covers<C, NF: Fn(&C, Pos) -> Vec<(Pos, i64)>>(
    container: &C,
    neigh: NF,
    step: spec_fn(Pos, Pos, int) -> bool,
) -> bool {
    forall|p: Pos, q: Pos, c: int, out: Vec<(Pos, i64)>|
        #![trigger step(p, q, c), call_ensures(neigh, (container, p), out)]
        step(p, q, c) && call_ensures(neigh, (container, p), out) ==> exists|i: int|
            0 <= i < out@.len() && (#[trigger] out@[i]).0 == q && out@[i].1 == c
}

/// As long as a route runs through settled addresses, the cost so far of
/// each is no more than the route costs up to it.
proof fn lemma_settled_prefix(
    step: spec_fn(Pos, Pos, int) -> bool,
    start: Pos,
    dest: Pos,
    route: Seq<Pos>,
    costs: Seq<int>,
    gscores: Map<Pos, i64>,
    open: Map<Pos, i64>,
    upto: int,
)
    requires
        steps_route(step, start, dest, route, costs),
        settled(step, gscores, open, None),
        gscores.contains_key(start),
        gscores[start] == 0,
        0 <= upto < route.len(),
        forall|i: int| 0 <= i < upto ==> !open.contains_key(#[trigger] route[i]),
    ensures
        gscores.contains_key(route[upto]),
        gscores[route[upto]] <= total(costs.take(upto)),
    decreases upto,
{
    if upto == 0 {
        assert(costs.take(0) =~= Seq::<int>::empty());
    } else {
        lemma_settled_prefix(step, start, dest, route, costs, gscores, open, upto - 1);
        let p = route[upto - 1];
        assert(step(p, route[upto - 1 + 1], costs[upto - 1]));
        assert(!open.contains_key(p));
        assert(costs.take(upto).drop_last() =~= costs.take(upto - 1));
        assert(costs.take(upto).last() == costs[upto - 1]);
    }
}

/// The first address of a route at or after `from` that is in the open set,
/// given that its last address is.
proof fn lemma_first_open(route: Seq<Pos>, open: Map<Pos, i64>, from: int) -> (at: int)
    requires
        0 <= from < route.len(),
        open.contains_key(route[route.len() - 1]),
        forall|i: int| 0 <= i < from ==> !open.contains_key(#[trigger] route[i]),
    ensures
        from <= at < route.len(),
        open.contains_key(route[at]),
        forall|i: int| 0 <= i < at ==> !open.contains_key(#[trigger] route[i]),
    decreases route.len() - from,
{
    if open.contains_key(route[from]) {
        from
    } else {
        lemma_first_open(route, open, from + 1)
    }
}

/// When the destination has the lowest score of the open set, its cost so
/// far is no more than any route to it costs, provided that the estimate
/// never asks too much.
proof fn lemma_lowest_is_cheapest<DF: Fn(Pos, Pos) -> i64>(
    dist: DF,
    step: spec_fn(Pos, Pos, int) -> bool,
    start: Pos,
    dest: Pos,
    route: Seq<Pos>,
    costs: Seq<int>,
    gscores: Map<Pos, i64>,
    open: Map<Pos, i64>,
    guess: Map<Pos, i64>,
)
    requires
        fair(dist, dest, step),
        steps_route(step, start, dest, route, costs),
        settled(step, gscores, open, None),
        guided(dist, dest, gscores, open, guess),
        gscores.contains_key(start),
        gscores[start] == 0,
        forall|p: Pos| #[trigger] gscores.contains_key(p) ==> 0 <= gscores[p],
        open.contains_key(dest),
        forall|p: Pos| #[trigger] open.contains_key(p) ==> open[dest] <= open[p],
    ensures
        gscores[dest] <= total(costs),
{
    let at = lemma_first_open(route, open, 0);
    lemma_settled_prefix(step, start, dest, route, costs, gscores, open, at);
    let v = route[at];
    let rest = route.skip(at);
    let rest_costs = costs.skip(at);
    assert(steps_route(step, v, dest, rest, rest_costs)) by {
        assert forall|i: int| 0 <= i < rest_costs.len() implies step(
            #[trigger] rest[i],
            rest[i + 1],
            rest_costs[i],
        ) by {
            assert(step(route[i + at], route[i + at + 1], costs[i + at]));
        }
    }
    assert(call_ensures(dist, (v, dest), guess[v]));
    assert(guess[v] <= total(rest_costs));
    lemma_total_split(costs, at);
    // the estimate at the destination itself is 0
    let alone = seq![dest];
    let free = Seq::<int>::empty();
    assert(steps_route(step, dest, dest, alone, free));
    assert(call_ensures(dist, (dest, dest), guess[dest]));
    assert(guess[dest] <= total(free));
    assert(guess[dest] == 0);
    assert(open[dest] == gscores[dest]);
    assert(open[dest] <= open[v]);
}

/// A route by steps of `step` that starts among the addresses with a cost
/// stays among them, when all of them are settled.
proof fn lemma_route_stays(
    step: spec_fn(Pos, Pos, int) -> bool,
    start: Pos,
    dest: Pos,
    route: Seq<Pos>,
    costs: Seq<int>,
    gscores: Map<Pos, i64>,
    upto: int,
)
    requires
        steps_route(step, start, dest, route, costs),
        gscores.contains_key(start),
        settled(step, gscores, Map::empty(), None),
        0 <= upto < route.len(),
    ensures
        gscores.contains_key(route[upto]),
    decreases upto,
{
    if upto > 0 {
        lemma_route_stays(step, start, dest, route, costs, gscores, upto - 1);
        assert(step(route[upto - 1], route[upto - 1 + 1], costs[upto - 1]));
    }
}

/// The first address of a route at or after `from` that is in the open set;
/// the length of the route where there is none.
proof fn lemma_first_open_if_any(route: Seq<Pos>, open: Map<Pos, i64>, from: int) -> (at: int)
    requires
        0 <= from <= route.len(),
        forall|i: int| 0 <= i < from ==> !open.contains_key(#[trigger] route[i]),
    ensures
        from <= at <= route.len(),
        at < route.len() ==> open.contains_key(route[at]),
        forall|i: int| 0 <= i < at ==> !open.contains_key(#[trigger] route[i]),
    decreases route.len() - from,
{
    if from == route.len() || open.contains_key(route[from]) {
        from
    } else {
        lemma_first_open_if_any(route, open, from + 1)
    }
}

/// The lowest score of the open set is no more than any route from
/// `start` to `dest` costs, provided that the estimate never asks too
/// much.
proof fn lemma_lowest_is_promising<DF: Fn(Pos, Pos) -> i64>(
    dist: DF,
    step: spec_fn(Pos, Pos, int) -> bool,
    start: Pos,
    dest: Pos,
    route: Seq<Pos>,
    costs: Seq<int>,
    gscores: Map<Pos, i64>,
    open: Map<Pos, i64>,
    guess: Map<Pos, i64>,
    least: Pos,
)
    requires
        fair(dist, dest, step),
        steps_route(step, start, dest, route, costs),
        settled(step, gscores, open, None),
        guided(dist, dest, gscores, open, guess),
        gscores.contains_key(start),
        gscores[start] == 0,
        forall|p: Pos| #[trigger] gscores.contains_key(p) ==> 0 <= gscores[p],
        gscores.contains_key(dest) ==> open.contains_key(dest),
        open.contains_key(least),
        forall|p: Pos| #[trigger] open.contains_key(p) ==> open[least] <= open[p],
    ensures
        open[least] <= total(costs),
{
    let at = lemma_first_open_if_any(route, open, 0);
    if at == route.len() {
        lemma_settled_prefix(step, start, dest, route, costs, gscores, open, route.len() - 1);
        assert(!open.contains_key(route[route.len() - 1]));
    } else {
        lemma_settled_prefix(step, start, dest, route, costs, gscores, open, at);
        let v = route[at];
        let rest = route.skip(at);
        let rest_costs = costs.skip(at);
        assert(steps_route(step, v, dest, rest, rest_costs)) by {
            assert forall|i: int| 0 <= i < rest_costs.len() implies step(
                #[trigger] rest[i],
                rest[i + 1],
                rest_costs[i],
            ) by {
                assert(step(route[i + at], route[i + at + 1], costs[i + at]));
            }
        }
        assert(call_ensures(dist, (v, dest), guess[v]));
        assert(guess[v] <= total(rest_costs));
        lemma_total_split(costs, at);
        assert(open[v] == scored(gscores[v], guess[v]));
        assert(open[least] <= open[v]);
    }
}

/// Every address with a cost so far has a route from `start` that the
/// neighbour rule offers and that costs no more.
proof fn lemma_rooted_route<C, NF: Fn(&C, Pos) -> Vec<(Pos, i64)>>(
    container: &C,
    neigh: NF,
    start: Pos,
    came_from: Map<Pos, Pos>,
    prices: Map<Pos, int>,
    ranks: Map<Pos, nat>,
    gscores: Map<Pos, i64>,
    p: Pos,
) -> (found: (Seq<Pos>, Seq<int>))
    requires
        rooted(container, neigh, start, came_from, prices, ranks, gscores),
        gscores.contains_key(p),
    ensures
        is_priced_route(container, neigh, start, p, found.0, found.1),
        total(found.1) <= gscores[p],
    decreases gscores[p], ranks[p],
{
    if came_from.contains_key(p) {
        let parent = came_from[p];
        let (r, c) = lemma_rooted_route(
            container,
            neigh,
            start,
            came_from,
            prices,
            ranks,
            gscores,
            parent,
        );
        let route = r.push(p);
        let costs = c.push(prices[p]);
        assert(costs.drop_last() =~= c);
        assert forall|i: int| 0 <= i < costs.len() implies offered(container, neigh)(
            #[trigger] route[i],
            route[i + 1],
            costs[i],
        ) by {
            if i < c.len() {
                assert(offered(container, neigh)(r[i], r[i + 1], c[i]));
            } else {
                assert(offers_at(container, neigh, parent, p, prices[p]));
            }
        }
        (route, costs)
    } else {
        (seq![start], Seq::empty())
    }
}

/// Whether the search runs in order: no score in the open set is below
/// `floor`, which is below the highest score, and every address of `seen`
/// has left the open set with a score of at most `floor`.
pub open spec fn orderly(
    h: spec_fn(Pos) -> int,
    gscores: Map<Pos, i64>,
    open: Map<Pos, i64>,
    seen: Set<Pos>,
    floor: int,
) -> bool {
    &&& floor < i64::MAX
    &&& forall|p: Pos| #[trigger] open.contains_key(p) ==> floor <= open[p]
    &&& forall|p: Pos| #[trigger]
        seen.contains(p) ==> gscores.contains_key(p) && !open.contains_key(p) && gscores[p] + h(p)
            <= floor
}

/// Taking the address with the lowest score out of the open set keeps the
/// search in order: the address was not expanded before, and its score is
/// the new floor.
proof fn lemma_expand<C, DF: Fn(Pos, Pos) -> i64, NF: Fn(&C, Pos) -> Vec<(Pos, i64)>>(
    container: &C,
    dist: DF,
    neigh: NF,
    step: spec_fn(Pos, Pos, int) -> bool,
    h: spec_fn(Pos) -> int,
    start: Pos,
    dest: Pos,
    max_steps: u32,
    steps: u32,
    came_from: Map<Pos, Pos>,
    prices: Map<Pos, int>,
    ranks: Map<Pos, nat>,
    gscores: Map<Pos, i64>,
    before: Map<Pos, i64>,
    guess: Map<Pos, i64>,
    seen: Set<Pos>,
    floor: int,
    current: Pos,
)
    requires
        consistent_as(dist, dest, offered(container, neigh), h),
        fair(dist, dest, step),
        in_range(dist, dest, step, start),
        rooted(container, neigh, start, came_from, prices, ranks, gscores),
        guided(dist, dest, gscores, before, guess),
        settled(step, gscores, before, None),
        gscores.contains_key(dest) ==> before.contains_key(dest),
        forall|p: Pos| #[trigger] gscores.contains_key(p) ==> gscores[p] <= steps * MAX_STEP_COST,
        steps < max_steps,
        before.contains_key(current),
        forall|p: Pos| #[trigger] before.contains_key(p) ==> before[current] <= before[p],
        current != dest,
        orderly(h, gscores, before, seen, floor),
        expansions(container, dist, neigh, step, start, dest, seen, steps as nat),
    ensures
        orderly(h, gscores, before.remove(current), seen.insert(current), gscores[current] + h(current)),
        expansions(
            container,
            dist,
            neigh,
            step,
            start,
            dest,
            seen.insert(current),
            (steps + 1) as nat,
        ),
{
    let g = gscores[current];
    let est = guess[current];
    assert(call_ensures(dist, (current, dest), est));
    assert(est == h(current));
    assert(before[current] == scored(g, est));
    assert forall|other: Seq<Pos>, bill: Seq<int>|
        #![trigger steps_route(step, start, dest, other, bill)]
        steps_route(step, start, dest, other, bill) implies scored(g, est) <= total(bill) by {
        lemma_lowest_is_promising(
            dist,
            step,
            start,
            dest,
            other,
            bill,
            gscores,
            before,
            guess,
            current,
        );
    }
    if exists|route: Seq<Pos>, costs: Seq<int>|
        #![trigger steps_route(step, start, dest, route, costs)]
        steps_route(step, start, dest, route, costs) && total(costs) < i64::MAX {
        let (route, costs) = choose|route: Seq<Pos>, costs: Seq<int>|
            #![trigger steps_route(step, start, dest, route, costs)]
            steps_route(step, start, dest, route, costs) && total(costs) < i64::MAX;
        assert(scored(g, est) <= total(costs));
    } else {
        assert(est <= MAX_ESTIMATE);
        assert(steps * MAX_STEP_COST <= 0xffff_ffff * MAX_STEP_COST) by (nonlinear_arith)
            requires
                steps <= 0xffff_ffff,
        ;
    }
    assert(scored(g, est) < i64::MAX);
    assert(scored(g, est) == g + est);
    let (r, c) = lemma_rooted_route(
        container,
        neigh,
        start,
        came_from,
        prices,
        ranks,
        gscores,
        current,
    );
    assert(reached_at(container, dist, neigh, step, start, dest, current, g, est, r, c));
    assert(!seen.contains(current));
}

/// Giving an address a lower cost so far from the address that is being
/// expanded keeps the search in order, where the estimate is consistent:
/// the address was not expanded before, and its new score is not below
/// the floor.
proof fn lemma_rescore<C, DF: Fn(Pos, Pos) -> i64, NF: Fn(&C, Pos) -> Vec<(Pos, i64)>>(
    container: &C,
    dist: DF,
    neigh: NF,
    h: spec_fn(Pos) -> int,
    dest: Pos,
    gscores: Map<Pos, i64>,
    open: Map<Pos, i64>,
    seen: Set<Pos>,
    floor: int,
    current: Pos,
    next: Pos,
    cost: int,
    tentative: i64,
    estimate: i64,
)
    requires
        consistent_as(dist, dest, offered(container, neigh), h),
        orderly(h, gscores, open, seen, floor),
        gscores.contains_key(current),
        floor == gscores[current] + h(current),
        offers_at(container, neigh, current, next, cost),
        tentative == gscores[current] + cost,
        tentative >= 0,
        gscores.contains_key(next) ==> tentative < gscores[next],
        call_ensures(dist, (next, dest), estimate),
    ensures
        !seen.contains(next),
        orderly(
            h,
            gscores.insert(next, tentative),
            open.insert(next, scored(tentative, estimate)),
            seen,
            floor,
        ),
{
    assert(offered(container, neigh)(current, next, cost));
    assert(h(current) <= cost + h(next));
    assert(estimate == h(next));
}

/// Searches for a route from `start` to `dest` as `path` does. `step` is
/// the relation against which the result is judged; every step of it must
/// be one that the neighbour rule offers. Where the estimate is consistent
/// with regard to the offered steps and the scores stay in range, no
/// address is expanded twice, so that the search gives up only after
/// `max_steps` different addresses.
pub(crate) fn search<C, DF, NF>(
    container: &C,
    start: Pos,
    dest: Pos,
    dist: DF,
    neigh: NF,
    max_steps: u32,
    Ghost(step): Ghost<spec_fn(Pos, Pos, int) -> bool>,
) -> (found: Result<(Vec<Pos>, Ghost<Seq<int>>), SearchError>) where
    C: Container,
    DF: Fn(Pos, Pos) -> i64,
    NF: Fn(&C, Pos) -> Vec<(Pos, i64)>,

    requires
        forall|a: Pos, b: Pos| call_requires(dist, (a, b)),
        steady(container, neigh),
        covers(container, neigh, step),
    ensures
        found matches Ok(route) ==> cheapest_at(
            container,
            dist,
            neigh,
            step,
            start,
            dest,
            route.0@,
            route.1@,
        ),
        found matches Err(SearchError::Unreachable) ==> forall|route: Seq<Pos>, costs: Seq<int>|
            !steps_route(step, start, dest, route, costs),
        found matches Err(SearchError::StepLimit) ==> (consistent(
            dist,
            dest,
            offered(container, neigh),
        ) && fair(dist, dest, step) && in_range(dist, dest, step, start) ==> exhausts(
            container,
            dist,
            neigh,
            step,
            start,
            dest,
            max_steps,
        )),
        start == dest && max_steps >= 1 ==> (found matches Ok(route) && route.0@ == seq![start]),
{
    let ghost calm = consistent(dist, dest, offered(container, neigh)) && fair(dist, dest, step)
        && in_range(dist, dest, step, start);
    let ghost h = choose|h: spec_fn(Pos) -> int|
        consistent_as(dist, dest, offered(container, neigh), h);
    let ghost mut seen: Set<Pos> = Set::empty();
    let ghost mut floor: int = i64::MIN as int;
    let first = dist(start, dest);
    let mut open = OpenSet::new((start, first));
    let mut came_from: Table<Pos> = new_table();
    let mut gscores: Table<i64> = new_table();
    table_insert(&mut gscores, start, 0);
    let mut steps: u32 = 0;
    let ghost mut prices: Map<Pos, int> = Map::empty();
    let ghost mut ranks: Map<Pos, nat> = Map::empty();
    let ghost mut guess: Map<Pos, i64> = Map::empty().insert(start, first);
    proof {
        assert(came_from@ =~= Map::<Pos, Pos>::empty());
        assert(gscores@ =~= Map::<Pos, i64>::empty().insert(start, 0));
    }
    while steps < max_steps
        invariant
            forall|a: Pos, b: Pos| call_requires(dist, (a, b)),
            steady(container, neigh),
            covers(container, neigh, step),
            open.wf(),
            rooted(container, neigh, start, came_from@, prices, ranks, gscores@),
            guided(dist, dest, gscores@, open.scores(), guess),
            settled(step, gscores@, open.scores(), None),
            forall|p: Pos| #[trigger] gscores@.contains_key(p) ==> gscores@[p] <= steps * MAX_STEP_COST,
            gscores@.contains_key(dest) ==> open.scores().contains_key(dest),
            steps <= max_steps,
            steps == 0 ==> open.scores() == Map::<Pos, i64>::empty().insert(start, first),
            steps > 0 ==> start != dest,
            calm == (consistent(dist, dest, offered(container, neigh)) && fair(dist, dest, step)
                && in_range(dist, dest, step, start)),
            calm ==> consistent_as(dist, dest, offered(container, neigh), h),
            calm ==> orderly(h, gscores@, open.scores(), seen, floor),
            calm ==> expansions(container, dist, neigh, step, start, dest, seen, steps as nat),
        decreases max_steps - steps,
    {
        if open.is_empty() {
            proof {
                if steps == 0 {
                    assert(open.scores().contains_key(start));
                }
            }
            proof {
                assert forall|route: Seq<Pos>, costs: Seq<int>| !steps_route(
                    step,
                    start,
                    dest,
                    route,
                    costs,
                ) by {
                    if steps_route(step, start, dest, route, costs) {
                        lemma_route_stays(
                            step,
                            start,
                            dest,
                            route,
                            costs,
                            gscores@,
                            route.len() - 1,
                        );
                    }
                }
            }
            return Err(SearchError::Unreachable);
        }
        let ghost before = open.scores();
        let current = open.pop();
        proof {
            if steps == 0 {
                assert(current == start);
            }
        }
        if current.0 == dest.0 && current.1 == dest.1 && current.2 == dest.2 {
            let (route, Ghost(costs)) = reconstruct_path(
                &came_from,
                current,
                container,
                &neigh,
                Ghost(start),
                Ghost(prices),
                Ghost(ranks),
                Ghost(gscores@),
            );
            proof {
                if fair(dist, dest, step) {
                    assert forall|other: Seq<Pos>, cost_list: Seq<int>|
                        #![trigger steps_route(step, start, dest, other, cost_list)]
                        steps_route(step, start, dest, other, cost_list) implies total(costs)
                        <= total(cost_list) by {
                        lemma_lowest_is_cheapest(
                            dist,
                            step,
                            start,
                            dest,
                            other,
                            cost_list,
                            gscores@,
                            before,
                            guess,
                        );
                    }
                }
            }
            return Ok((route, Ghost(costs)));
        }
        let current_gscore = match table_get(&gscores, current) {
            Some(score) => score,
            None => 0,
        };
        let neighbours = neigh(container, current);
        let mut j: usize = 0;
        proof {
            assert(settled(step, gscores@, open.scores(), Some(current)));
            if calm {
                lemma_expand(
                    container,
                    dist,
                    neigh,
                    step,
                    h,
                    start,
                    dest,
                    max_steps,
                    steps,
                    came_from@,
                    prices,
                    ranks,
                    gscores@,
                    before,
                    guess,
                    seen,
                    floor,
                    current,
                );
                seen = seen.insert(current);
                floor = current_gscore + h(current);
            }
        }
        while j < neighbours.len()
            invariant
                0 <= j <= neighbours.len(),
                forall|a: Pos, b: Pos| call_requires(dist, (a, b)),
                steady(container, neigh),
                call_ensures(neigh, (container, current), neighbours),
                open.wf(),
                rooted(container, neigh, start, came_from@, prices, ranks, gscores@),
                guided(dist, dest, gscores@, open.scores(), guess),
                settled(step, gscores@, open.scores(), Some(current)),
                gscores@.contains_key(current),
                gscores@[current] == current_gscore,
                !open.scores().contains_key(current),
                current_gscore <= steps * MAX_STEP_COST,
                current != dest,
                steps < max_steps,
                forall|p: Pos| #[trigger]
                    gscores@.contains_key(p) ==> gscores@[p] <= (steps + 1) * MAX_STEP_COST,
                gscores@.contains_key(dest) ==> open.scores().contains_key(dest),
                forall|i: int|
                    0 <= i < j ==> gscores@.contains_key((#[trigger] neighbours@[i]).0)
                        && gscores@[neighbours@[i].0] <= current_gscore + neighbours@[i].1,
                calm ==> consistent_as(dist, dest, offered(container, neigh), h),
                calm ==> orderly(h, gscores@, open.scores(), seen, floor),
                calm ==> floor == current_gscore + h(current),
            decreases neighbours.len() - j,
        {
            let (neighbour, cost) = neighbours[j];
            proof {
                assert(0 <= neighbours@[j as int].1 <= MAX_STEP_COST);
                assert(offers_at(container, neigh, current, neighbour, cost as int));
            }
            let tentative = current_gscore + cost;
            let known = table_get(&gscores, neighbour);
            let improves = match known {
                Some(previous) => tentative < previous,
                None => true,
            };
            if improves {
                let estimate = dist(neighbour, dest);
                let score = if estimate > i64::MAX - tentative {
                    i64::MAX
                } else {
                    tentative + estimate
                };
                let ghost old_from = came_from@;
                let ghost old_scores = gscores@;
                let ghost old_open = open.scores();
                let ghost old_ranks = ranks;
                table_insert(&mut came_from, neighbour, current);
                table_insert(&mut gscores, neighbour, tentative);
                open.update(neighbour, score);
                proof {
                    if calm {
                        lemma_rescore(
                            container,
                            dist,
                            neigh,
                            h,
                            dest,
                            old_scores,
                            old_open,
                            seen,
                            floor,
                            current,
                            neighbour,
                            cost as int,
                            tentative,
                            estimate,
                        );
                    }
                    prices = prices.insert(neighbour, cost as int);
                    ranks = ranks.insert(neighbour, old_ranks[current] + 1);
                    guess = guess.insert(neighbour, estimate);
                    assert(neighbour != start);
                    assert(neighbour != current);
                    assert forall|p: Pos| #[trigger] came_from@.contains_key(p) implies gscores@.contains_key(
                        p,
                    ) && gscores@.contains_key(came_from@[p]) && prices.contains_key(p)
                        && prices[p] >= 0 && gscores@[came_from@[p]] + prices[p] <= gscores@[p]
                        && (gscores@[came_from@[p]] == gscores@[p] ==> ranks[came_from@[p]]
                        < ranks[p]) && offers_at(container, neigh, came_from@[p], p, prices[p]) by {
                        if p != neighbour {
                            assert(old_from.contains_key(p));
                            assert(old_scores.contains_key(old_from[p]));
                            if old_from[p] == neighbour {
                                assert(old_scores.contains_key(neighbour));
                                assert(tentative < old_scores[neighbour]);
                            } else {
                                assert(ranks[old_from[p]] == old_ranks[old_from[p]]);
                            }
                        } else {
                            assert(ranks[current] == old_ranks[current]);
                        }
                    }
                    assert forall|p: Pos, q: Pos, c: int|
                        #![trigger step(p, q, c), gscores@.contains_key(p)]
                        Some(p) != Some(current) && gscores@.contains_key(p)
                            && !open.scores().contains_key(p) && step(p, q, c) implies gscores@.contains_key(
                        q,
                    ) && gscores@[q] <= gscores@[p] + c by {
                        assert(p != neighbour);
                        assert(old_scores.contains_key(p));
                        assert(!old_open.contains_key(p));
                    }
                }
            }
            j += 1;
        }
        proof {
            assert forall|p: Pos, q: Pos, c: int|
                #![trigger step(p, q, c), gscores@.contains_key(p)]
                gscores@.contains_key(p) && !open.scores().contains_key(p) && step(
                    p,
                    q,
                    c,
                ) implies gscores@.contains_key(q) && gscores@[q] <= gscores@[p] + c by {
                if p == current {
                    assert(call_ensures(neigh, (container, p), neighbours));
                    let i = choose|i: int|
                        0 <= i < neighbours@.len() && (#[trigger] neighbours@[i]).0 == q
                            && neighbours@[i].1 == c;
                    assert(gscores@.contains_key(neighbours@[i].0));
                }
            }
        }
        steps += 1;
    }
    proof {
        if calm {
            assert(expansions(container, dist, neigh, step, start, dest, seen, max_steps as nat));
        }
    }
    Err(SearchError::StepLimit)
}

/// Along a route the estimate falls by no more than the route costs, where
/// it falls along no step by more than the step costs.
pub proof fn lemma_estimate_along(
    step: spec_fn(Pos, Pos, int) -> bool,
    h: spec_fn(Pos) -> int,
    from: Pos,
    to: Pos,
    route: Seq<Pos>,
    costs: Seq<int>,
)
    requires
        forall|p: Pos, q: Pos, c: int| #[trigger] step(p, q, c) ==> h(p) <= c + h(q),
        steps_route(step, from, to, route, costs),
    ensures
        h(from) <= total(costs) + h(to),
    decreases costs.len(),
{
    if costs.len() > 0 {
        let last = costs.len() - 1;
        assert(step(route[last], route[last + 1], costs[last]));
        let front = route.drop_last();
        let front_costs = costs.drop_last();
        assert forall|i: int| 0 <= i < front_costs.len() implies step(
            #[trigger] front[i],
            front[i + 1],
            front_costs[i],
        ) by {
            assert(step(route[i], route[i + 1], costs[i]));
        }
        lemma_estimate_along(step, h, from, route[last], front, front_costs);
    }
}

/// A consistent estimate never asks too much.
pub proof fn lemma_consistent_is_fair<DF: Fn(Pos, Pos) -> i64>(
    dist: DF,
    dest: Pos,
    step: spec_fn(Pos, Pos, int) -> bool,
)
    requires
        consistent(dist, dest, step),
    ensures
        fair(dist, dest, step),
{
    let h = choose|h: spec_fn(Pos) -> int| consistent_as(dist, dest, step, h);
    assert forall|v: Pos, route: Seq<Pos>, costs: Seq<int>, est: i64|
        #![trigger steps_route(step, v, dest, route, costs), call_ensures(dist, (v, dest), est)]
        steps_route(step, v, dest, route, costs) && call_ensures(
            dist,
            (v, dest),
            est,
        ) implies est <= total(costs) by {
        lemma_estimate_along(step, h, v, dest, route, costs);
    }
}

/// Whether every step that the neighbour rule offers from an address of
/// `within` leads to an address of `within`.
pub open spec fn closed_under<C, NF: Fn(&C, Pos) -> Vec<(Pos, i64)>>(
    container: &C,
    neigh: NF,
    within: Set<Pos>,
) -> bool {
    forall|p: Pos, q: Pos|
        within.contains(p) && #[trigger] offers(container, neigh, p, q) ==> within.contains(q)
}

/// A route that starts in a set which no offered step leaves stays in it.
pub proof fn lemma_route_stays_within<C, NF: Fn(&C, Pos) -> Vec<(Pos, i64)>>(
    container: &C,
    neigh: NF,
    within: Set<Pos>,
    start: Pos,
    end: Pos,
    route: Seq<Pos>,
    upto: int,
)
    requires
        closed_under(container, neigh, within),
        within.contains(start),
        is_route(container, neigh, start, end, route),
        0 <= upto < route.len(),
    ensures
        within.contains(route[upto]),
    decreases upto,
{
    if upto > 0 {
        lemma_route_stays_within(container, neigh, within, start, end, route, upto - 1);
        assert(offers(container, neigh, route[upto - 1], route[upto - 1 + 1]));
    }
}

/// Where a search can end without an answer, every set that holds `start`
/// and that no offered step leaves has at least as many addresses as the
/// search may expand.
pub proof fn lemma_exhausts_is_wide<C, DF: Fn(Pos, Pos) -> i64, NF: Fn(&C, Pos) -> Vec<(Pos, i64)>>(
    container: &C,
    dist: DF,
    neigh: NF,
    step: spec_fn(Pos, Pos, int) -> bool,
    start: Pos,
    dest: Pos,
    max_steps: u32,
    within: Set<Pos>,
)
    requires
        exhausts(container, dist, neigh, step, start, dest, max_steps),
        closed_under(container, neigh, within),
        within.contains(start),
        within.finite(),
    ensures
        max_steps <= within.len(),
{
    let seen = choose|seen: Set<Pos>| #[trigger]
        expansions(container, dist, neigh, step, start, dest, seen, max_steps as nat);
    assert forall|p: Pos| seen.contains(p) implies within.contains(p) by {
        assert(expandable(container, dist, neigh, step, start, dest, p));
        let (g, h, route, costs) = choose|g: i64, h: i64, route: Seq<Pos>, costs: Seq<int>| #[trigger]
            reached_at(container, dist, neigh, step, start, dest, p, g, h, route, costs);
        lemma_priced_is_route(container, neigh, start, p, route, costs);
        lemma_route_stays_within(container, neigh, within, start, p, route, route.len() - 1);
    }
    vstd::set_lib::lemma_len_subset(seen, within);
}

/// Searches for a route from `start` to `dest`. An address is expanded by
/// asking `neigh` for its neighbours and the cost of the step to each;
/// `dist` estimates the cost that remains and guides the order in which
/// addresses are expanded: the address whose cost so far and estimate are
/// lowest together comes next. At most `max_steps` addresses are expanded.
///
/// The route returned is one that `neigh` offers. Where `dist` never asks
/// too much, no route that `neigh` offers costs less. Where `dist` is
/// consistent and the scores stay in range, the search gives up only after
/// it has expanded `max_steps` different addresses: never, then, where
/// fewer can be reached.
pub fn path<C, DF, NF>(
    container: &C,
    start: Pos,
    dest: Pos,
    dist: DF,
    neigh: NF,
    max_steps: u32,
) -> (found: Result<Vec<Pos>, SearchError>) where
    C: Container,
    DF: Fn(Pos, Pos) -> i64,
    NF: Fn(&C, Pos) -> Vec<(Pos, i64)>,

    requires
        forall|a: Pos, b: Pos| call_requires(dist, (a, b)),
        steady(container, neigh),
    ensures
        found matches Ok(route) ==> is_route(container, neigh, start, dest, route@),
        found matches Ok(route) ==> is_cheapest_route(
            container,
            dist,
            neigh,
            start,
            dest,
            route@,
        ),
        found == Err::<Vec<Pos>, SearchError>(SearchError::Unreachable) ==> forall|route: Seq<Pos>|
            !is_route(container, neigh, start, dest, route),
        found == Err::<Vec<Pos>, SearchError>(SearchError::StepLimit) && consistent(
            dist,
            dest,
            offered(container, neigh),
        ) && in_range(dist, dest, offered(container, neigh), start) ==> exhausts(
            container,
            dist,
            neigh,
            offered(container, neigh),
            start,
            dest,
            max_steps,
        ),
        found == Err::<Vec<Pos>, SearchError>(SearchError::StepLimit) && consistent(
            dist,
            dest,
            offered(container, neigh),
        ) && in_range(dist, dest, offered(container, neigh), start) ==> forall|
            within: Set<Pos>,
        |
            #[trigger] closed_under(container, neigh, within) && within.contains(start)
                && within.finite() ==> max_steps <= within.len(),
        start == dest && max_steps >= 1 ==> (found matches Ok(route) && route@ == seq![start]),
{
    let ghost step = offered(container, neigh);
    proof {
        assert forall|p: Pos, q: Pos, c: int, out: Vec<(Pos, i64)>|
            #![trigger step(p, q, c), call_ensures(neigh, (container, p), out)]
            step(p, q, c) && call_ensures(neigh, (container, p), out) implies exists|i: int|
            0 <= i < out@.len() && (#[trigger] out@[i]).0 == q && out@[i].1 == c by {
            let (other, k) = choose|other: Vec<(Pos, i64)>, k: int|
                call_ensures(neigh, (container, p), other) && 0 <= k < other@.len() && (
                #[trigger] other@[k]).0 == q && other@[k].1 == c;
            assert(other@ == out@);
            assert(out@[k].0 == q && out@[k].1 == c);
        }
    }
    match search(container, start, dest, dist, neigh, max_steps, Ghost(step)) {
        Ok(found) => {
            let (route, Ghost(costs)) = found;
            proof {
                lemma_priced_is_route(container, neigh, start, dest, route@, costs);
            }
            Ok(route)
        },
        Err(SearchError::Unreachable) => {
            proof {
                assert forall|route: Seq<Pos>| !is_route(container, neigh, start, dest, route) by {
                    if is_route(container, neigh, start, dest, route) {
                        let costs = lemma_route_is_priced(container, neigh, start, dest, route);
                        assert(steps_route(step, start, dest, route, costs));
                    }
                }
            }
            Err(SearchError::Unreachable)
        },
        Err(SearchError::StepLimit) => {
            proof {
                if consistent(dist, dest, step) && in_range(dist, dest, step, start) {
                    lemma_consistent_is_fair(dist, dest, step);
                    assert forall|within: Set<Pos>|
                        #[trigger] closed_under(container, neigh, within) && within.contains(start)
                            && within.finite() implies max_steps <= within.len() by {
                        lemma_exhausts_is_wide(
                            container,
                            dist,
                            neigh,
                            step,
                            start,
                            dest,
                            max_steps,
                            within,
                        );
                    }
                }
            }
            Err(SearchError::StepLimit)
        },
    }
}

} // verus!
