//! The open set of the search: addresses with a score, from which the
//! address with the lowest score is taken next.

use std::collections::BTreeMap;
use vstd::prelude::*;

use super::{new_table, table_get, table_insert, table_remove, Table};
use crate::backend::Pos;

verus! {

/// Two maps kept in step: the score of every address in the set, and for
/// every score in use the addresses that have it, in the order in which
/// they got it.
pub struct OpenSet {
    values: Table<i64>,
    inner: BTreeMap<i64, Vec<Pos>>,
}

/// Index of the first occurrence of `item` in `bucket`; `bucket.len()` when
/// there is none.
pub open spec fn position_of(bucket: Seq<Pos>, item: Pos) -> int
    decreases bucket.len(),
{
    if bucket.len() == 0 {
        0
    } else if bucket[0] == item {
        0
    } else {
        1 + position_of(bucket.drop_first(), item)
    }
}

/// `position_of` is the least index that holds `item`.
pub proof fn lemma_position_of(bucket: Seq<Pos>, item: Pos)
    ensures
        0 <= position_of(bucket, item) <= bucket.len(),
        position_of(bucket, item) < bucket.len() ==> bucket[position_of(bucket, item)] == item,
        forall|j: int| 0 <= j < position_of(bucket, item) ==> bucket[j] != item,
    decreases bucket.len(),
{
    if bucket.len() > 0 && bucket[0] != item {
        let rest = bucket.drop_first();
        lemma_position_of(rest, item);
        assert forall|j: int| 0 <= j < position_of(bucket, item) implies bucket[j] != item by {
            if j > 0 {
                assert(rest[j - 1] == bucket[j]);
            }
        }
    }
}

/// The addresses that have score `s`; none where the score is not in use.
pub open spec fn bucket_of(buckets: Map<i64, Seq<Pos>>, s: i64) -> Seq<Pos> {
    if buckets.contains_key(s) {
        buckets[s]
    } else {
        Seq::empty()
    }
}

/// `buckets` with `s` holding `bucket`, or without `s` where `bucket` is
/// empty.
pub open spec fn with_bucket(buckets: Map<i64, Seq<Pos>>, s: i64, bucket: Seq<Pos>) -> Map<
    i64,
    Seq<Pos>,
> {
    if bucket.len() == 0 {
        buckets.remove(s)
    } else {
        buckets.insert(s, bucket)
    }
}

/// `buckets` after `item` has left the bucket of score `s`.
pub open spec fn without_item(buckets: Map<i64, Seq<Pos>>, s: i64, item: Pos) -> Map<
    i64,
    Seq<Pos>,
> {
    let bucket = bucket_of(buckets, s);
    if position_of(bucket, item) < bucket.len() {
        with_bucket(buckets, s, bucket.remove(position_of(bucket, item)))
    } else {
        buckets
    }
}

/// `buckets` after `item` has joined the bucket of score `s` at its end.
pub open spec fn with_item(buckets: Map<i64, Seq<Pos>>, s: i64, item: Pos) -> Map<i64, Seq<Pos>> {
    buckets.insert(s, bucket_of(buckets, s).push(item))
}

/// Whether `s` is in use and no lower score is.
pub open spec fn is_least(buckets: Map<i64, Seq<Pos>>, s: i64) -> bool {
    buckets.contains_key(s) && forall|k: i64| buckets.contains_key(k) ==> s <= k
}

/// The two maps agree: every address sits exactly once in the bucket of its
/// score and in no other, and no bucket is empty.
pub open spec fn in_step(scores: Map<Pos, i64>, buckets: Map<i64, Seq<Pos>>) -> bool {
    &&& forall|p: Pos| #[trigger]
        scores.contains_key(p) ==> buckets.contains_key(scores[p]) && buckets[scores[p]].contains(
            p,
        )
    &&& forall|s: i64| #[trigger]
        buckets.contains_key(s) ==> buckets[s].len() > 0 && buckets[s].no_duplicates()
    &&& forall|s: i64, i: int|
        buckets.contains_key(s) && 0 <= i < buckets[s].len() ==> scores.contains_key(
            #[trigger] buckets[s][i],
        ) && scores[buckets[s][i]] == s
}

/// The buckets after `item` has been given the score `cost`: it leaves the
/// bucket of its old score, if it had one, and joins the bucket of `cost` at
/// the end.
pub open spec fn rescored(
    scores: Map<Pos, i64>,
    buckets: Map<i64, Seq<Pos>>,
    item: Pos,
    cost: i64,
) -> Map<i64, Seq<Pos>> {
    if scores.contains_key(item) {
        with_item(without_item(buckets, scores[item], item), cost, item)
    } else {
        with_item(buckets, cost, item)
    }
}

/// Taking an address out of its bucket and out of the scores keeps the two
/// maps in step.
pub proof fn lemma_take_out(scores: Map<Pos, i64>, buckets: Map<i64, Seq<Pos>>, item: Pos)
    requires
        in_step(scores, buckets),
        scores.contains_key(item),
    ensures
        in_step(scores.remove(item), without_item(buckets, scores[item], item)),
        position_of(buckets[scores[item]], item) < buckets[scores[item]].len(),
{
    let s = scores[item];
    let bucket = buckets[s];
    lemma_position_of(bucket, item);
    let at = position_of(bucket, item);
    assert(bucket.contains(item));
    let w = choose|i: int| 0 <= i < bucket.len() && bucket[i] == item;
    assert(at <= w) by {
        if w < at {
            assert(bucket[w] != item);
        }
    }
    let rest = bucket.remove(at);
    let after = without_item(buckets, s, item);
    let left = scores.remove(item);
    assert forall|p: Pos| #[trigger] left.contains_key(p) implies after.contains_key(left[p])
        && after[left[p]].contains(p) by {
        assert(scores.contains_key(p));
        let sp = scores[p];
        let i = choose|i: int| 0 <= i < buckets[sp].len() && buckets[sp][i] == p;
        if sp == s {
            if i < at {
                assert(rest[i] == p);
            } else {
                assert(i != at);
                assert(rest[i - 1] == p);
            }
        } else {
            assert(after[sp][i] == p);
        }
    }
    assert forall|k: i64| #[trigger] after.contains_key(k) implies after[k].len() > 0
        && after[k].no_duplicates() by {
        assert(buckets.contains_key(k));
        if k == s {
            assert forall|i: int, j: int| 0 <= i < rest.len() && 0 <= j < rest.len() && i != j implies rest[i] != rest[j] by {
                let a = if i < at { i } else { i + 1 };
                let b = if j < at { j } else { j + 1 };
                assert(rest[i] == bucket[a] && rest[j] == bucket[b]);
            }
        }
    }
    assert forall|k: i64, i: int| after.contains_key(k) && 0 <= i < after[k].len() implies left.contains_key(
        #[trigger] after[k][i],
    ) && left[after[k][i]] == k by {
        assert(buckets.contains_key(k));
        if k == s {
            let a = if i < at { i } else { i + 1 };
            assert(rest[i] == bucket[a]);
            assert(scores.contains_key(bucket[a]));
            assert(bucket[a] != bucket[at]);
        } else {
            assert(scores.contains_key(buckets[k][i]));
        }
    }
}

/// Giving a score to an address that had none keeps the two maps in step.
pub proof fn lemma_put_in(scores: Map<Pos, i64>, buckets: Map<i64, Seq<Pos>>, item: Pos, cost: i64)
    requires
        in_step(scores, buckets),
        !scores.contains_key(item),
    ensures
        in_step(scores.insert(item, cost), with_item(buckets, cost, item)),
{
    let bucket = bucket_of(buckets, cost);
    let grown = bucket.push(item);
    let after = with_item(buckets, cost, item);
    let more = scores.insert(item, cost);
    assert(grown[grown.len() - 1] == item);
    assert forall|p: Pos| #[trigger] more.contains_key(p) implies after.contains_key(more[p])
        && after[more[p]].contains(p) by {
        if p != item {
            let sp = scores[p];
            let i = choose|i: int| 0 <= i < buckets[sp].len() && buckets[sp][i] == p;
            if sp == cost {
                assert(grown[i] == p);
            } else {
                assert(after[sp][i] == p);
            }
        }
    }
    assert forall|k: i64| #[trigger] after.contains_key(k) implies after[k].len() > 0
        && after[k].no_duplicates() by {
        if k == cost {
            assert forall|i: int, j: int| 0 <= i < grown.len() && 0 <= j < grown.len() && i != j implies grown[i] != grown[j] by {
                if i < bucket.len() {
                    assert(scores.contains_key(bucket[i]));
                }
                if j < bucket.len() {
                    assert(scores.contains_key(bucket[j]));
                }
            }
        } else {
            assert(buckets.contains_key(k));
        }
    }
    assert forall|k: i64, i: int| after.contains_key(k) && 0 <= i < after[k].len() implies more.contains_key(
        #[trigger] after[k][i],
    ) && more[after[k][i]] == k by {
        if k == cost {
            if i < bucket.len() {
                assert(scores.contains_key(bucket[i]));
            }
        } else {
            assert(scores.contains_key(buckets[k][i]));
        }
    }
}

/// After an address has been given a score and then a lower one, it is the
/// first address of the lowest bucket, and so the next to be taken, provided
/// that every other address in the set has a higher score than that.
pub proof fn lemma_lowered_score_is_next(
    scores: Map<Pos, i64>,
    buckets: Map<i64, Seq<Pos>>,
    item: Pos,
    first: i64,
    second: i64,
)
    requires
        in_step(scores, buckets),
        second < first,
        forall|p: Pos| scores.contains_key(p) && p != item ==> second < #[trigger] scores[p],
    ensures
        ({
            let once = rescored(scores, buckets, item, first);
            let twice = rescored(scores.insert(item, first), once, item, second);
            &&& in_step(scores.insert(item, first).insert(item, second), twice)
            &&& is_least(twice, second)
            &&& twice[second][0] == item
        }),
{
    let s1 = scores.insert(item, first);
    let once = rescored(scores, buckets, item, first);
    if scores.contains_key(item) {
        lemma_take_out(scores, buckets, item);
        lemma_put_in(scores.remove(item), without_item(buckets, scores[item], item), item, first);
        assert(scores.remove(item).insert(item, first) =~= s1);
    } else {
        lemma_put_in(scores, buckets, item, first);
    }
    lemma_take_out(s1, once, item);
    let mid = without_item(once, first, item);
    let left = s1.remove(item);
    lemma_put_in(left, mid, item, second);
    let twice = rescored(s1, once, item, second);
    assert(left.insert(item, second) =~= s1.insert(item, second));
    assert(twice == with_item(mid, second, item));
    assert(!mid.contains_key(second)) by {
        if mid.contains_key(second) {
            let p = mid[second][0];
            assert(left.contains_key(p) && left[p] == second);
            assert(scores.contains_key(p) && p != item);
        }
    }
    assert(twice[second] =~= seq![item]);
    assert forall|k: i64| twice.contains_key(k) implies second <= k by {
        if k != second {
            assert(mid.contains_key(k));
            let p = mid[k][0];
            assert(left.contains_key(p) && left[p] == k);
            assert(scores.contains_key(p) && p != item);
        }
    }
}

/// Integers as keys of an ordered map order as integers do.
proof fn lemma_score_keys()
    ensures
        vstd::laws_cmp::obeys_cmp::<i64>(),
{
    broadcast use vstd::laws_cmp::group_laws_cmp;

}

/// The least key of `buckets`, through `BTreeMap::first_key_value`.
///
/// Not proved: that the key returned is a key of the map and that no key of
/// the map is smaller, and that none is returned exactly when the map is
/// empty.
#[verifier::external_body]
fn first_key(buckets: &BTreeMap<i64, Vec<Pos>>) -> (least: Option<i64>)
    ensures
        least is Some ==> buckets@.contains_key(least->0),
        forall|k: i64| least is Some && buckets@.contains_key(k) ==> least->0 <= k,
        forall|k: i64| least is None ==> !buckets@.contains_key(k),
{
    match buckets.first_key_value() {
        Some((s, _)) => Some(*s),
        None => None,
    }
}

/// Index of the first occurrence of `item` in `bucket`.
fn find_in(bucket: &Vec<Pos>, item: Pos) -> (at: usize)
    ensures
        at == position_of(bucket@, item),
        at <= bucket@.len(),
{
    let mut i: usize = 0;
    proof {
        lemma_position_of(bucket@, item);
    }
    while i < bucket.len()
        invariant
            0 <= i <= bucket.len(),
            i <= position_of(bucket@, item) <= bucket@.len(),
            position_of(bucket@, item) < bucket@.len() ==> bucket@[position_of(bucket@, item)]
                == item,
        decreases bucket.len() - i,
    {
        let p = bucket[i];
        if p.0 == item.0 && p.1 == item.1 && p.2 == item.2 {
            proof {
                lemma_position_of(bucket@, item);
            }
            return i;
        }
        i += 1;
    }
    i
}

impl OpenSet {
    /// The score of every address in the set.
    pub closed spec fn scores(&self) -> Map<Pos, i64> {
        self.values@
    }

    /// For every score in use, the addresses that have it, oldest first.
    pub closed spec fn buckets(&self) -> Map<i64, Seq<Pos>> {
        self.inner@.map_values(|bucket: Vec<Pos>| bucket@)
    }

    /// The set is usable: its two maps agree.
    pub closed spec fn wf(&self) -> bool {
        in_step(self.scores(), self.buckets())
    }

    /// A set that holds `initial.0` with score `initial.1`.
    pub fn new(initial: (Pos, i64)) -> (set: Self)
        ensures
            set.wf(),
            set.scores() == Map::<Pos, i64>::empty().insert(initial.0, initial.1),
            set.buckets() == Map::<i64, Seq<Pos>>::empty().insert(initial.1, seq![initial.0]),
    {
        let mut values: Table<i64> = new_table();
        assert(values@ =~= Map::<Pos, i64>::empty());
        let mut inner: BTreeMap<i64, Vec<Pos>> = BTreeMap::new();
        proof {
            lemma_score_keys();
        }
        table_insert(&mut values, initial.0, initial.1);
        let mut bucket: Vec<Pos> = Vec::new();
        bucket.push(initial.0);
        inner.insert(initial.1, bucket);
        let set = Self { values, inner };
        proof {
            assert(bucket@ =~= seq![initial.0]);
            assert(set.buckets() =~= Map::<i64, Seq<Pos>>::empty().insert(
                initial.1,
                seq![initial.0],
            ));
            assert(seq![initial.0][0] == initial.0);
        }
        set
    }

    /// Whether the set holds no address.
    pub fn is_empty(&self) -> (empty: bool)
        requires
            self.wf(),
        ensures
            empty == (self.scores() == Map::<Pos, i64>::empty()),
            empty == (self.buckets() == Map::<i64, Seq<Pos>>::empty()),
    {
        let empty = self.inner.is_empty();
        proof {
            if empty {
                assert(self.inner@ =~= Map::<i64, Vec<Pos>>::empty());
                assert(self.buckets() =~= Map::<i64, Seq<Pos>>::empty());
                assert forall|p: Pos| !self.scores().contains_key(p) by {
                    if self.scores().contains_key(p) {
                        assert(self.buckets().contains_key(self.scores()[p]));
                    }
                }
                assert(self.scores() =~= Map::<Pos, i64>::empty());
            } else {
                let s = choose|s: i64| self.inner@.contains_key(s);
                assert(self.buckets().contains_key(s));
                assert(self.scores().contains_key(self.buckets()[s][0]));
            }
        }
        empty
    }

    /// Takes out the address with the lowest score; among several with that
    /// score, the one that has had it longest.
    pub fn pop(&mut self) -> (item: Pos)
        requires
            old(self).wf(),
            old(self).scores() != Map::<Pos, i64>::empty(),
        ensures
            final(self).wf(),
            old(self).scores().contains_key(item),
            is_least(old(self).buckets(), old(self).scores()[item]),
            item == old(self).buckets()[old(self).scores()[item]][0],
            forall|p: Pos| #[trigger]
                old(self).scores().contains_key(p) ==> old(self).scores()[item] <= old(
                    self,
                ).scores()[p],
            final(self).scores() == old(self).scores().remove(item),
            final(self).buckets() == without_item(
                old(self).buckets(),
                old(self).scores()[item],
                item,
            ),
    {
        proof {
            lemma_score_keys();
        }
        let ghost scores = self.scores();
        let ghost buckets = self.buckets();
        let least = first_key(&self.inner);
        proof {
            if least is None {
                assert(self.inner@ =~= Map::<i64, Vec<Pos>>::empty());
                assert(buckets =~= Map::<i64, Seq<Pos>>::empty());
                assert forall|p: Pos| !scores.contains_key(p) by {
                    if scores.contains_key(p) {
                        assert(buckets.contains_key(scores[p]));
                    }
                }
                assert(scores =~= Map::<Pos, i64>::empty());
            }
        }
        let s = match least {
            Some(s) => s,
            None => 0,
        };
        assert(buckets.contains_key(s));
        assert(is_least(buckets, s)) by {
            assert forall|k: i64| buckets.contains_key(k) implies s <= k by {
                assert(self.inner@.contains_key(k));
            }
        }
        let taken = self.inner.remove(&s);
        let mut bucket = match taken {
            Some(bucket) => bucket,
            None => Vec::new(),
        };
        assert(bucket@ == buckets[s]);
        let item = bucket.remove(0);
        proof {
            assert(scores.contains_key(buckets[s][0]));
            lemma_position_of(buckets[s], item);
            assert(position_of(buckets[s], item) == 0);
            lemma_take_out(scores, buckets, item);
        }
        if bucket.len() > 0 {
            self.inner.insert(s, bucket);
        }
        table_remove(&mut self.values, item);
        proof {
            assert(self.buckets() =~= without_item(buckets, s, item));
            assert forall|p: Pos| #[trigger] scores.contains_key(p) implies scores[item]
                <= scores[p] by {
                assert(buckets.contains_key(scores[p]));
            }
        }
        item
    }

    /// Gives `item` the score `cost`, whether or not it is in the set
    /// already. Afterwards it is in the set once, with that score, behind
    /// every address that had the score before.
    pub fn update(&mut self, item: Pos, cost: i64)
        requires
            old(self).wf(),
        ensures
            final(self).wf(),
            final(self).scores() == old(self).scores().insert(item, cost),
            final(self).buckets() == rescored(old(self).scores(), old(self).buckets(), item, cost),
    {
        proof {
            lemma_score_keys();
        }
        let ghost scores = self.scores();
        let ghost buckets = self.buckets();
        match table_get(&self.values, item) {
            Some(prev) => {
                proof {
                    lemma_take_out(scores, buckets, item);
                }
                let taken = self.inner.remove(&prev);
                let mut bucket = match taken {
                    Some(bucket) => bucket,
                    None => Vec::new(),
                };
                assert(bucket@ == buckets[prev]);
                let at = find_in(&bucket, item);
                if at < bucket.len() {
                    bucket.remove(at);
                }
                if bucket.len() > 0 {
                    self.inner.insert(prev, bucket);
                }
                table_remove(&mut self.values, item);
                proof {
                    assert(self.buckets() =~= without_item(buckets, prev, item));
                }
            },
            None => {
                proof {
                    assert(self.values@.remove(item) =~= self.values@);
                }
            },
        }
        let ghost mid_scores = self.scores();
        let ghost mid = self.buckets();
        proof {
            assert(mid_scores =~= scores.remove(item));
            lemma_put_in(mid_scores, mid, item, cost);
        }
        table_insert(&mut self.values, item, cost);
        let taken = self.inner.remove(&cost);
        let mut bucket = match taken {
            Some(bucket) => bucket,
            None => Vec::new(),
        };
        assert(bucket@ =~= bucket_of(mid, cost));
        bucket.push(item);
        self.inner.insert(cost, bucket);
        proof {
            assert(self.buckets() =~= with_item(mid, cost, item));
            assert(self.scores() =~= scores.insert(item, cost));
        }
    }
}

} // verus!
