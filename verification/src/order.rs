//! The order of the references does not decide: whatever it is, the nearest of
//! them hold the same number of frauds, unless a tie leaves the choice between
//! a fraud and another record.
use crate::dataset::Record;
use crate::search::{
    distance, distances, farthest, fraud_count, lemma_farthest, lemma_nearest_are_nearest, nearest,
};
use vstd::prelude::*;

verus! {

/// The number of positions below a limit for which something holds.
spec fn counted(limit: nat, holds: spec_fn(int) -> bool) -> nat
    decreases limit,
{
    if limit == 0 {
        0
    } else {
        counted((limit - 1) as nat, holds) + if holds(limit - 1) {
            1nat
        } else {
            0nat
        }
    }
}

/// The number of records for which something holds.
spec fn satisfying(records: Seq<Record>, holds: spec_fn(Record) -> bool) -> nat
    decreases records.len(),
{
    if records.len() == 0 {
        0
    } else {
        satisfying(records.drop_last(), holds) + if holds(records.last()) {
            1nat
        } else {
            0nat
        }
    }
}

/// Being nearer than a distance.
spec fn nearer(query: Seq<i16>, limit: int) -> spec_fn(Record) -> bool {
    |record: Record| distance(query, record) < limit
}

/// Being within a distance.
spec fn within(query: Seq<i16>, limit: int) -> spec_fn(Record) -> bool {
    |record: Record| distance(query, record) <= limit
}

/// Being nearer than a distance, and fraud.
spec fn nearer_fraud(query: Seq<i16>, limit: int) -> spec_fn(Record) -> bool {
    |record: Record| distance(query, record) < limit && record.fraud
}

/// Being within a distance, and fraud.
spec fn within_fraud(query: Seq<i16>, limit: int) -> spec_fn(Record) -> bool {
    |record: Record| distance(query, record) <= limit && record.fraud
}

/// Being at a distance, and of the other class.
spec fn deviating(query: Seq<i16>, limit: int, fraud: bool) -> spec_fn(Record) -> bool {
    |record: Record| distance(query, record) == limit && record.fraud != fraud
}

/// What holds of more positions has the larger count; `extra` is a position that
/// only the second holds of, if it is one.
proof fn lemma_counted_within(
    limit: nat,
    first: spec_fn(int) -> bool,
    second: spec_fn(int) -> bool,
    extra: int,
)
    requires
        forall|i: int| 0 <= i < limit && #[trigger] first(i) ==> second(i),
    ensures
        counted(limit, first) <= counted(limit, second),
        0 <= extra < limit && second(extra) && !first(extra) ==> counted(limit, first) < counted(
            limit,
            second,
        ),
    decreases limit,
{
    if limit > 0 {
        lemma_counted_within((limit - 1) as nat, first, second, extra);
        assert(first(limit - 1) ==> second(limit - 1));
    }
}

/// What holds of the same positions has the same count.
proof fn lemma_counted_alike(limit: nat, first: spec_fn(int) -> bool, second: spec_fn(int) -> bool)
    requires
        forall|i: int| 0 <= i < limit ==> #[trigger] first(i) == second(i),
    ensures
        counted(limit, first) == counted(limit, second),
    decreases limit,
{
    if limit > 0 {
        lemma_counted_alike((limit - 1) as nat, first, second);
        assert(first(limit - 1) == second(limit - 1));
    }
}

/// One more position makes the count larger by one.
proof fn lemma_counted_one_more(
    limit: nat,
    first: spec_fn(int) -> bool,
    second: spec_fn(int) -> bool,
    extra: int,
)
    requires
        0 <= extra < limit,
        !first(extra) && second(extra),
        forall|i: int| 0 <= i < limit && i != extra ==> #[trigger] first(i) == second(i),
    ensures
        counted(limit, second) == counted(limit, first) + 1,
    decreases limit,
{
    let last = limit - 1;
    if extra == last {
        lemma_counted_alike(last as nat, first, second);
    } else {
        lemma_counted_one_more(last as nat, first, second, extra);
        assert(first(last) == second(last));
    }
}

/// A count is that of the positions of which something else holds too, and that
/// of the others.
proof fn lemma_counted_splits(
    limit: nat,
    all: spec_fn(int) -> bool,
    some: spec_fn(int) -> bool,
    rest: spec_fn(int) -> bool,
)
    requires
        forall|i: int|
            0 <= i < limit ==> #[trigger] all(i) == (some(i) || rest(i)) && !(some(i) && rest(i)),
    ensures
        counted(limit, all) == counted(limit, some) + counted(limit, rest),
    decreases limit,
{
    if limit > 0 {
        lemma_counted_splits((limit - 1) as nat, all, some, rest);
        assert(all(limit - 1) == (some(limit - 1) || rest(limit - 1)));
    }
}

/// Records are counted by their positions.
proof fn lemma_satisfying(records: Seq<Record>, holds: spec_fn(Record) -> bool)
    ensures
        satisfying(records, holds) == counted(records.len(), |i: int| holds(records[i])),
    decreases records.len(),
{
    if records.len() > 0 {
        let shorter = records.drop_last();
        lemma_satisfying(shorter, holds);
        lemma_counted_alike(
            shorter.len(),
            |i: int| holds(shorter[i]),
            |i: int| holds(records[i]),
        );
    }
}

/// Different positions are as many as they are.
proof fn lemma_positions_counted(limit: nat, held: Seq<int>)
    requires
        held.no_duplicates(),
        forall|j: int| 0 <= j < held.len() ==> 0 <= #[trigger] held[j] < limit,
    ensures
        counted(limit, |i: int| held.contains(i)) == held.len(),
    decreases held.len(),
{
    if held.len() > 0 {
        let fewer = held.drop_last();
        lemma_positions_counted(limit, fewer);
        lemma_last_position(held);
        lemma_counted_one_more(
            limit,
            |i: int| fewer.contains(i),
            |i: int| held.contains(i),
            held.last(),
        );
    } else {
        lemma_nothing_counted(limit, |i: int| held.contains(i));
    }
}

/// What holds of no position has the count zero.
proof fn lemma_nothing_counted(limit: nat, holds: spec_fn(int) -> bool)
    requires
        forall|i: int| 0 <= i < limit ==> !#[trigger] holds(i),
    ensures
        counted(limit, holds) == 0,
    decreases limit,
{
    if limit > 0 {
        lemma_nothing_counted((limit - 1) as nat, holds);
        assert(!holds(limit - 1));
    }
}

/// Of different positions, all but the last are those before it.
proof fn lemma_last_position(held: Seq<int>)
    requires
        held.len() > 0,
        held.no_duplicates(),
    ensures
        !held.drop_last().contains(held.last()),
        held.contains(held.last()),
        forall|i: int|
            i != held.last() ==> #[trigger] held.contains(i) == held.drop_last().contains(i),
{
    let fewer = held.drop_last();
    assert(held[held.len() - 1] == held.last());
    assert forall|i: int| i != held.last() implies #[trigger] held.contains(i) == fewer.contains(
        i,
    ) by {
        if held.contains(i) {
            let at = choose|at: int| 0 <= at < held.len() && held[at] == i;
            assert(fewer[at] == i);
        }
        if fewer.contains(i) {
            let at = choose|at: int| 0 <= at < fewer.len() && fewer[at] == i;
            assert(held[at] == i);
        }
    }
}

/// The frauds among the records at different positions are counted by position.
proof fn lemma_frauds_counted(records: Seq<Record>, held: Seq<int>)
    requires
        held.no_duplicates(),
        forall|j: int| 0 <= j < held.len() ==> 0 <= #[trigger] held[j] < records.len(),
    ensures
        fraud_count(records, held) == counted(
            records.len(),
            |i: int| held.contains(i) && records[i].fraud,
        ),
    decreases held.len(),
{
    let among = |i: int| held.contains(i) && records[i].fraud;
    if held.len() > 0 {
        let fewer = held.drop_last();
        let before = |i: int| fewer.contains(i) && records[i].fraud;
        lemma_frauds_counted(records, fewer);
        lemma_last_position(held);
        assert forall|i: int| i != held.last() implies #[trigger] before(i) == among(i) by {
            assert(held.contains(i) == fewer.contains(i));
        }
        if records[held.last()].fraud {
            lemma_counted_one_more(records.len(), before, among, held.last());
        } else {
            lemma_counted_alike(records.len(), before, among);
        }
    } else {
        lemma_nothing_counted(records.len(), among);
    }
}

/// Taking a record out takes it out of the count.
proof fn lemma_record_removed(records: Seq<Record>, at: int, holds: spec_fn(Record) -> bool)
    requires
        0 <= at < records.len(),
    ensures
        satisfying(records, holds) == satisfying(records.remove(at), holds) + if holds(
            records[at],
        ) {
            1nat
        } else {
            0nat
        },
    decreases records.len(),
{
    let removed = records.remove(at);
    if at == records.len() - 1 {
        assert(removed =~= records.drop_last());
    } else {
        lemma_record_removed(records.drop_last(), at, holds);
        assert(removed.drop_last() =~= records.drop_last().remove(at));
        assert(removed.last() == records.last());
    }
}

/// The count of records does not depend on their order.
proof fn lemma_order_keeps_counts(a: Seq<Record>, b: Seq<Record>, holds: spec_fn(Record) -> bool)
    requires
        a.to_multiset() == b.to_multiset(),
    ensures
        satisfying(a, holds) == satisfying(b, holds),
    decreases a.len(),
{
    a.to_multiset_ensures();
    b.to_multiset_ensures();
    if a.len() > 0 {
        let record = a.last();
        assert(a[a.len() - 1] == record);
        assert(a.contains(record));
        assert(b.to_multiset().count(record) > 0);
        assert(b.contains(record));
        let at = choose|at: int| 0 <= at < b.len() && b[at] == record;
        assert(a.drop_last() =~= a.remove(a.len() - 1));
        assert(b.remove(at).to_multiset() == b.to_multiset().remove(record));
        lemma_order_keeps_counts(a.drop_last(), b.remove(at), holds);
        lemma_record_removed(b, at, holds);
    }
}

/// The places hold every record that is nearer than the limit, and none beyond it.
proof fn lemma_limit_divides(records: Seq<Record>, query: Seq<i16>, limit: int)
    requires
        ({
            let places = nearest(records, query, records.len()).len();
            satisfying(records, nearer(query, limit)) < places <= satisfying(
                records,
                within(query, limit),
            )
        }),
    ensures
        ({
            let held = nearest(records, query, records.len());
            forall|i: int|
                0 <= i < records.len() ==> (distance(query, records[i]) < limit ==> #[trigger]
                held.contains(i)) && (held.contains(i) ==> distance(query, records[i]) <= limit)
        }),
{
    let count = records.len();
    let held = nearest(records, query, count);
    let holding = |i: int| held.contains(i);
    let near = |i: int| nearer(query, limit)(records[i]);
    let close = |i: int| within(query, limit)(records[i]);
    lemma_nearest_are_nearest(records, query, count);
    lemma_positions_counted(count, held);
    lemma_satisfying(records, nearer(query, limit));
    lemma_satisfying(records, within(query, limit));
    assert forall|i: int| 0 <= i < count implies (distance(query, records[i]) < limit
        ==> #[trigger] held.contains(i)) && (held.contains(i) ==> distance(query, records[i])
        <= limit) by {
        if distance(query, records[i]) < limit && !held.contains(i) {
            assert forall|x: int| 0 <= x < count && #[trigger] holding(x) implies near(x) by {
                let j = choose|j: int| 0 <= j < held.len() && held[j] == x;
                assert(distance(query, records[held[j]]) <= distance(query, records[i]));
            }
            lemma_counted_within(count, holding, near, i);
        }
        if held.contains(i) && distance(query, records[i]) > limit {
            let j = choose|j: int| 0 <= j < held.len() && held[j] == i;
            assert forall|x: int| 0 <= x < count && #[trigger] close(x) implies holding(x) by {
                if !held.contains(x) {
                    assert(distance(query, records[held[j]]) <= distance(query, records[x]));
                }
            }
            lemma_counted_within(count, close, holding, i);
        }
    }
}

/// How many frauds the places hold, by counts of records alone.
proof fn lemma_frauds_by_distance(records: Seq<Record>, query: Seq<i16>, limit: int, fraud: bool)
    requires
        ({
            let places = nearest(records, query, records.len()).len();
            &&& satisfying(records, nearer(query, limit)) < places
            &&& places <= satisfying(records, within(query, limit))
            &&& places == satisfying(records, within(query, limit)) || satisfying(
                records,
                deviating(query, limit, fraud),
            ) == 0
        }),
    ensures
        ({
            let held = nearest(records, query, records.len());
            fraud_count(records, held) == if held.len() == satisfying(
                records,
                within(query, limit),
            ) {
                satisfying(records, within_fraud(query, limit)) as int
            } else if fraud {
                satisfying(records, nearer_fraud(query, limit)) + held.len() - satisfying(
                    records,
                    nearer(query, limit),
                )
            } else {
                satisfying(records, nearer_fraud(query, limit)) as int
            }
        }),
{
    let count = records.len();
    let held = nearest(records, query, count);
    let holding = |i: int| held.contains(i);
    let among = |i: int| held.contains(i) && records[i].fraud;
    let near = |i: int| nearer(query, limit)(records[i]);
    let close = |i: int| within(query, limit)(records[i]);
    let near_fraud = |i: int| nearer_fraud(query, limit)(records[i]);
    let close_fraud = |i: int| within_fraud(query, limit)(records[i]);
    let odd = |i: int| deviating(query, limit, fraud)(records[i]);
    lemma_nearest_are_nearest(records, query, count);
    lemma_limit_divides(records, query, limit);
    lemma_positions_counted(count, held);
    lemma_frauds_counted(records, held);
    lemma_satisfying(records, nearer(query, limit));
    lemma_satisfying(records, within(query, limit));
    lemma_satisfying(records, nearer_fraud(query, limit));
    lemma_satisfying(records, within_fraud(query, limit));
    lemma_satisfying(records, deviating(query, limit, fraud));
    assert forall|i: int| 0 <= i < count && #[trigger] near(i) implies holding(i) by {
        assert(near(i) ==> held.contains(i));
    }
    assert forall|i: int| 0 <= i < count && #[trigger] holding(i) implies close(i) by {
        assert(held.contains(i) ==> close(i));
    }
    if held.len() == satisfying(records, within(query, limit)) {
        assert forall|i: int| 0 <= i < count implies #[trigger] among(i) == close_fraud(i) by {
            lemma_counted_within(count, holding, close, i);
            assert(holding(i) == close(i));
        }
        lemma_counted_alike(count, among, close_fraud);
    } else {
        assert forall|i: int| 0 <= i < count implies !#[trigger] odd(i) by {
            lemma_counted_within(count, |x: int| false, odd, i);
        }
        let at_limit = |i: int| held.contains(i) && !near(i);
        if fraud {
            assert forall|i: int| 0 <= i < count implies #[trigger] among(i) == (near_fraud(i)
                || at_limit(i)) && !(near_fraud(i) && at_limit(i)) by {
                assert(!odd(i));
                assert(near(i) ==> holding(i));
                assert(holding(i) ==> close(i));
            }
            lemma_counted_splits(count, among, near_fraud, at_limit);
            assert forall|i: int| 0 <= i < count implies #[trigger] holding(i) == (near(i)
                || at_limit(i)) && !(near(i) && at_limit(i)) by {
                assert(near(i) ==> holding(i));
            }
            lemma_counted_splits(count, holding, near, at_limit);
        } else {
            assert forall|i: int| 0 <= i < count implies #[trigger] among(i) == near_fraud(i) by {
                assert(!odd(i));
                assert(near(i) ==> holding(i));
                assert(holding(i) ==> close(i));
            }
            lemma_counted_alike(count, among, near_fraud);
        }
    }
}

/// Whether no tie decides: a record that is left out is as far off as one that
/// is held only where both are fraud or neither is.
pub open spec fn no_tie_decides(records: Seq<Record>, query: Seq<i16>) -> bool {
    let held = nearest(records, query, records.len());
    forall|i: int, j: int|
        #![trigger records[i], held[j]]
        0 <= i < records.len() && !held.contains(i) && 0 <= j < held.len() && distance(
            query,
            records[i],
        ) == distance(query, records[held[j]]) ==> records[i].fraud == records[held[j]].fraud
}

/// The distance of the farthest record held, and what the counts say of it.
proof fn lemma_limit(records: Seq<Record>, query: Seq<i16>) -> (limit: (int, bool))
    requires
        records.len() > 0,
        no_tie_decides(records, query),
    ensures
        ({
            let places = nearest(records, query, records.len()).len();
            &&& satisfying(records, nearer(query, limit.0)) < places
            &&& places <= satisfying(records, within(query, limit.0))
            &&& places == satisfying(records, within(query, limit.0)) || satisfying(
                records,
                deviating(query, limit.0, limit.1),
            ) == 0
        }),
{
    let count = records.len();
    let held = nearest(records, query, count);
    lemma_nearest_are_nearest(records, query, count);
    lemma_positions_counted(count, held);
    let values = distances(records, query, held);
    lemma_farthest(values);
    let worst = farthest(values);
    let limit = values[worst];
    let fraud = records[held[worst]].fraud;
    let holding = |i: int| held.contains(i);
    let near = |i: int| nearer(query, limit)(records[i]);
    let close = |i: int| within(query, limit)(records[i]);
    let odd = |i: int| deviating(query, limit, fraud)(records[i]);
    lemma_satisfying(records, nearer(query, limit));
    lemma_satisfying(records, within(query, limit));
    lemma_satisfying(records, deviating(query, limit, fraud));
    assert(held.contains(held[worst]));
    assert forall|i: int| 0 <= i < count && #[trigger] near(i) implies holding(i) by {
        if !held.contains(i) {
            assert(distance(query, records[held[worst]]) <= distance(query, records[i]));
        }
    }
    lemma_counted_within(count, near, holding, held[worst]);
    assert forall|i: int| 0 <= i < count && #[trigger] holding(i) implies close(i) by {
        let j = choose|j: int| 0 <= j < held.len() && held[j] == i;
        assert(values[j] <= values[worst]);
    }
    lemma_counted_within(count, holding, close, 0);
    if held.len() != satisfying(records, within(query, limit)) {
        if forall|i: int| 0 <= i < count && #[trigger] close(i) ==> holding(i) {
            lemma_counted_within(count, close, holding, 0);
        }
        let left = choose|i: int| 0 <= i < count && #[trigger] close(i) && !holding(i);
        assert(distance(query, records[held[worst]]) <= distance(query, records[left]));
        assert(records[left].fraud == fraud);
        assert forall|i: int| 0 <= i < count implies !#[trigger] odd(i) by {
            if distance(query, records[i]) == limit {
                if held.contains(i) {
                    let j = choose|j: int| 0 <= j < held.len() && held[j] == i;
                    assert(records[left].fraud == records[held[j]].fraud);
                } else {
                    assert(records[i].fraud == records[held[worst]].fraud);
                }
            }
        }
        lemma_nothing_counted(count, odd);
    }
    (limit, fraud)
}

/// The same records in another order have as many frauds among the nearest,
/// unless a tie decides between a fraud and another record.
pub proof fn lemma_order_does_not_decide(a: Seq<Record>, b: Seq<Record>, query: Seq<i16>)
    requires
        a.to_multiset() == b.to_multiset(),
        no_tie_decides(a, query),
    ensures
        fraud_count(a, nearest(a, query, a.len())) == fraud_count(b, nearest(b, query, b.len())),
{
    a.to_multiset_ensures();
    b.to_multiset_ensures();
    lemma_nearest_are_nearest(a, query, a.len());
    lemma_nearest_are_nearest(b, query, b.len());
    if a.len() > 0 {
        let (limit, fraud) = lemma_limit(a, query);
        lemma_order_keeps_counts(a, b, nearer(query, limit));
        lemma_order_keeps_counts(a, b, within(query, limit));
        lemma_order_keeps_counts(a, b, nearer_fraud(query, limit));
        lemma_order_keeps_counts(a, b, within_fraud(query, limit));
        lemma_order_keeps_counts(a, b, deviating(query, limit, fraud));
        lemma_frauds_by_distance(a, query, limit, fraud);
        lemma_frauds_by_distance(b, query, limit, fraud);
    }
}

/// The same positions in another order hold the same frauds.
pub proof fn lemma_same_positions_same_frauds(records: Seq<Record>, a: Seq<int>, b: Seq<int>)
    requires
        a.no_duplicates(),
        b.no_duplicates(),
        a.to_set() == b.to_set(),
        forall|j: int| 0 <= j < a.len() ==> 0 <= #[trigger] a[j] < records.len(),
        forall|j: int| 0 <= j < b.len() ==> 0 <= #[trigger] b[j] < records.len(),
    ensures
        fraud_count(records, a) == fraud_count(records, b),
{
    lemma_frauds_counted(records, a);
    lemma_frauds_counted(records, b);
    let first = |i: int| a.contains(i) && records[i].fraud;
    let second = |i: int| b.contains(i) && records[i].fraud;
    assert forall|i: int| 0 <= i < records.len() implies #[trigger] first(i) == second(i) by {
        assert(a.to_set().contains(i) == b.to_set().contains(i));
        assert(a.to_set().contains(i) == a.contains(i));
        assert(b.to_set().contains(i) == b.contains(i));
    }
    lemma_counted_alike(records.len(), first, second);
}

} // verus!
