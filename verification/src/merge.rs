//! Merge of several time-ordered sources of wire events into one stream
//! that is ordered in time.

use crate::gen::WireEvent;
use vstd::multiset::Multiset;
use vstd::prelude::*;

verus! {

/// The number of events that the sources still hold.
pub open spec fn pending(sources: Seq<Seq<WireEvent>>) -> nat
    decreases sources.len(),
{
    if sources.len() == 0 {
        0
    } else {
        pending(sources.drop_last()) + sources.last().len()
    }
}

/// Whether source `i` is the one to pull from among the first `n` sources:
/// its next event is no later than the next event of any other source, and
/// strictly earlier than that of any source registered before it. A negative
/// `i` stands for "none": all of the first `n` sources are exhausted.
pub open spec fn is_earliest(sources: Seq<Seq<WireEvent>>, n: int, i: int) -> bool {
    if i < 0 {
        forall|k: int| 0 <= k < n ==> (#[trigger] sources[k]).len() == 0
    } else {
        &&& i < n
        &&& sources[i].len() > 0
        &&& forall|k: int|
            0 <= k < n && (#[trigger] sources[k]).len() > 0 ==> {
                &&& sources[i][0].time <= sources[k][0].time
                &&& k < i ==> sources[i][0].time < sources[k][0].time
            }
    }
}

/// The source to pull from among the first `n` sources, found by going
/// through them in the order of registration.
pub open spec fn earliest_among(sources: Seq<Seq<WireEvent>>, n: int) -> int
    decreases n,
{
    if n <= 0 {
        -1
    } else {
        let best = earliest_among(sources, n - 1);
        if sources[n - 1].len() == 0 {
            best
        } else if best < 0 || sources[n - 1][0].time < sources[best][0].time {
            n - 1
        } else {
            best
        }
    }
}

/// The source to pull from: the first one whose next event has the least
/// time. Negative when every source is exhausted.
pub open spec fn earliest(sources: Seq<Seq<WireEvent>>) -> int {
    earliest_among(sources, sources.len() as int)
}

/// The sources after the next event of source `i` has been pulled.
pub open spec fn pulled(sources: Seq<Seq<WireEvent>>, i: int) -> Seq<Seq<WireEvent>> {
    sources.update(i, sources[i].drop_first())
}

/// The merged stream: the events of all sources in the order in which they
/// are pulled.
pub open spec fn merged(sources: Seq<Seq<WireEvent>>) -> Seq<WireEvent>
    decreases pending(sources),
    via merged_terminates
{
    let i = earliest(sources);
    if i < 0 {
        Seq::empty()
    } else {
        seq![sources[i][0]] + merged(pulled(sources, i))
    }
}

#[via_fn]
proof fn merged_terminates(sources: Seq<Seq<WireEvent>>) {
    let i = earliest(sources);
    if i >= 0 {
        lemma_earliest(sources, sources.len() as int);
        lemma_pending_update(sources, i, sources[i].drop_first());
    }
}

/// The source that each event of the merged stream was pulled from.
pub open spec fn merge_order(sources: Seq<Seq<WireEvent>>) -> Seq<int>
    decreases pending(sources),
    via merge_order_terminates
{
    let i = earliest(sources);
    if i < 0 {
        Seq::empty()
    } else {
        seq![i] + merge_order(pulled(sources, i))
    }
}

#[via_fn]
proof fn merge_order_terminates(sources: Seq<Seq<WireEvent>>) {
    let i = earliest(sources);
    if i >= 0 {
        lemma_earliest(sources, sources.len() as int);
        lemma_pending_update(sources, i, sources[i].drop_first());
    }
}

/// The events of `events` that `order` attributes to `source`, in the order
/// in which they stand in `events`.
pub open spec fn taken_from(events: Seq<WireEvent>, order: Seq<int>, source: int) -> Seq<WireEvent>
    decreases events.len(),
{
    if events.len() == 0 || order.len() == 0 {
        Seq::empty()
    } else {
        let rest = taken_from(events.drop_first(), order.drop_first(), source);
        if order[0] == source {
            seq![events[0]] + rest
        } else {
            rest
        }
    }
}

/// Whether the events do not go back in time.
pub open spec fn ordered(events: Seq<WireEvent>) -> bool {
    forall|i: int, j: int| 0 <= i <= j < events.len() ==> events[i].time <= events[j].time
}

/// What `earliest_among` finds is the earliest source.
pub proof fn lemma_earliest(sources: Seq<Seq<WireEvent>>, n: int)
    requires
        0 <= n <= sources.len(),
    ensures
        is_earliest(sources, n, earliest_among(sources, n)),
        earliest_among(sources, n) >= -1,
    decreases n,
{
    if n > 0 {
        lemma_earliest(sources, n - 1);
    }
}

/// There is only one earliest source.
pub proof fn lemma_earliest_unique(sources: Seq<Seq<WireEvent>>, n: int, i: int)
    requires
        0 <= n <= sources.len(),
        i >= -1,
        is_earliest(sources, n, i),
    ensures
        earliest_among(sources, n) == i,
{
    lemma_earliest(sources, n);
    let j = earliest_among(sources, n);
    if i >= 0 {
        assert(sources[i].len() > 0);
        assert(j >= 0);
        assert(sources[j].len() > 0);
    } else if j >= 0 {
        assert(sources[j].len() > 0);
    }
}

proof fn lemma_pending_update(sources: Seq<Seq<WireEvent>>, i: int, events: Seq<WireEvent>)
    requires
        0 <= i < sources.len(),
    ensures
        pending(sources.update(i, events)) == pending(sources) - sources[i].len() + events.len(),
    decreases sources.len(),
{
    let last = sources.len() - 1;
    if i == last {
        assert(sources.update(i, events).drop_last() =~= sources.drop_last());
    } else {
        lemma_pending_update(sources.drop_last(), i, events);
        assert(sources.update(i, events).drop_last() =~= sources.drop_last().update(i, events));
    }
}

/// An exhausted source can be dropped without changing the merged stream.
pub proof fn lemma_merged_without_exhausted(sources: Seq<Seq<WireEvent>>, i: int)
    requires
        0 <= i < sources.len(),
        sources[i].len() == 0,
    ensures
        merged(sources.remove(i)) == merged(sources),
    decreases pending(sources),
{
    let rest = sources.remove(i);
    let j = earliest(sources);
    lemma_earliest(sources, sources.len() as int);
    if j < 0 {
        assert(is_earliest(rest, rest.len() as int, -1));
        lemma_earliest_unique(rest, rest.len() as int, -1);
    } else {
        let j_rest = if j < i {
            j
        } else {
            j - 1
        };
        assert(is_earliest(rest, rest.len() as int, j_rest)) by {
            assert forall|k: int| 0 <= k < rest.len() && (#[trigger] rest[k]).len() > 0 implies {
                &&& rest[j_rest][0].time <= rest[k][0].time
                &&& k < j_rest ==> rest[j_rest][0].time < rest[k][0].time
            } by {
                let k_all = if k < i {
                    k
                } else {
                    k + 1
                };
                assert(rest[k] == sources[k_all]);
            }
        }
        lemma_earliest_unique(rest, rest.len() as int, j_rest);
        lemma_pending_update(sources, j, sources[j].drop_first());
        assert(pulled(rest, j_rest) =~= pulled(sources, j).remove(i));
        lemma_merged_without_exhausted(pulled(sources, j), i);
    }
}

/// No event of the merged stream is earlier than a time that no event of
/// any source is earlier than.
proof fn lemma_merged_not_before(sources: Seq<Seq<WireEvent>>, time: int)
    requires
        forall|s: int, k: int|
            0 <= s < sources.len() && 0 <= k < sources[s].len() ==> time <= (
            #[trigger] sources[s][k]).time,
    ensures
        forall|k: int| 0 <= k < merged(sources).len() ==> time <= (#[trigger] merged(sources)[k]).time,
    decreases pending(sources),
{
    let i = earliest(sources);
    lemma_earliest(sources, sources.len() as int);
    if i >= 0 {
        let rest = pulled(sources, i);
        lemma_pending_update(sources, i, sources[i].drop_first());
        assert forall|s: int, k: int| 0 <= s < rest.len() && 0 <= k < rest[s].len() implies time <= (
        #[trigger] rest[s][k]).time by {
            if s == i {
                assert(rest[s][k] == sources[s][k + 1]);
            } else {
                assert(rest[s][k] == sources[s][k]);
            }
        }
        lemma_merged_not_before(rest, time);
        assert forall|k: int| 0 <= k < merged(sources).len() implies time <= (#[trigger] merged(
            sources,
        )[k]).time by {
            if k > 0 {
                assert(merged(sources)[k] == merged(rest)[k - 1]);
            } else {
                assert(merged(sources)[0] == sources[i][0]);
            }
        }
    }
}

/// Merge ordering: if no source goes back in time, the merged stream does
/// not go back in time.
pub proof fn lemma_merged_ordered(sources: Seq<Seq<WireEvent>>)
    requires
        forall|s: int| 0 <= s < sources.len() ==> ordered(#[trigger] sources[s]),
    ensures
        ordered(merged(sources)),
    decreases pending(sources),
{
    let i = earliest(sources);
    lemma_earliest(sources, sources.len() as int);
    if i >= 0 {
        let rest = pulled(sources, i);
        let first = sources[i][0];
        lemma_pending_update(sources, i, sources[i].drop_first());
        assert forall|s: int| 0 <= s < rest.len() implies ordered(#[trigger] rest[s]) by {
            assert(ordered(sources[s]));
            if s == i {
                assert forall|a: int, b: int| 0 <= a <= b < rest[s].len() implies rest[s][a].time
                    <= rest[s][b].time by {
                    assert(rest[s][a] == sources[s][a + 1]);
                    assert(rest[s][b] == sources[s][b + 1]);
                }
            }
        }
        lemma_merged_ordered(rest);
        assert forall|s: int, k: int| 0 <= s < rest.len() && 0 <= k < rest[s].len() implies first.time
            <= (#[trigger] rest[s][k]).time by {
            assert(ordered(sources[s]));
            if s == i {
                assert(rest[s][k] == sources[s][k + 1]);
            } else {
                assert(rest[s][k] == sources[s][k]);
                assert(sources[s].len() > 0);
                assert(first.time <= sources[s][0].time);
            }
        }
        lemma_merged_not_before(rest, first.time as int);
        assert forall|a: int, b: int| 0 <= a <= b < merged(sources).len() implies merged(
            sources,
        )[a].time <= merged(sources)[b].time by {
            if a > 0 {
                assert(merged(sources)[a] == merged(rest)[a - 1]);
                assert(merged(sources)[b] == merged(rest)[b - 1]);
            } else if b > 0 {
                assert(merged(sources)[b] == merged(rest)[b - 1]);
            }
        }
    }
}

/// Merge stability: the merged stream holds every event of every source
/// once and nothing else, and the events of one source stand in it in the
/// order in which the source gave them. Put otherwise: each event of the
/// merged stream is attributed to a source, and the events attributed to a
/// source are that source.
pub proof fn lemma_merged_interleaves(sources: Seq<Seq<WireEvent>>)
    ensures
        merged(sources).len() == pending(sources),
        merge_order(sources).len() == merged(sources).len(),
        forall|k: int|
            0 <= k < merge_order(sources).len() ==> 0 <= (#[trigger] merge_order(sources)[k])
                < sources.len(),
        forall|s: int|
            0 <= s < sources.len() ==> #[trigger] taken_from(
                merged(sources),
                merge_order(sources),
                s,
            ) == sources[s],
    decreases pending(sources),
{
    let i = earliest(sources);
    lemma_earliest(sources, sources.len() as int);
    if i < 0 {
        lemma_pending_exhausted(sources);
        assert forall|s: int| 0 <= s < sources.len() implies #[trigger] taken_from(
            merged(sources),
            merge_order(sources),
            s,
        ) == sources[s] by {
            assert(sources[s].len() == 0);
            assert(sources[s] =~= Seq::<WireEvent>::empty());
        }
    } else {
        let rest = pulled(sources, i);
        lemma_pending_update(sources, i, sources[i].drop_first());
        lemma_merged_interleaves(rest);
        assert(merged(sources).drop_first() =~= merged(rest));
        assert(merge_order(sources).drop_first() =~= merge_order(rest));
        assert forall|k: int| 0 <= k < merge_order(sources).len() implies 0 <= (
        #[trigger] merge_order(sources)[k]) < sources.len() by {
            if k > 0 {
                assert(merge_order(sources)[k] == merge_order(rest)[k - 1]);
            }
        }
        assert forall|s: int| 0 <= s < sources.len() implies #[trigger] taken_from(
            merged(sources),
            merge_order(sources),
            s,
        ) == sources[s] by {
            assert(taken_from(merged(rest), merge_order(rest), s) == rest[s]);
            if s == i {
                assert(seq![sources[i][0]] + sources[i].drop_first() =~= sources[i]);
            }
        }
    }
}

proof fn lemma_pending_exhausted(sources: Seq<Seq<WireEvent>>)
    requires
        forall|k: int| 0 <= k < sources.len() ==> (#[trigger] sources[k]).len() == 0,
    ensures
        pending(sources) == 0,
    decreases sources.len(),
{
    if sources.len() > 0 {
        assert(sources.last().len() == 0);
        assert forall|k: int| 0 <= k < sources.drop_last().len() implies (
        #[trigger] sources.drop_last()[k]).len() == 0 by {
            assert(sources.drop_last()[k] == sources[k]);
        }
        lemma_pending_exhausted(sources.drop_last());
    }
}

/// The events of all sources, each as often as the sources hold it.
pub open spec fn all_events(sources: Seq<Seq<WireEvent>>) -> Multiset<WireEvent>
    decreases sources.len(),
{
    if sources.len() == 0 {
        Multiset::empty()
    } else {
        all_events(sources.drop_last()).add(sources.last().to_multiset())
    }
}

proof fn lemma_all_events_update(sources: Seq<Seq<WireEvent>>, i: int, events: Seq<WireEvent>)
    requires
        0 <= i < sources.len(),
    ensures
        all_events(sources.update(i, events)).add(sources[i].to_multiset()) == all_events(
            sources,
        ).add(events.to_multiset()),
    decreases sources.len(),
{
    broadcast use vstd::multiset::group_multiset_axioms;

    let last = sources.len() - 1;
    let updated = sources.update(i, events);
    let front = all_events(sources.drop_last());
    assert(all_events(sources) == front.add(sources.last().to_multiset()));
    assert(all_events(updated) == all_events(updated.drop_last()).add(
        updated.last().to_multiset(),
    ));
    if i == last {
        assert(updated.drop_last() =~= sources.drop_last());
        assert(updated.last() == events);
    } else {
        lemma_all_events_update(sources.drop_last(), i, events);
        assert(updated.drop_last() =~= sources.drop_last().update(i, events));
        assert(updated.last() == sources.last());
        assert(sources.drop_last()[i] == sources[i]);
    }
    let before = all_events(updated).add(sources[i].to_multiset());
    let after = all_events(sources).add(events.to_multiset());
    assert forall|e: WireEvent| before.count(e) == after.count(e) by {
        if i != last {
            let inner_before = all_events(sources.drop_last().update(i, events)).add(
                sources[i].to_multiset(),
            );
            let inner_after = front.add(events.to_multiset());
            assert(inner_before.count(e) == inner_after.count(e));
        }
    }
    assert(before =~= after);
}

proof fn lemma_all_events_exhausted(sources: Seq<Seq<WireEvent>>)
    requires
        forall|k: int| 0 <= k < sources.len() ==> (#[trigger] sources[k]).len() == 0,
    ensures
        all_events(sources) == Multiset::<WireEvent>::empty(),
    decreases sources.len(),
{
    broadcast use vstd::seq_lib::group_to_multiset_ensures;

    if sources.len() > 0 {
        assert(sources.last().len() == 0);
        assert(sources.last().to_multiset().len() == 0);
        assert forall|k: int| 0 <= k < sources.drop_last().len() implies (
        #[trigger] sources.drop_last()[k]).len() == 0 by {
            assert(sources.drop_last()[k] == sources[k]);
        }
        lemma_all_events_exhausted(sources.drop_last());
        assert(all_events(sources) =~= Multiset::<WireEvent>::empty());
    }
}

proof fn lemma_first_and_rest(events: Seq<WireEvent>)
    requires
        events.len() > 0,
    ensures
        events.to_multiset() == events.drop_first().to_multiset().insert(events[0]),
{
    broadcast use vstd::seq_lib::group_to_multiset_ensures;

    assert(events.remove(0) =~= events.drop_first());
    assert(events.contains(events[0]));
    assert(events.to_multiset() =~= events.drop_first().to_multiset().insert(events[0]));
}

/// Merge permutation: the merged stream holds the events of the sources,
/// each as often as the sources hold it, and nothing else.
pub proof fn lemma_merged_permutes(sources: Seq<Seq<WireEvent>>)
    ensures
        merged(sources).to_multiset() == all_events(sources),
    decreases pending(sources),
{
    broadcast use {vstd::seq_lib::group_to_multiset_ensures, vstd::multiset::group_multiset_axioms};

    let i = earliest(sources);
    lemma_earliest(sources, sources.len() as int);
    if i < 0 {
        lemma_all_events_exhausted(sources);
        assert(merged(sources).to_multiset().len() == 0);
        assert(merged(sources).to_multiset() =~= Multiset::<WireEvent>::empty());
    } else {
        let rest = pulled(sources, i);
        let first = sources[i][0];
        lemma_pending_update(sources, i, sources[i].drop_first());
        lemma_merged_permutes(rest);
        lemma_all_events_update(sources, i, sources[i].drop_first());
        lemma_first_and_rest(sources[i]);
        lemma_first_and_rest(merged(sources));
        assert(merged(sources).drop_first() =~= merged(rest));
        assert(merged(sources)[0] == first);
        let tail = sources[i].drop_first().to_multiset();
        let with_source = all_events(rest).add(sources[i].to_multiset());
        let with_tail = all_events(sources).add(tail);
        assert forall|e: WireEvent| merged(sources).to_multiset().count(e) == all_events(
            sources,
        ).count(e) by {
            assert(with_source.count(e) == with_tail.count(e));
            assert(sources[i].to_multiset().count(e) == tail.insert(first).count(e));
            assert(merged(sources).to_multiset().count(e) == all_events(rest).insert(first).count(
                e,
            ));
        }
        assert(merged(sources).to_multiset() =~= all_events(sources));
    }
}

/// Whether event `i` comes first among the next events of the sources: it
/// is no later than any of them, and strictly earlier than those before it.
pub open spec fn comes_first(heads: Seq<WireEvent>, i: int) -> bool {
    &&& 0 <= i < heads.len()
    &&& forall|k: int|
        0 <= k < heads.len() ==> {
            &&& heads[i].time <= (#[trigger] heads[k]).time
            &&& k < i ==> heads[i].time < heads[k].time
        }
}

/// The source whose next event comes first is the earliest source.
pub proof fn lemma_earliest_from_heads(sources: Seq<Seq<WireEvent>>, heads: Seq<WireEvent>, i: int)
    requires
        heads.len() == sources.len(),
        forall|k: int|
            0 <= k < sources.len() ==> (#[trigger] sources[k]).len() > 0 && sources[k][0]
                == heads[k],
        comes_first(heads, i),
    ensures
        earliest(sources) == i,
{
    assert(is_earliest(sources, sources.len() as int, i)) by {
        assert forall|k: int| 0 <= k < sources.len() && (#[trigger] sources[k]).len() > 0 implies {
            &&& sources[i][0].time <= sources[k][0].time
            &&& k < i ==> sources[i][0].time < sources[k][0].time
        } by {
            assert(heads[k].time >= heads[i].time);
        }
    }
    lemma_earliest_unique(sources, sources.len() as int, i);
}

/// Whether the events do not go back in time.
pub fn is_ordered(events: &[WireEvent]) -> (in_order: bool)
    ensures
        in_order == ordered(events@),
{
    if events.len() == 0 {
        return true;
    }
    let mut n: usize = 1;
    while n < events.len()
        invariant
            1 <= n <= events@.len(),
            ordered(events@.take(n as int)),
        decreases events@.len() - n,
    {
        if events[n].time < events[n - 1].time {
            assert(!ordered(events@)) by {
                assert(events@[n - 1].time > events@[n as int].time);
            }
            return false;
        }
        proof {
            let seen = events@.take(n as int);
            let more = events@.take(n + 1);
            assert forall|i: int, j: int| 0 <= i <= j < more.len() implies more[i].time
                <= more[j].time by {
                if j < n {
                    assert(seen[i].time <= seen[j].time);
                } else if i < n {
                    assert(seen[i].time <= seen[n - 1].time);
                }
            }
        }
        n += 1;
    }
    assert(events@.take(n as int) =~= events@);
    true
}

/// Picks the source to pull from, given the next event of each source in
/// the order of registration: the one whose event has the least time, and
/// of several such the one that was registered first.
pub fn select(heads: &[WireEvent]) -> (choice: Option<usize>)
    ensures
        match choice {
            None => heads@.len() == 0,
            Some(i) => comes_first(heads@, i as int),
        },
{
    if heads.len() == 0 {
        return None;
    }
    let mut best: usize = 0;
    let mut n: usize = 1;
    while n < heads.len()
        invariant
            1 <= n <= heads@.len(),
            best < n,
            comes_first(heads@.take(n as int), best as int),
        decreases heads@.len() - n,
    {
        let ghost seen = heads@.take(n as int);
        let ghost more = heads@.take(n + 1);
        if heads[n].time < heads[best].time {
            proof {
                assert forall|k: int| 0 <= k < more.len() implies {
                    &&& more[n as int].time <= (#[trigger] more[k]).time
                    &&& k < n ==> more[n as int].time < more[k].time
                } by {
                    if k < n {
                        assert(seen[k] == more[k]);
                        assert(seen[best as int].time <= seen[k].time);
                    }
                }
            }
            best = n;
        } else {
            proof {
                assert forall|k: int| 0 <= k < more.len() implies {
                    &&& more[best as int].time <= (#[trigger] more[k]).time
                    &&& k < best ==> more[best as int].time < more[k].time
                } by {
                    if k < n {
                        assert(seen[k] == more[k]);
                        assert(seen[best as int].time <= seen[k].time);
                    }
                }
            }
        }
        n += 1;
    }
    assert(heads@.take(n as int) =~= heads@);
    Some(best)
}

/// A source behind its next event: the events that come after that one.
#[derive(Debug)]
struct Cursor {
    events: Vec<WireEvent>,
    next: usize,
}

/// The merge scheduler. It holds the sources that still have events, in
/// the order in which they were registered, each with its next event
/// taken out in advance, and gives their events one by one, earliest
/// first. Of two events with the same time the one of the source that was
/// registered first comes first.
#[derive(Debug)]
pub struct Generator {
    heads: Vec<WireEvent>,
    sources: Vec<Cursor>,
}

impl View for Generator {
    type V = Seq<Seq<WireEvent>>;

    /// What each source still holds, its next event first.
    closed spec fn view(&self) -> Seq<Seq<WireEvent>> {
        Seq::new(
            self.heads@.len(),
            |i: int| seq![self.heads@[i]] + self.sources@[i].events@.skip(self.sources@[i].next as int),
        )
    }
}

impl Generator {
    #[verifier::type_invariant]
    spec fn cursors_in_range(self) -> bool {
        &&& self.heads@.len() == self.sources@.len()
        &&& forall|i: int|
            0 <= i < self.sources@.len() ==> (#[trigger] self.sources@[i]).next
                <= self.sources@[i].events@.len()
    }

    /// A scheduler without sources.
    pub fn new() -> (generator: Generator)
        ensures
            generator@ == Seq::<Seq<WireEvent>>::empty(),
    {
        let generator = Generator { heads: Vec::new(), sources: Vec::new() };
        assert(generator@ =~= Seq::<Seq<WireEvent>>::empty());
        generator
    }

    /// Registers a source behind those that are there. A source without
    /// events is discarded.
    pub fn add_generator(&mut self, events: Vec<WireEvent>)
        ensures
            final(self)@ == if events@.len() > 0 {
                old(self)@.push(events@)
            } else {
                old(self)@
            },
    {
        proof {
            use_type_invariant(&*self);
        }
        if events.len() > 0 {
            let ghost before = self@;
            let ghost source = events@;
            let mut taken = Generator::new();
            core::mem::swap(self, &mut taken);
            let Generator { heads, sources } = taken;
            let mut heads = heads;
            let mut sources = sources;
            heads.push(events[0]);
            sources.push(Cursor { events, next: 1 });
            *self = Generator { heads, sources };
            assert(self@ =~= before.push(source)) by {
                assert(seq![source[0]] + source.skip(1) =~= source);
            }
        }
    }

    /// Whether no source is left.
    pub fn is_exhausted(&self) -> (exhausted: bool)
        ensures
            exhausted == (self@.len() == 0),
            exhausted == (merged(self@).len() == 0),
    {
        proof {
            use_type_invariant(self);
            lemma_earliest(self@, self@.len() as int);
            if self@.len() > 0 {
                assert(self@[0].len() > 0);
            }
        }
        self.heads.len() == 0
    }

    /// Takes the next event of the merged stream out of its source. A
    /// source that has given its last event is dropped.
    pub fn next(&mut self) -> (event: Option<WireEvent>)
        ensures
            match event {
                None => earliest(old(self)@) < 0 && final(self)@ == old(self)@,
                Some(e) => {
                    let i = earliest(old(self)@);
                    &&& i >= 0
                    &&& e == old(self)@[i][0]
                    &&& final(self)@ == if old(self)@[i].len() == 1 {
                        old(self)@.remove(i)
                    } else {
                        pulled(old(self)@, i)
                    }
                },
            },
            merged(old(self)@) == match event {
                None => Seq::empty(),
                Some(e) => seq![e] + merged(final(self)@),
            },
    {
        proof {
            use_type_invariant(&*self);
            lemma_earliest(self@, self@.len() as int);
        }
        let ghost before = self@;
        let best = match select(self.heads.as_slice()) {
            None => {
                return None;
            },
            Some(best) => best,
        };
        proof {
            lemma_earliest_from_heads(before, self.heads@, best as int);
        }
        let event = self.heads[best];
        let mut taken = Generator::new();
        core::mem::swap(self, &mut taken);
        let Generator { heads, sources } = taken;
        let mut heads = heads;
        let mut sources = sources;
        let next = sources[best].next;
        if next == sources[best].events.len() {
            heads.remove(best);
            sources.remove(best);
            *self = Generator { heads, sources };
            proof {
                assert(self@ =~= before.remove(best as int));
                let drained = pulled(before, best as int);
                assert(drained[best as int].len() == 0);
                assert(drained.remove(best as int) =~= before.remove(best as int));
                lemma_merged_without_exhausted(drained, best as int);
            }
        } else {
            heads[best] = sources[best].events[next];
            sources[best].next = next + 1;
            *self = Generator { heads, sources };
            proof {
                assert(self@ =~= pulled(before, best as int)) by {
                    let events = self.sources@[best as int].events@;
                    assert(seq![events[next as int]] + events.skip(next + 1) =~= events.skip(
                        next as int,
                    ));
                    assert(before[best as int].drop_first() =~= events.skip(next as int));
                }
            }
        }
        Some(event)
    }

    /// Takes all events out of the sources, in the order of the merged
    /// stream.
    pub fn drain(&mut self) -> (events: Vec<WireEvent>)
        ensures
            events@ == merged(old(self)@),
            final(self)@.len() == 0,
    {
        let mut events: Vec<WireEvent> = Vec::new();
        loop
            invariant
                merged(old(self)@) == events@ + merged(self@),
            ensures
                events@ == merged(old(self)@),
                self@.len() == 0,
            decreases merged(self@).len(),
        {
            let ghost before = self@;
            match self.next() {
                None => {
                    proof {
                        assert(events@ + Seq::<WireEvent>::empty() =~= events@);
                        lemma_earliest(before, before.len() as int);
                        use_type_invariant(&*self);
                        if before.len() > 0 {
                            assert(before[0].len() > 0);
                        }
                    }
                    break ;
                },
                Some(event) => {
                    let ghost so_far = events@;
                    events.push(event);
                    assert(events@ + merged(self@) =~= so_far + (seq![event] + merged(self@)));
                },
            }
        }
        events
    }
}

} // verus!
