//! Consumers of search reports, and what a run of reports does to them.

use vstd::prelude::*;
use crate::search_model::WordEvent;

verus! {

/// A consumer of the words that a search finds.
///
/// What a visitor has gathered is its `tally`. Handing it a word replaces the
/// tally by `counted` of the tally and the word; a visitor with bounded
/// counters says through `accepts` which words it has room for, and a search
/// stops at the first word for which a visitor has none.
///
/// As they stand, `inv`, `tally`, `accepts` and `counted` say nothing of a
/// visitor. A visitor that is to be reasoned about defines them to say what
/// it gathers.
pub trait WordVisitor: Sized {
    /// What the visitor has gathered, as a mathematical value.
    type Tally;

    /// Whether the visitor's data is consistent.
    open spec fn inv(&self) -> bool {
        true
    }

    /// What the visitor has gathered so far.
    open spec fn tally(&self) -> Self::Tally {
        arbitrary()
    }

    /// Whether a visitor that has gathered `tally` has room for `word`.
    open spec fn accepts(tally: Self::Tally, word: Seq<char>, path: Seq<u16>) -> bool {
        true
    }

    /// What a visitor that has gathered `tally` holds after `word`.
    open spec fn counted(tally: Self::Tally, word: Seq<char>, path: Seq<u16>) -> Self::Tally {
        arbitrary()
    }

    /// Whether the visitor has room for `word`.
    fn has_room(&self, word: &str, path: &Vec<u16>) -> (yes: bool)
        requires
            self.inv(),
        ensures
            yes == Self::accepts(self.tally(), word@, path@),
    ;

    /// Takes one found word with the cells that spell it.
    fn visit(&mut self, word: &str, path: &Vec<u16>)
        requires
            old(self).inv(),
            Self::accepts(old(self).tally(), word@, path@),
        ensures
            final(self).inv(),
            final(self).tally() == Self::counted(old(self).tally(), word@, path@),
    ;
}

/// What a visitor that has gathered `tally` holds after `events`, in order.
pub open spec fn tally_after<V: WordVisitor>(tally: V::Tally, events: Seq<WordEvent>) -> V::Tally
    decreases events.len(),
{
    if events.len() == 0 {
        tally
    } else {
        V::counted(
            tally_after::<V>(tally, events.drop_last()),
            events.last().word,
            events.last().path,
        )
    }
}

/// Whether a visitor that has gathered `tally` has room for each of `events`
/// in turn.
pub open spec fn accepts_all<V: WordVisitor>(tally: V::Tally, events: Seq<WordEvent>) -> bool
    decreases events.len(),
{
    events.len() == 0 || (accepts_all::<V>(tally, events.drop_last()) && V::accepts(
        tally_after::<V>(tally, events.drop_last()),
        events.last().word,
        events.last().path,
    ))
}

/// Whether every one of `visitors` is consistent.
pub open spec fn all_inv<V: WordVisitor>(visitors: Seq<V>) -> bool {
    forall|i: int| 0 <= i < visitors.len() ==> (#[trigger] visitors[i]).inv()
}

/// Whether every one of `visitors` has room for each of `events` in turn.
pub open spec fn fits_all<V: WordVisitor>(visitors: Seq<V>, events: Seq<WordEvent>) -> bool {
    forall|i: int|
        0 <= i < visitors.len() ==> accepts_all::<V>((#[trigger] visitors[i]).tally(), events)
}

/// How many of `events` are delivered to `visitors`: all of them if every
/// visitor has room for all, else those before the first event for which
/// some visitor has no room.
pub open spec fn delivered<V: WordVisitor>(visitors: Seq<V>, events: Seq<WordEvent>) -> nat
    decreases events.len(),
{
    if events.len() == 0 || fits_all(visitors, events) {
        events.len()
    } else {
        delivered(visitors, events.drop_last())
    }
}

/// The events that are delivered to `visitors`.
pub open spec fn handed<V: WordVisitor>(visitors: Seq<V>, events: Seq<WordEvent>) -> Seq<
    WordEvent,
> {
    events.take(delivered(visitors, events) as int)
}

/// Whether `after` is `before` with `events` handed to each visitor.
pub open spec fn all_counted<V: WordVisitor>(
    before: Seq<V>,
    after: Seq<V>,
    events: Seq<WordEvent>,
) -> bool {
    &&& after.len() == before.len()
    &&& forall|i: int|
        0 <= i < after.len() ==> (#[trigger] after[i]).inv() && after[i].tally() == tally_after::<V>(
            before[i].tally(),
            events,
        )
}

/// Handing over `first` and then `rest` is handing over `first + rest`.
pub proof fn lemma_tally_concat<V: WordVisitor>(
    tally: V::Tally,
    first: Seq<WordEvent>,
    rest: Seq<WordEvent>,
)
    ensures
        tally_after::<V>(tally, first + rest) == tally_after::<V>(
            tally_after::<V>(tally, first),
            rest,
        ),
        accepts_all::<V>(tally, first + rest) == (accepts_all::<V>(tally, first) && accepts_all::<V>(
            tally_after::<V>(tally, first),
            rest,
        )),
    decreases rest.len(),
{
    if rest.len() == 0 {
        assert(first + rest =~= first);
    } else {
        assert((first + rest).drop_last() =~= first + rest.drop_last());
        assert((first + rest).last() == rest.last());
        lemma_tally_concat::<V>(tally, first, rest.drop_last());
    }
}

/// Handing over one event is one step of `counted`.
pub proof fn lemma_tally_single<V: WordVisitor>(tally: V::Tally, event: WordEvent)
    ensures
        tally_after::<V>(tally, seq![event]) == V::counted(tally, event.word, event.path),
        accepts_all::<V>(tally, seq![event]) == V::accepts(tally, event.word, event.path),
{
    let one = seq![event];
    assert(one.drop_last() =~= Seq::<WordEvent>::empty());
    assert(one.last() == event);
    assert(tally_after::<V>(tally, one.drop_last()) == tally);
    assert(accepts_all::<V>(tally, one.drop_last()));
}

/// Visitors with room for a run of events have room for its start.
pub proof fn lemma_fits_prefix<V: WordVisitor>(
    visitors: Seq<V>,
    start: Seq<WordEvent>,
    events: Seq<WordEvent>,
)
    requires
        fits_all(visitors, events),
        start.is_prefix_of(events),
    ensures
        fits_all(visitors, start),
{
    let rest = events.subrange(start.len() as int, events.len() as int);
    assert(events =~= start + rest);
    assert forall|i: int| 0 <= i < visitors.len() implies accepts_all::<V>(
        (#[trigger] visitors[i]).tally(),
        start,
    ) by {
        lemma_tally_concat::<V>(visitors[i].tally(), start, rest);
    }
}

/// Visitors that were handed `done` have room for `next` exactly if they
/// had room for `done + next` before.
pub proof fn lemma_fits_next<V: WordVisitor>(
    before: Seq<V>,
    now: Seq<V>,
    done: Seq<WordEvent>,
    next: Seq<WordEvent>,
)
    requires
        fits_all(before, done),
        all_counted(before, now, done),
    ensures
        fits_all(now, next) == fits_all(before, done + next),
{
    if fits_all(now, next) {
        assert forall|i: int| 0 <= i < before.len() implies accepts_all::<V>(
            (#[trigger] before[i]).tally(),
            done + next,
        ) by {
            assert(accepts_all::<V>(now[i].tally(), next));
            lemma_tally_concat::<V>(before[i].tally(), done, next);
        }
    }
    if fits_all(before, done + next) {
        assert forall|i: int| 0 <= i < now.len() implies accepts_all::<V>(
            (#[trigger] now[i]).tally(),
            next,
        ) by {
            assert(accepts_all::<V>(before[i].tally(), done + next));
            lemma_tally_concat::<V>(before[i].tally(), done, next);
        }
    }
}

/// What is delivered is a start of the events that every visitor has room
/// for, and no longer start is one.
pub proof fn lemma_delivered<V: WordVisitor>(visitors: Seq<V>, events: Seq<WordEvent>)
    ensures
        delivered(visitors, events) <= events.len(),
        fits_all(visitors, handed(visitors, events)),
        fits_all(visitors, events) <==> delivered(visitors, events) == events.len(),
        forall|n: int|
            delivered(visitors, events) < n <= events.len() ==> !fits_all(
                visitors,
                #[trigger] events.take(n),
            ),
    decreases events.len(),
{
    if events.len() == 0 {
        assert(events.take(0) =~= events);
        assert forall|i: int| 0 <= i < visitors.len() implies accepts_all::<V>(
            (#[trigger] visitors[i]).tally(),
            events,
        ) by {}
    } else if fits_all(visitors, events) {
        assert(events.take(events.len() as int) =~= events);
    } else {
        let front = events.drop_last();
        lemma_delivered(visitors, front);
        assert(front.take(delivered(visitors, front) as int) =~= events.take(
            delivered(visitors, front) as int,
        ));
        assert forall|n: int| delivered(visitors, events) < n <= events.len() implies !fits_all(
            visitors,
            #[trigger] events.take(n),
        ) by {
            if n == events.len() {
                assert(events.take(n) =~= events);
            } else {
                assert(events.take(n) =~= front.take(n));
            }
        }
    }
}

/// The start of the events that every visitor has room for, while none has
/// room for one event more, is what is delivered.
pub proof fn lemma_delivered_is<V: WordVisitor>(visitors: Seq<V>, events: Seq<WordEvent>, n: int)
    requires
        0 <= n <= events.len(),
        fits_all(visitors, events.take(n)),
        n < events.len() ==> !fits_all(visitors, events.take(n + 1)),
    ensures
        delivered(visitors, events) == n,
{
    let d = delivered(visitors, events) as int;
    lemma_delivered(visitors, events);
    if d < n {
        assert(!fits_all(visitors, events.take(n)));
    }
    if d > n {
        assert(events.take(n + 1) =~= events.take(d).take(n + 1));
        lemma_fits_prefix(visitors, events.take(n + 1), events.take(d));
    }
}

/// Visitors with room for all events are handed all of them.
pub proof fn lemma_handed_all<V: WordVisitor>(visitors: Seq<V>, events: Seq<WordEvent>)
    requires
        fits_all(visitors, events),
    ensures
        handed(visitors, events) == events,
{
    assert(events.take(events.len() as int) =~= events);
}

/// Where the visitors take `first` and then have no room for all of `next`,
/// they are handed `first` and what they are handed of `next`, whatever
/// follows.
pub proof fn lemma_handed_after<V: WordVisitor>(
    before: Seq<V>,
    between: Seq<V>,
    first: Seq<WordEvent>,
    next: Seq<WordEvent>,
    events: Seq<WordEvent>,
)
    requires
        fits_all(before, first),
        all_counted(before, between, first),
        !fits_all(between, next),
        (first + next).is_prefix_of(events),
    ensures
        !fits_all(before, events),
        handed(before, events) == first + handed(between, next),
{
    let d = delivered(between, next) as int;
    lemma_delivered(between, next);
    let n = first.len() + d;
    assert(d < next.len());
    assert(events.take(n) =~= first + next.take(d));
    assert(events.take(n + 1) =~= first + next.take(d + 1));
    lemma_fits_next(before, between, first, next.take(d));
    lemma_fits_next(before, between, first, next.take(d + 1));
    lemma_delivered_is(before, events, n);
    if fits_all(before, events) {
        lemma_fits_prefix(before, events.take(n + 1), events);
    }
}

/// Handing `done` and then `next` to each visitor is handing `done + next`.
pub proof fn lemma_counted_chain<V: WordVisitor>(
    before: Seq<V>,
    between: Seq<V>,
    after: Seq<V>,
    done: Seq<WordEvent>,
    next: Seq<WordEvent>,
)
    requires
        all_counted(before, between, done),
        all_counted(between, after, next),
    ensures
        all_counted(before, after, done + next),
{
    assert forall|i: int| 0 <= i < after.len() implies (#[trigger] after[i]).inv()
        && after[i].tally() == tally_after::<V>(before[i].tally(), done + next) by {
        assert(between[i].inv());
        lemma_tally_concat::<V>(before[i].tally(), done, next);
    }
}

/// Consistent visitors that were handed nothing are as they were, and they
/// have room for nothing more.
pub proof fn lemma_counted_nothing<V: WordVisitor>(visitors: Seq<V>)
    requires
        all_inv(visitors),
    ensures
        all_counted(visitors, visitors, Seq::<WordEvent>::empty()),
        fits_all(visitors, Seq::<WordEvent>::empty()),
        handed(visitors, Seq::<WordEvent>::empty()) == Seq::<WordEvent>::empty(),
{
    assert(Seq::<WordEvent>::empty().take(0) =~= Seq::<WordEvent>::empty());
}

/// Visitors without room for a single event are handed nothing of it.
pub proof fn lemma_handed_none<V: WordVisitor>(visitors: Seq<V>, event: WordEvent)
    requires
        !fits_all(visitors, seq![event]),
    ensures
        handed(visitors, seq![event]) == Seq::<WordEvent>::empty(),
{
    let one = seq![event];
    assert(one.drop_last() =~= Seq::<WordEvent>::empty());
    assert(delivered(visitors, one.drop_last()) == 0);
    assert(delivered(visitors, one) == 0);
    assert(one.take(0) =~= Seq::<WordEvent>::empty());
}

} // verus!
