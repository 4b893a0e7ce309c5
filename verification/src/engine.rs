//! Order routing for the event loop.
//!
//! An order produced while processing a bar is queued and executed on the
//! *next* bar of its symbol, at that bar's open. The queue below decides
//! which orders are due when a bar arrives: every queued order for the bar's
//! symbol, in the order they were queued; orders for other symbols keep
//! waiting.
//!
//! The queue counts bars: each call of [`PendingOrders::take_due`] starts a new
//! bar, and every order queued by [`PendingOrders::push`] is stamped with the
//! bar being processed. An order is released only by a later bar than the one
//! that queued it.

use vstd::prelude::*;

verus! {

/// A queued entry: symbol, order, and the bar during which it was queued.
pub type Entry<O> = (Seq<char>, O, nat);

/// The orders of the queued entries for symbol `s`, in queue order.
pub open spec fn due_for<O>(q: Seq<Entry<O>>, s: Seq<char>) -> Seq<O> {
    q.filter(|e: Entry<O>| e.0 == s).map_values(|e: Entry<O>| e.1)
}

/// The bars at which the entries for symbol `s` were queued, in queue order.
pub open spec fn due_queued_at<O>(q: Seq<Entry<O>>, s: Seq<char>) -> Seq<nat> {
    q.filter(|e: Entry<O>| e.0 == s).map_values(|e: Entry<O>| e.2)
}

/// The queued entries for symbols other than `s`, in queue order.
pub open spec fn not_due<O>(q: Seq<Entry<O>>, s: Seq<char>) -> Seq<Entry<O>> {
    q.filter(|e: Entry<O>| e.0 != s)
}

/// Orders waiting for the next bar of their symbol.
pub struct PendingOrders<O> {
    entries: Vec<(String, O)>,
    queued_at: Ghost<Seq<nat>>,
    bar: Ghost<nat>,
}

impl<O> PendingOrders<O> {
    /// The queue, oldest first: each entry's symbol, order and the bar at
    /// which it was queued.
    pub closed spec fn queue(self) -> Seq<Entry<O>> {
        Seq::new(
            self.entries@.len(),
            |i: int| (self.entries@[i].0@, self.entries@[i].1, self.queued_at@[i]),
        )
    }

    /// The bar being processed: the number of `take_due` calls so far.
    pub closed spec fn bar(self) -> nat {
        self.bar@
    }

    /// Every queued entry was queued at the current bar or before.
    pub closed spec fn wf(self) -> bool {
        &&& self.queued_at@.len() == self.entries@.len()
        &&& forall|i: int| 0 <= i < self.queued_at@.len() ==> #[trigger] self.queued_at@[i] <= self.bar@
    }

    pub fn new() -> (r: Self)
        ensures
            r.wf(),
            r.queue() == Seq::<Entry<O>>::empty(),
            r.bar() == 0,
    {
        let r = PendingOrders { entries: Vec::new(), queued_at: Ghost(Seq::empty()), bar: Ghost(0) };
        proof {
            assert(r.queue() =~= Seq::<Entry<O>>::empty());
        }
        r
    }

    pub fn len(&self) -> (r: usize)
        requires
            self.wf(),
        ensures
            r == self.queue().len(),
    {
        self.entries.len()
    }

    pub fn is_empty(&self) -> (r: bool)
        requires
            self.wf(),
        ensures
            r == (self.queue().len() == 0),
    {
        self.entries.len() == 0
    }

    /// Queues `order`, during the current bar, until the next bar of `symbol`.
    pub fn push(&mut self, symbol: String, order: O)
        requires
            old(self).wf(),
        ensures
            final(self).wf(),
            final(self).bar() == old(self).bar(),
            final(self).queue() == old(self).queue().push((symbol@, order, old(self).bar())),
    {
        let ghost s = symbol@;
        let ghost pre = *self;
        self.entries.push((symbol, order));
        self.queued_at = Ghost(self.queued_at@.push(self.bar@));
        proof {
            assert(self.queue() =~= pre.queue().push((s, order, pre.bar())));
        }
    }

    /// Starts the next bar, of symbol `symbol`: removes and returns, oldest
    /// first, every queued order for `symbol`. Orders for other symbols stay
    /// queued in the order they were queued. Every released order was queued
    /// at an earlier bar.
    pub fn take_due(&mut self, symbol: &str) -> (r: Vec<O>)
        requires
            old(self).wf(),
        ensures
            final(self).wf(),
            final(self).bar() == old(self).bar() + 1,
            r@ == due_for(old(self).queue(), symbol@),
            final(self).queue() == not_due(old(self).queue(), symbol@),
            forall|i: int|
                0 <= i < due_queued_at(old(self).queue(), symbol@).len() ==> #[trigger] due_queued_at(
                    old(self).queue(),
                    symbol@,
                )[i] < final(self).bar(),
    {
        let s = symbol.to_owned();
        let ghost q = old(self).queue();
        let ghost sv = symbol@;
        let ghost b = old(self).bar();
        let mut taken: Vec<O> = Vec::new();
        let mut i: usize = 0;
        let ghost mut m: int = 0;
        proof {
            assert forall|k: int| 0 <= k < q.len() implies #[trigger] q[k].2 <= b by {
                assert(q[k].2 == old(self).queued_at@[k]);
            }
        }
        while i < self.entries.len()
            invariant
                s@ == sv,
                self.bar@ == b,
                self.queued_at@.len() == self.entries@.len(),
                forall|k: int| 0 <= k < q.len() ==> #[trigger] q[k].2 <= b,
                0 <= i <= self.entries@.len(),
                0 <= m <= q.len(),
                self.queue() == not_due(q.take(m), sv) + q.skip(m),
                i == not_due(q.take(m), sv).len(),
                taken@ == due_for(q.take(m), sv),
                forall|k: int|
                    0 <= k < due_queued_at(q.take(m), sv).len() ==> #[trigger] due_queued_at(q.take(m), sv)[k]
                        <= b,
            decreases q.len() - m,
        {
            proof {
                assert(q.skip(m)[0] == q[m]);
                lemma_filter_take_step(q, sv, m);
                assert(self.queue()[i as int] == q[m]);
            }
            let is_due = self.entries[i].0 == s;
            if is_due {
                let ghost before = self.queue();
                let ghost before_entries = self.entries@;
                let ghost before_stamps = self.queued_at@;
                let e = self.entries.remove(i);
                self.queued_at = Ghost(self.queued_at@.remove(i as int));
                taken.push(e.1);
                proof {
                    assert(self.entries@ == before_entries.remove(i as int));
                    assert(self.queue() =~= before.remove(i as int));
                    assert(before.remove(i as int) =~= not_due(q.take(m), sv) + q.skip(m + 1));
                    assert(self.queue() =~= not_due(q.take(m + 1), sv) + q.skip(m + 1));
                    assert(taken@ =~= due_for(q.take(m + 1), sv));
                }
            } else {
                i = i + 1;
                proof {
                    assert(self.queue() =~= not_due(q.take(m + 1), sv) + q.skip(m + 1));
                    assert(taken@ =~= due_for(q.take(m + 1), sv));
                }
            }
            proof {
                m = m + 1;
            }
        }
        proof {
            assert(q.skip(m).len() == 0);
            assert(q.take(m) =~= q);
            assert(self.queue() =~= not_due(q, sv));
        }
        self.bar = Ghost(b + 1);
        proof {
            let post = *self;
            assert(post.queue() == not_due(q, sv));
            lemma_not_due_bounded(q, sv, b);
            assert forall|k: int| 0 <= k < post.queued_at@.len() implies #[trigger] post.queued_at@[k]
                <= post.bar@ by {
                assert(post.queue()[k].2 == post.queued_at@[k]);
                assert(not_due(q, sv)[k].2 <= b);
            }
        }
        taken
    }
}

/// Entries kept for other symbols were queued no later than the entries of
/// the queue.
proof fn lemma_not_due_bounded<O>(q: Seq<Entry<O>>, s: Seq<char>, b: nat)
    requires
        forall|k: int| 0 <= k < q.len() ==> #[trigger] q[k].2 <= b,
    ensures
        forall|k: int| 0 <= k < not_due(q, s).len() ==> #[trigger] not_due(q, s)[k].2 <= b,
    decreases q.len(),
{
    reveal(Seq::filter);
    if q.len() > 0 {
        let r = q.drop_last();
        lemma_not_due_bounded(r, s, b);
        assert forall|k: int| 0 <= k < r.len() implies #[trigger] r[k].2 <= b by {
            assert(r[k] == q[k]);
        }
        assert(q.last() == q[q.len() - 1]);
        let nd = not_due(q, s);
        let nr = not_due(r, s);
        if q.last().0 != s {
            assert(nd == nr.push(q.last()));
            assert forall|k: int| 0 <= k < nd.len() implies #[trigger] nd[k].2 <= b by {
                if k < nr.len() {
                    assert(nd[k] == nr[k]);
                }
            }
        } else {
            assert(nd == nr);
        }
    }
}

/// Extending the scanned prefix by one entry extends exactly one of the two
/// partitions.
proof fn lemma_filter_take_step<O>(q: Seq<Entry<O>>, s: Seq<char>, m: int)
    requires
        0 <= m < q.len(),
    ensures
        q[m].0 == s ==> due_for(q.take(m + 1), s) == due_for(q.take(m), s).push(q[m].1),
        q[m].0 == s ==> due_queued_at(q.take(m + 1), s) == due_queued_at(q.take(m), s).push(q[m].2),
        q[m].0 == s ==> not_due(q.take(m + 1), s) == not_due(q.take(m), s),
        q[m].0 != s ==> due_for(q.take(m + 1), s) == due_for(q.take(m), s),
        q[m].0 != s ==> due_queued_at(q.take(m + 1), s) == due_queued_at(q.take(m), s),
        q[m].0 != s ==> not_due(q.take(m + 1), s) == not_due(q.take(m), s).push(q[m]),
{
    let t1 = q.take(m + 1);
    assert(t1.drop_last() =~= q.take(m));
    assert(t1.last() == q[m]);
    reveal(Seq::filter);
    let p = |e: Entry<O>| e.0 == s;
    let f = |e: Entry<O>| e.1;
    let g = |e: Entry<O>| e.2;
    if q[m].0 == s {
        assert(t1.filter(p) == q.take(m).filter(p).push(q[m]));
        assert(t1.filter(p).map_values(f) =~= q.take(m).filter(p).map_values(f).push(q[m].1));
        assert(t1.filter(p).map_values(g) =~= q.take(m).filter(p).map_values(g).push(q[m].2));
    }
}

/// Reading back a write: an order queued for `symbol` during bar `b` is the
/// last order released by the next `take_due` for that symbol, after the
/// orders queued before it; that call starts a bar after `b`, so the order is
/// never executed on the bar that queued it.
pub proof fn lemma_push_then_due<O>(q: Seq<Entry<O>>, symbol: Seq<char>, order: O, b: nat)
    ensures
        due_for(q.push((symbol, order, b)), symbol) == due_for(q, symbol).push(order),
        due_queued_at(q.push((symbol, order, b)), symbol) == due_queued_at(q, symbol).push(b),
        not_due(q.push((symbol, order, b)), symbol) == not_due(q, symbol),
{
    let q1 = q.push((symbol, order, b));
    assert(q1.drop_last() =~= q);
    reveal(Seq::filter);
    let p = |e: Entry<O>| e.0 == symbol;
    let f = |e: Entry<O>| e.1;
    let g = |e: Entry<O>| e.2;
    assert(q1.filter(p) == q.filter(p).push((symbol, order, b)));
    assert(q1.filter(p).map_values(f) =~= q.filter(p).map_values(f).push(order));
    assert(q1.filter(p).map_values(g) =~= q.filter(p).map_values(g).push(b));
}

/// An order queued for one symbol is never released by a bar of another
/// symbol: it stays queued, behind the orders queued before it.
pub proof fn lemma_push_not_due_elsewhere<O>(
    q: Seq<Entry<O>>,
    symbol: Seq<char>,
    order: O,
    b: nat,
    other: Seq<char>,
)
    requires
        other != symbol,
    ensures
        due_for(q.push((symbol, order, b)), other) == due_for(q, other),
        not_due(q.push((symbol, order, b)), other) == not_due(q, other).push((symbol, order, b)),
{
    let q1 = q.push((symbol, order, b));
    assert(q1.drop_last() =~= q);
    reveal(Seq::filter);
}

} // verus!
