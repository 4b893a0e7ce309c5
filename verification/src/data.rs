//! In-memory market-data feed.
//!
//! Bars are replayed oldest first (ties keep the order in which they were
//! supplied). For every symbol the feed keeps the bars emitted so far, up to
//! the most recent [`HISTORY_LIMIT`], so that strategies can look back
//! without buffering bars themselves.
//!
//! The feed never inspects a bar's prices: it is generic over the bar type and
//! is told each bar's instant and symbol. Bars are identified by their
//! position in replay order.

use std::collections::VecDeque;

use vstd::prelude::*;
use vstd::utf8::encode_utf8;

use crate::sort::{
    bytes_before, bytes_less, is_stable_order, lemma_bytes_before_total, lemma_bytes_before_transitive,
    stable_order,
};
use crate::time::Timestamp;

verus! {

broadcast use vstd::std_specs::vecdeque::group_vec_dequeue_axioms;

/// Most recent bars retained per symbol.
pub const HISTORY_LIMIT: usize = 4096;

/// The last `n` elements of `q` (all of them when `q` is shorter).
pub open spec fn last_n(q: Seq<usize>, n: nat) -> Seq<usize> {
    if q.len() > n {
        q.skip(q.len() - n)
    } else {
        q
    }
}

/// Replay positions below `count` whose bar (input position `order[k]`) has
/// symbol `s`, oldest first.
pub open spec fn positions_of(symbols: Seq<Seq<char>>, order: Seq<usize>, s: Seq<char>, count: nat) -> Seq<usize> {
    Seq::new(count, |k: int| k as usize).filter(|p: usize| symbols[order[p as int] as int] == s)
}

struct SymbolHistory {
    symbol: String,
    positions: VecDeque<usize>,
}

pub struct InMemoryDataHandler<B> {
    bars: Vec<B>,
    timestamps: Vec<Timestamp>,
    bar_symbols: Vec<String>,
    order: Vec<usize>,
    cursor: usize,
    history: Vec<SymbolHistory>,
}

impl<B> InMemoryDataHandler<B> {
    /// Number of bars held.
    pub closed spec fn bar_count(self) -> nat {
        self.bars@.len()
    }

    /// Number of bars emitted so far.
    pub closed spec fn emitted(self) -> nat {
        self.cursor as nat
    }

    /// Replay order: `order()[k]` is the input position of the `k`-th bar emitted.
    pub closed spec fn order(self) -> Seq<usize> {
        self.order@
    }

    pub closed spec fn input_bars(self) -> Seq<B> {
        self.bars@
    }

    pub closed spec fn input_timestamps(self) -> Seq<Timestamp> {
        self.timestamps@
    }

    pub closed spec fn input_symbols(self) -> Seq<Seq<char>> {
        self.bar_symbols@.map_values(|s: String| s@)
    }

    /// Symbol of the `k`-th bar in replay order.
    pub open spec fn symbol_at(self, k: int) -> Seq<char> {
        self.input_symbols()[self.order()[k] as int]
    }

    /// The `k`-th bar in replay order.
    pub open spec fn bar_at(self, k: int) -> B {
        self.input_bars()[self.order()[k] as int]
    }

    /// Replay positions below `count` whose bar has symbol `s`, oldest first.
    pub open spec fn seen_upto(self, s: Seq<char>, count: nat) -> Seq<usize> {
        positions_of(self.input_symbols(), self.order(), s, count)
    }

    /// Every emitted bar of symbol `s`, oldest first.
    pub open spec fn seen(self, s: Seq<char>) -> Seq<usize> {
        self.seen_upto(s, self.emitted())
    }

    /// The emitted bars of symbol `s` still held: the most recent
    /// [`HISTORY_LIMIT`] of them.
    pub open spec fn retained(self, s: Seq<char>) -> Seq<usize> {
        last_n(self.seen(s), HISTORY_LIMIT as nat)
    }

    /// The data is unchanged between `self` and `other`; only replay state may differ.
    pub open spec fn same_data(self, other: Self) -> bool {
        &&& self.bar_count() == other.bar_count()
        &&& self.order() == other.order()
        &&& self.input_bars() == other.input_bars()
        &&& self.input_timestamps() == other.input_timestamps()
        &&& self.input_symbols() == other.input_symbols()
    }

    pub closed spec fn wf(self) -> bool {
        &&& self.timestamps@.len() == self.bars@.len()
        &&& self.bar_symbols@.len() == self.bars@.len()
        &&& is_stable_order(self.timestamps@, self.order@)
        &&& self.cursor <= self.bars@.len()
        &&& forall|i: int|
            0 <= i < self.history@.len() ==> (#[trigger] self.history@[i]).positions@ == self.retained(
                self.history@[i].symbol@,
            )
        &&& forall|i: int, j: int|
            0 <= i < j < self.history@.len() ==> (#[trigger] self.history@[i]).symbol@
                != (#[trigger] self.history@[j]).symbol@
        &&& forall|k: int| 0 <= k < self.cursor ==> #[trigger] self.has_history(self.symbol_at(k))
    }

    closed spec fn has_history(self, s: Seq<char>) -> bool {
        exists|i: int| 0 <= i < self.history@.len() && (#[trigger] self.history@[i]).symbol@ == s
    }

    /// Bars are replayed oldest first, ties in input order, and every bar is
    /// replayed exactly once: the replay order is the stable chronological
    /// order of the input, whatever has been emitted or reset so far.
    pub proof fn lemma_replay_order(self)
        requires
            self.wf(),
        ensures
            is_stable_order(self.input_timestamps(), self.order()),
            self.order().len() == self.bar_count(),
    {
    }

    /// One call of [`Self::next`] taking `self` to `after` and returning `r`:
    /// the data stays, and the next replay position is returned until every
    /// bar has been emitted, `None` from then on.
    pub open spec fn next_step(self, after: Self, r: Option<usize>) -> bool {
        &&& after.wf()
        &&& after.same_data(self)
        &&& if self.emitted() < self.bar_count() {
            &&& r == Some(self.emitted() as usize)
            &&& after.emitted() == self.emitted() + 1
        } else {
            &&& r == None::<usize>
            &&& after.emitted() == self.emitted()
        }
    }

    /// Successive calls of `next` from `states[0]`, the `i`-th taking
    /// `states[i]` to `states[i + 1]` and returning `results[i]`, return the
    /// replay positions from the number already emitted up to the last bar,
    /// one per call, and `None` from then on; data and replay order stay
    /// those of `states[0]`. After `from_bars` or `reset` nothing has been
    /// emitted, so the calls return `0, 1, ..., bar_count() - 1` (the bars in
    /// stable chronological order), then `None`.
    pub proof fn lemma_replay_calls(states: Seq<Self>, results: Seq<Option<usize>>)
        requires
            states.len() == results.len() + 1,
            states[0].wf(),
            forall|i: int|
                0 <= i < results.len() ==> states[i].next_step(states[i + 1], #[trigger] results[i]),
        ensures
            forall|i: int|
                0 <= i < results.len() ==> #[trigger] results[i] == if states[0].emitted() + i
                    < states[0].bar_count() {
                    Some((states[0].emitted() + i) as usize)
                } else {
                    None::<usize>
                },
            forall|i: int|
                0 <= i < states.len() ==> (#[trigger] states[i]).wf() && states[i].same_data(
                    states[0],
                ) && states[i].emitted() == if states[0].emitted() + i <= states[0].bar_count() {
                    states[0].emitted() + i
                } else {
                    states[0].bar_count() as int
                },
        decreases results.len(),
    {
        let n = results.len();
        if n > 0 {
            let ps = states.drop_last();
            let pr = results.drop_last();
            assert forall|i: int| 0 <= i < pr.len() implies ps[i].next_step(ps[i + 1], #[trigger] pr[i]) by {
                assert(results[i] == pr[i]);
            }
            Self::lemma_replay_calls(ps, pr);
            assert forall|i: int| 0 <= i < states.len() - 1 implies (#[trigger] states[i]).wf() && states[i].same_data(
                states[0],
            ) && states[i].emitted() == if states[0].emitted() + i <= states[0].bar_count() {
                states[0].emitted() + i
            } else {
                states[0].bar_count() as int
            } by {
                assert(states[i] == ps[i]);
            }
            let last = n - 1;
            assert(states[last] == ps[last]);
            assert(states[last].next_step(states[last + 1], results[last]));
        }
    }

    proof fn lemma_seen_step(self, s: Seq<char>, c: nat)
        requires
            c < usize::MAX,
        ensures
            self.seen_upto(s, c + 1) == if self.symbol_at(c as int) == s {
                self.seen_upto(s, c).push(c as usize)
            } else {
                self.seen_upto(s, c)
            },
    {
        let s1 = Seq::new(c + 1, |k: int| k as usize);
        let s0 = Seq::new(c, |k: int| k as usize);
        assert(s1.drop_last() =~= s0);
        assert(s1.last() == c as usize);
        reveal(Seq::filter);
    }

    /// The seen positions of `s` below `c` are exactly the positions below
    /// `c` whose bar has symbol `s`, in increasing order.
    proof fn lemma_seen_exact(self, s: Seq<char>, c: nat)
        requires
            c <= usize::MAX,
        ensures
            forall|a: int|
                0 <= a < self.seen_upto(s, c).len() ==> #[trigger] self.seen_upto(s, c)[a] < c
                    && self.symbol_at(self.seen_upto(s, c)[a] as int) == s,
            forall|a: int, b: int|
                0 <= a < b < self.seen_upto(s, c).len() ==> #[trigger] self.seen_upto(s, c)[a]
                    < #[trigger] self.seen_upto(s, c)[b],
            forall|p: int|
                0 <= p < c && self.symbol_at(p) == s ==> #[trigger] self.seen_upto(s, c).contains(p as usize),
        decreases c,
    {
        if c == 0 {
            self.lemma_seen_none(s, 0);
        } else {
            let c0 = (c - 1) as nat;
            self.lemma_seen_exact(s, c0);
            self.lemma_seen_step(s, c0);
            let prev = self.seen_upto(s, c0);
            let cur = self.seen_upto(s, c);
            assert forall|p: int| 0 <= p < c && self.symbol_at(p) == s implies #[trigger] cur.contains(p as usize) by {
                if p < c0 {
                    assert(prev.contains(p as usize));
                    let a = choose|a: int| 0 <= a < prev.len() && prev[a] == p as usize;
                    assert(cur[a] == prev[a]);
                } else {
                    assert(cur[cur.len() - 1] == c0 as usize);
                }
            }
        }
    }

    /// No look-ahead: every bar the history of `s` can return has already
    /// been emitted and has symbol `s`, and a history lists bars oldest first.
    pub proof fn lemma_history_emitted_only(self, s: Seq<char>, n: nat)
        requires
            self.wf(),
        ensures
            forall|a: int|
                0 <= a < last_n(self.retained(s), n).len() ==> #[trigger] last_n(self.retained(s), n)[a]
                    < self.emitted() && self.symbol_at(last_n(self.retained(s), n)[a] as int) == s,
            forall|a: int, b: int|
                0 <= a < b < last_n(self.retained(s), n).len() ==> #[trigger] last_n(self.retained(s), n)[a]
                    < #[trigger] last_n(self.retained(s), n)[b],
    {
        self.lemma_seen_exact(s, self.emitted());
        let q = self.seen(s);
        let r = self.retained(s);
        let h = last_n(r, n);
        let off_r = q.len() - r.len();
        let off_h = r.len() - h.len();
        assert forall|a: int| 0 <= a < r.len() implies #[trigger] r[a] == q[a + off_r] by {}
        assert forall|a: int| 0 <= a < h.len() implies #[trigger] h[a] == q[a + off_h + off_r] by {
            assert(h[a] == r[a + off_h]);
        }
    }

    /// The current bar of `s` is the most recent emitted bar with symbol `s`:
    /// it has symbol `s`, has been emitted, and no later emitted bar has
    /// symbol `s`.
    pub proof fn lemma_current_is_latest(self, s: Seq<char>)
        requires
            self.wf(),
            self.retained(s).len() > 0,
        ensures
            self.retained(s).last() < self.emitted(),
            self.symbol_at(self.retained(s).last() as int) == s,
            forall|p: int|
                self.retained(s).last() < p < self.emitted() ==> #[trigger] self.symbol_at(p) != s,
    {
        self.lemma_seen_exact(s, self.emitted());
        let q = self.seen(s);
        let r = self.retained(s);
        assert(r.last() == q.last());
        assert forall|p: int| r.last() < p < self.emitted() implies #[trigger] self.symbol_at(p) != s by {
            if self.symbol_at(p) == s {
                assert(q.contains(p as usize));
                let a = choose|a: int| 0 <= a < q.len() && q[a] == p as usize;
                if a < q.len() - 1 {
                    assert(q[a] < q[q.len() - 1]);
                }
            }
        }
    }

    proof fn lemma_seen_none(self, s: Seq<char>, c: nat)
        requires
            c <= usize::MAX,
            forall|k: int| 0 <= k < c ==> self.symbol_at(k) != s,
        ensures
            self.seen_upto(s, c) == Seq::<usize>::empty(),
        decreases c,
    {
        if c == 0 {
            let s0 = Seq::new(0, |k: int| k as usize);
            assert(s0 =~= Seq::<usize>::empty());
            reveal(Seq::filter);
        } else {
            self.lemma_seen_none(s, (c - 1) as nat);
            self.lemma_seen_step(s, (c - 1) as nat);
        }
    }

    /// Builds a feed over `bars`; `timestamps[i]` and `symbols[i]` describe `bars[i]`.
    pub fn from_bars(bars: Vec<B>, timestamps: Vec<Timestamp>, symbols: Vec<String>) -> (r: Self)
        requires
            timestamps@.len() == bars@.len(),
            symbols@.len() == bars@.len(),
        ensures
            r.wf(),
            r.emitted() == 0,
            r.bar_count() == bars@.len(),
            r.input_bars() == bars@,
            r.input_timestamps() == timestamps@,
            r.input_symbols() == symbols@.map_values(|s: String| s@),
            is_stable_order(timestamps@, r.order()),
    {
        let order = stable_order(&timestamps);
        InMemoryDataHandler {
            bars,
            timestamps,
            bar_symbols: symbols,
            order,
            cursor: 0,
            history: Vec::new(),
        }
    }

    pub fn len(&self) -> (r: usize)
        requires
            self.wf(),
        ensures
            r == self.bar_count(),
    {
        self.bars.len()
    }

    pub fn is_empty(&self) -> (r: bool)
        requires
            self.wf(),
        ensures
            r == (self.bar_count() == 0),
    {
        self.bars.len() == 0
    }

    /// The `k`-th bar in replay order.
    pub fn bar(&self, k: usize) -> (r: &B)
        requires
            self.wf(),
            k < self.bar_count(),
        ensures
            *r == self.bar_at(k as int),
    {
        &self.bars[self.order[k]]
    }

    fn find_history(&self, s: &String) -> (r: Option<usize>)
        ensures
            match r {
                Some(i) => i < self.history@.len() && self.history@[i as int].symbol@ == s@,
                None => forall|i: int| 0 <= i < self.history@.len() ==> (#[trigger] self.history@[i]).symbol@ != s@,
            },
    {
        let mut i: usize = 0;
        while i < self.history.len()
            invariant
                i <= self.history@.len(),
                forall|q: int| 0 <= q < i ==> (#[trigger] self.history@[q]).symbol@ != s@,
            decreases self.history@.len() - i,
        {
            if self.history[i].symbol == *s {
                return Some(i);
            }
            i = i + 1;
        }
        None
    }

    /// Advances to the next bar; returns its replay position, or `None` once
    /// every bar has been emitted.
    pub fn next(&mut self) -> (r: Option<usize>)
        requires
            old(self).wf(),
        ensures
            old(self).next_step(*final(self), r),
            r matches Some(k) ==> forall|t: Seq<char>|
                #[trigger] final(self).seen(t) == if t == old(self).symbol_at(k as int) {
                    old(self).seen(t).push(k)
                } else {
                    old(self).seen(t)
                },
    {
        if self.cursor >= self.bars.len() {
            return None;
        }
        let k = self.cursor;
        let sym = self.bar_symbols[self.order[k]].clone();
        let ghost pre = *self;
        let ghost s = sym@;
        proof {
            assert(pre.symbol_at(k as int) == s);
            assert forall|t: Seq<char>| #[trigger] pre.seen_upto(t, (k + 1) as nat)
                == if t == s { pre.seen(t).push(k) } else { pre.seen(t) } by {
                pre.lemma_seen_step(t, k as nat);
            }
        }
        let found = self.find_history(&sym);
        match found {
            Some(i) => {
                let mut entry = self.history.remove(i);
                let ghost q = entry.positions@;
                entry.positions.push_back(k);
                if entry.positions.len() > HISTORY_LIMIT {
                    entry.positions.pop_front();
                }
                proof {
                    assert(q == pre.retained(s));
                    lemma_last_n_push(pre.seen(s), k, HISTORY_LIMIT as nat);
                }
                self.history.insert(i, entry);
                proof {
                    assert(self.history@ =~= pre.history@.update(i as int, entry));
                }
            },
            None => {
                proof {
                    assert forall|k2: int| 0 <= k2 < k implies pre.symbol_at(k2) != s by {
                        assert(pre.has_history(pre.symbol_at(k2)));
                        let i = choose|i: int|
                            0 <= i < pre.history@.len() && (#[trigger] pre.history@[i]).symbol@
                                == pre.symbol_at(k2);
                    }
                    pre.lemma_seen_none(s, k as nat);
                    assert(pre.seen(s).push(k) =~= seq![k]);
                }
                let mut positions: VecDeque<usize> = VecDeque::new();
                positions.push_back(k);
                self.history.push(SymbolHistory { symbol: sym, positions });
            },
        }
        self.cursor = k + 1;
        proof {
            let post = *self;
            assert(post.same_data(pre));
            assert forall|t: Seq<char>| #[trigger] post.seen(t) == if t == s {
                pre.seen(t).push(k)
            } else {
                pre.seen(t)
            } by {
                assert(post.seen(t) == pre.seen_upto(t, (k + 1) as nat));
            }
            assert forall|a: int| 0 <= a < post.history@.len() implies (#[trigger] post.history@[a]).positions@
                == post.retained(post.history@[a].symbol@) by {
                let t = post.history@[a].symbol@;
                assert(post.seen(t) == if t == s { pre.seen(t).push(k) } else { pre.seen(t) });
                if t != s {
                    assert(post.history@[a] == pre.history@[a]);
                }
            }
            assert forall|k2: int| 0 <= k2 < post.cursor implies #[trigger] post.has_history(post.symbol_at(k2)) by {
                if k2 < k {
                    assert(pre.has_history(pre.symbol_at(k2)));
                    let i = choose|i: int|
                        0 <= i < pre.history@.len() && (#[trigger] pre.history@[i]).symbol@ == pre.symbol_at(k2);
                    assert(post.history@[i].symbol@ == pre.history@[i].symbol@);
                } else {
                    match found {
                        Some(i) => {
                            assert(post.history@[i as int].symbol@ == s);
                        },
                        None => {
                            assert(post.history@[pre.history@.len() as int].symbol@ == s);
                        },
                    }
                }
            }
            assert forall|a: int, b: int| 0 <= a < b < post.history@.len() implies (#[trigger] post.history@[a]).symbol@
                != (#[trigger] post.history@[b]).symbol@ by {
                match found {
                    Some(i) => {
                        assert(post.history@[a].symbol@ == pre.history@[a].symbol@);
                        assert(post.history@[b].symbol@ == pre.history@[b].symbol@);
                    },
                    None => {
                        if b == pre.history@.len() {
                            assert(post.history@[a] == pre.history@[a]);
                        } else {
                            assert(post.history@[a] == pre.history@[a]);
                            assert(post.history@[b] == pre.history@[b]);
                        }
                    },
                }
            }
        }
        Some(k)
    }

    /// Replay position of the most recent bar emitted for `symbol`, if any.
    pub fn current_bar(&self, symbol: &str) -> (r: Option<usize>)
        requires
            self.wf(),
        ensures
            r == if self.retained(symbol@).len() > 0 {
                Some(self.retained(symbol@).last())
            } else {
                None
            },
    {
        let s = symbol.to_owned();
        match self.find_history(&s) {
            Some(i) => {
                let n = self.history[i].positions.len();
                if n == 0 {
                    None
                } else {
                    Some(self.history[i].positions[n - 1])
                }
            },
            None => {
                proof {
                    self.lemma_unseen(s@);
                }
                None
            },
        }
    }

    proof fn lemma_unseen(self, s: Seq<char>)
        requires
            self.wf(),
            forall|i: int| 0 <= i < self.history@.len() ==> (#[trigger] self.history@[i]).symbol@ != s,
        ensures
            self.retained(s) == Seq::<usize>::empty(),
    {
        assert forall|k: int| 0 <= k < self.emitted() implies self.symbol_at(k) != s by {
            assert(self.has_history(self.symbol_at(k)));
            let i = choose|i: int|
                0 <= i < self.history@.len() && (#[trigger] self.history@[i]).symbol@ == self.symbol_at(k);
        }
        self.lemma_seen_none(s, self.emitted());
    }

    /// The last `n` retained bars of `symbol`, oldest first (fewer when the
    /// history is shorter).
    pub fn history(&self, symbol: &str, n: usize) -> (r: Vec<usize>)
        requires
            self.wf(),
        ensures
            r@ == last_n(self.retained(symbol@), n as nat),
    {
        let s = symbol.to_owned();
        match self.find_history(&s) {
            Some(i) => {
                let h = &self.history[i].positions;
                let len = h.len();
                let start = if len > n { len - n } else { 0 };
                let mut out: Vec<usize> = Vec::new();
                let mut j = start;
                while j < len
                    invariant
                        start <= j <= len,
                        len == h@.len(),
                        out@ =~= h@.subrange(start as int, j as int),
                    decreases len - j,
                {
                    out.push(h[j]);
                    j = j + 1;
                }
                proof {
                    assert(h@.skip(start as int) =~= h@.subrange(start as int, len as int));
                }
                out
            },
            None => {
                proof {
                    self.lemma_unseen(s@);
                }
                Vec::new()
            },
        }
    }

    /// Each of the first `count` input symbols occurs in `out`.
    pub open spec fn lists_symbols_upto(self, out: Seq<String>, count: int) -> bool {
        forall|j: int|
            #![trigger self.input_symbols()[j]]
            0 <= j < count ==> exists|i: int| 0 <= i < out.len() && #[trigger] out[i]@ == self.input_symbols()[j]
    }

    /// Every symbol the feed holds bars for, once each, in ascending byte
    /// order.
    pub fn symbols(&self) -> (r: Vec<String>)
        requires
            self.wf(),
        ensures
            forall|i: int| 0 <= i < r@.len() ==> self.input_symbols().contains(#[trigger] r@[i]@),
            self.lists_symbols_upto(r@, self.bar_count() as int),
            forall|i: int, k: int|
                0 <= i < k < r@.len() ==> bytes_before(
                    encode_utf8(#[trigger] r@[i]@),
                    encode_utf8(#[trigger] r@[k]@),
                ),
    {
        let n = self.bar_symbols.len();
        let mut out: Vec<String> = Vec::new();
        let mut j: usize = 0;
        while j < n
            invariant
                j <= n,
                n == self.bar_symbols@.len(),
                n == self.bar_count(),
                forall|i: int| 0 <= i < out@.len() ==> self.input_symbols().contains(#[trigger] out@[i]@),
                self.lists_symbols_upto(out@, j as int),
                forall|i: int, k: int|
                    0 <= i < k < out@.len() ==> bytes_before(
                        encode_utf8(#[trigger] out@[i]@),
                        encode_utf8(#[trigger] out@[k]@),
                    ),
            decreases n - j,
        {
            let sym = &self.bar_symbols[j];
            proof {
                assert(self.input_symbols()[j as int] == sym@);
            }
            let mut present = false;
            let mut q: usize = 0;
            while q < out.len()
                invariant
                    q <= out@.len(),
                    present ==> exists|i: int| 0 <= i < out@.len() && #[trigger] out@[i]@ == sym@,
                    !present ==> forall|i: int| 0 <= i < q ==> #[trigger] out@[i]@ != sym@,
                decreases out@.len() - q,
            {
                if out[q] == *sym {
                    present = true;
                }
                q = q + 1;
            }
            if present {
                proof {
                    let i = choose|i: int| 0 <= i < out@.len() && #[trigger] out@[i]@ == sym@;
                    assert(out@[i]@ == self.input_symbols()[j as int]);
                }
            } else {
                let key = sym.as_str().as_bytes();
                proof {
                    assert(key@ == encode_utf8(sym@));
                }
                let mut pos = out.len();
                while pos > 0 && bytes_less(key, out[pos - 1].as_str().as_bytes())
                    invariant
                        pos <= out@.len(),
                        key@ == encode_utf8(sym@),
                        forall|k: int|
                            pos <= k < out@.len() ==> bytes_before(key@, encode_utf8(#[trigger] out@[k]@)),
                    decreases pos,
                {
                    pos = pos - 1;
                }
                let ghost old_out = out@;
                proof {
                    if pos > 0 {
                        let prev = encode_utf8(old_out[pos - 1]@);
                        lemma_bytes_before_total(key@, prev);
                        if key@ == prev {
                            vstd::utf8::encode_utf8_decode_utf8(sym@);
                            vstd::utf8::encode_utf8_decode_utf8(old_out[pos - 1]@);
                            assert(old_out[pos - 1]@ == sym@);
                        }
                        assert(bytes_before(prev, key@));
                        assert forall|k: int| 0 <= k < pos implies bytes_before(
                            encode_utf8(#[trigger] old_out[k]@),
                            key@,
                        ) by {
                            if k < pos - 1 {
                                lemma_bytes_before_transitive(encode_utf8(old_out[k]@), prev, key@);
                            }
                        }
                    }
                }
                out.insert(pos, sym.clone());
                proof {
                    let new_out = out@;
                    assert(new_out == old_out.insert(pos as int, new_out[pos as int]));
                    assert(new_out[pos as int]@ == sym@);
                    assert forall|i: int, k: int| 0 <= i < k < new_out.len() implies bytes_before(
                        encode_utf8(#[trigger] new_out[i]@),
                        encode_utf8(#[trigger] new_out[k]@),
                    ) by {
                        if k < pos {
                        } else if k == pos {
                        } else if i < pos {
                            assert(new_out[k] == old_out[k - 1]);
                            lemma_bytes_before_transitive(
                                encode_utf8(old_out[i]@),
                                key@,
                                encode_utf8(old_out[k - 1]@),
                            );
                        } else if i == pos {
                            assert(new_out[k] == old_out[k - 1]);
                        } else {
                            assert(new_out[i] == old_out[i - 1] && new_out[k] == old_out[k - 1]);
                        }
                    }
                    assert forall|i: int| 0 <= i < new_out.len() implies self.input_symbols().contains(
                        #[trigger] new_out[i]@,
                    ) by {
                        if i < pos {
                            assert(new_out[i] == old_out[i]);
                        } else if i > pos {
                            assert(new_out[i] == old_out[i - 1]);
                        } else {
                            assert(self.input_symbols()[j as int] == sym@);
                        }
                    }
                    assert forall|j2: int| #![trigger self.input_symbols()[j2]] 0 <= j2 < j + 1 implies exists|i: int|
                        0 <= i < new_out.len() && #[trigger] new_out[i]@ == self.input_symbols()[j2] by {
                        if j2 < j {
                            let i = choose|i: int|
                                0 <= i < old_out.len() && #[trigger] old_out[i]@ == self.input_symbols()[j2];
                            if i < pos {
                                assert(new_out[i] == old_out[i]);
                            } else {
                                assert(new_out[i + 1] == old_out[i]);
                            }
                        } else {
                            assert(new_out[pos as int]@ == self.input_symbols()[j2]);
                        }
                    }
                }
            }
            j = j + 1;
        }
        proof {
            assert(self.lists_symbols_upto(out@, n as int));
        }
        out
    }

    /// Rewinds to the beginning of the stream and forgets all history.
    pub fn reset(&mut self)
        requires
            old(self).wf(),
        ensures
            final(self).wf(),
            final(self).same_data(*old(self)),
            final(self).emitted() == 0,
    {
        self.cursor = 0;
        self.history = Vec::new();
    }
}

/// The bar just emitted is the current bar of its symbol: once the seen bars
/// of a symbol end with position `k`, the retained history is non-empty and
/// ends with `k`, and a request for the last `n >= 1` bars ends with `k`.
pub proof fn lemma_emitted_is_current(seen: Seq<usize>, prior: Seq<usize>, k: usize, n: nat)
    requires
        seen == prior.push(k),
        n >= 1,
    ensures
        last_n(seen, HISTORY_LIMIT as nat).len() > 0,
        last_n(seen, HISTORY_LIMIT as nat).last() == k,
        last_n(last_n(seen, HISTORY_LIMIT as nat), n).last() == k,
        last_n(last_n(seen, HISTORY_LIMIT as nat), n).len() == if n < last_n(seen, HISTORY_LIMIT as nat).len() {
            n as int
        } else {
            last_n(seen, HISTORY_LIMIT as nat).len() as int
        },
{
}

/// A history request returns `min(n, retained)` bars, and the retained
/// history of a symbol never exceeds [`HISTORY_LIMIT`] bars.
pub proof fn lemma_history_len(seen: Seq<usize>, n: nat)
    ensures
        last_n(seen, HISTORY_LIMIT as nat).len() <= HISTORY_LIMIT,
        last_n(seen, HISTORY_LIMIT as nat).len() == if seen.len() < HISTORY_LIMIT {
            seen.len() as int
        } else {
            HISTORY_LIMIT as int
        },
        last_n(last_n(seen, HISTORY_LIMIT as nat), n).len() <= n,
{
}

/// Appending to a sequence and keeping its last `n` elements is the same as
/// appending to the kept suffix and dropping the oldest when it overflows.
pub proof fn lemma_last_n_push(q: Seq<usize>, x: usize, n: nat)
    requires
        n >= 1,
    ensures
        last_n(q.push(x), n) == ({
            let r = last_n(q, n).push(x);
            if r.len() > n {
                r.subrange(1, r.len() as int)
            } else {
                r
            }
        }),
{
    let r = last_n(q, n).push(x);
    if q.len() >= n {
        assert(r.subrange(1, r.len() as int) =~= q.push(x).skip(q.push(x).len() - n));
    } else {
        assert(r =~= q.push(x));
    }
}

} // verus!
