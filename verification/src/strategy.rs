//! Moving-average crossover: the signal logic.
//!
//! The strategy compares a fast and a slow simple moving average of closing
//! prices. It goes long when the fast average is above the slow one and short
//! otherwise, and emits a signal only when that direction changes.

use vstd::prelude::*;

use crate::events::SignalDirection;

verus! {

/// The character for decimal digit `d`.
pub open spec fn digit_char(d: nat) -> char {
    if d == 0 { '0' }
    else if d == 1 { '1' }
    else if d == 2 { '2' }
    else if d == 3 { '3' }
    else if d == 4 { '4' }
    else if d == 5 { '5' }
    else if d == 6 { '6' }
    else if d == 7 { '7' }
    else if d == 8 { '8' }
    else { '9' }
}

/// Decimal notation of `n`, without leading zeros.
pub open spec fn decimal(n: nat) -> Seq<char>
    decreases n,
{
    if n < 10 {
        seq![digit_char(n)]
    } else {
        decimal(n / 10) + seq![digit_char(n % 10)]
    }
}

fn digit_str(d: usize) -> (r: &'static str)
    requires
        d < 10,
    ensures
        r@ == seq![digit_char(d as nat)],
{
    if d == 0 {
        proof { reveal_strlit("0"); }
        "0"
    } else if d == 1 {
        proof { reveal_strlit("1"); }
        "1"
    } else if d == 2 {
        proof { reveal_strlit("2"); }
        "2"
    } else if d == 3 {
        proof { reveal_strlit("3"); }
        "3"
    } else if d == 4 {
        proof { reveal_strlit("4"); }
        "4"
    } else if d == 5 {
        proof { reveal_strlit("5"); }
        "5"
    } else if d == 6 {
        proof { reveal_strlit("6"); }
        "6"
    } else if d == 7 {
        proof { reveal_strlit("7"); }
        "7"
    } else if d == 8 {
        proof { reveal_strlit("8"); }
        "8"
    } else {
        proof { reveal_strlit("9"); }
        "9"
    }
}

/// Appends the decimal notation of `n` to `out`.
fn push_decimal(out: &mut String, n: usize)
    ensures
        final(out)@ == old(out)@ + decimal(n as nat),
    decreases n,
{
    if n >= 10 {
        push_decimal(out, n / 10);
    }
    out.append(digit_str(n % 10));
    proof {
        assert(final(out)@ =~= old(out)@ + decimal(n as nat));
    }
}

/// The display name of a crossover strategy: `MA(<fast>,<slow>)/<symbol>`.
pub open spec fn crossover_name(symbol: Seq<char>, fast: nat, slow: nat) -> Seq<char> {
    "MA("@ + decimal(fast) + ","@ + decimal(slow) + ")/"@ + symbol
}

/// The direction a crossover reading calls for.
pub open spec fn crossover_direction(fast_above_slow: bool) -> SignalDirection {
    if fast_above_slow {
        SignalDirection::Long
    } else {
        SignalDirection::Short
    }
}

/// The signal a reading produces, given the direction of the last signal.
pub open spec fn crossover_signal(last: Option<SignalDirection>, fast_above_slow: bool) -> Option<SignalDirection> {
    if last == Some(crossover_direction(fast_above_slow)) {
        None
    } else {
        Some(crossover_direction(fast_above_slow))
    }
}

/// Signals mark changes only: the reading that produced (or confirmed) a
/// direction produces no signal when repeated, the opposite reading always
/// signals, and after a reset any reading signals.
pub proof fn lemma_signals_on_change_only(fast_above_slow: bool)
    ensures
        crossover_signal(Some(crossover_direction(fast_above_slow)), fast_above_slow) == None::<SignalDirection>,
        crossover_signal(Some(crossover_direction(fast_above_slow)), !fast_above_slow) == Some(
            crossover_direction(!fast_above_slow),
        ),
        crossover_signal(None, fast_above_slow) == Some(crossover_direction(fast_above_slow)),
{
}

/// The signals a run of readings emits, starting from last direction `last`:
/// a reading emits exactly when its direction differs from the direction of
/// the reading before it (or from `last`, for the first reading).
pub open spec fn crossover_signals(last: Option<SignalDirection>, readings: Seq<bool>) -> Seq<SignalDirection>
    decreases readings.len(),
{
    if readings.len() == 0 {
        Seq::empty()
    } else {
        let rest = crossover_signals(Some(crossover_direction(readings[0])), readings.drop_first());
        match crossover_signal(last, readings[0]) {
            Some(d) => seq![d] + rest,
            None => rest,
        }
    }
}

/// Over any run of readings, every signal is long or short, the first one
/// differs from the direction signalled last, and consecutive signals
/// alternate between long and short.
pub proof fn lemma_signals_alternate(last: Option<SignalDirection>, readings: Seq<bool>)
    ensures
        forall|i: int|
            0 <= i < crossover_signals(last, readings).len() ==> (#[trigger] crossover_signals(last, readings)[i]
                == SignalDirection::Long || crossover_signals(last, readings)[i] == SignalDirection::Short),
        crossover_signals(last, readings).len() > 0 ==> last != Some(crossover_signals(last, readings)[0]),
        forall|i: int|
            0 <= i < crossover_signals(last, readings).len() - 1 ==> #[trigger] crossover_signals(last, readings)[i]
                != crossover_signals(last, readings)[i + 1],
    decreases readings.len(),
{
    if readings.len() > 0 {
        let d0 = crossover_direction(readings[0]);
        let rest = crossover_signals(Some(d0), readings.drop_first());
        lemma_signals_alternate(Some(d0), readings.drop_first());
        let e = crossover_signals(last, readings);
        match crossover_signal(last, readings[0]) {
            Some(d) => {
                assert(e == seq![d] + rest);
                assert forall|i: int| 0 <= i < e.len() - 1 implies #[trigger] e[i] != e[i + 1] by {
                    if i > 0 {
                        assert(e[i] == rest[i - 1] && e[i + 1] == rest[i]);
                    }
                }
                assert forall|i: int| 0 <= i < e.len() implies (#[trigger] e[i] == SignalDirection::Long || e[i]
                    == SignalDirection::Short) by {
                    if i > 0 {
                        assert(e[i] == rest[i - 1]);
                    }
                }
            },
            None => {
                assert(e == rest);
            },
        }
    }
}

/// The directions among `results`, in order, skipping the `None`s.
pub open spec fn emitted_directions(results: Seq<Option<SignalDirection>>) -> Seq<SignalDirection>
    decreases results.len(),
{
    if results.len() == 0 {
        Seq::empty()
    } else {
        let rest = emitted_directions(results.drop_first());
        match results[0] {
            Some(d) => seq![d] + rest,
            None => rest,
        }
    }
}

/// Classic moving-average crossover.
///
/// Goes long when the fast SMA crosses above the slow SMA and short on the
/// opposite cross. Useful as a reference strategy for tests and demos.
pub struct MovingAverageCrossover {
    symbol: String,
    fast: usize,
    slow: usize,
    last_direction: Option<SignalDirection>,
    name: String,
}

impl MovingAverageCrossover {
    pub closed spec fn symbol_spec(self) -> Seq<char> {
        self.symbol@
    }

    pub closed spec fn fast_spec(self) -> nat {
        self.fast as nat
    }

    pub closed spec fn slow_spec(self) -> nat {
        self.slow as nat
    }

    /// The direction of the last signal emitted since creation or reset.
    pub closed spec fn last_direction_spec(self) -> Option<SignalDirection> {
        self.last_direction
    }

    pub closed spec fn name_spec(self) -> Seq<char> {
        self.name@
    }

    pub closed spec fn well_formed(self) -> bool {
        &&& self.fast < self.slow
        &&& self.name@ == crossover_name(self.symbol@, self.fast as nat, self.slow as nat)
    }

    /// A crossover on `symbol` with a `fast`-bar and a `slow`-bar average.
    pub fn new(symbol: &str, fast: usize, slow: usize) -> (r: Self)
        requires
            fast < slow,
        ensures
            r.well_formed(),
            r.symbol_spec() == symbol@,
            r.fast_spec() == fast,
            r.slow_spec() == slow,
            r.last_direction_spec() == None::<SignalDirection>,
            r.name_spec() == crossover_name(symbol@, fast as nat, slow as nat),
    {
        let mut name = String::new();
        name.append("MA(");
        push_decimal(&mut name, fast);
        name.append(",");
        push_decimal(&mut name, slow);
        name.append(")/");
        name.append(symbol);
        proof {
            assert(name@ =~= crossover_name(symbol@, fast as nat, slow as nat));
        }
        MovingAverageCrossover {
            symbol: symbol.to_owned(),
            fast,
            slow,
            last_direction: None,
            name,
        }
    }

    pub fn name(&self) -> (r: &str)
        ensures
            r@ == self.name_spec(),
    {
        self.name.as_str()
    }

    pub fn symbol(&self) -> (r: &str)
        ensures
            r@ == self.symbol_spec(),
    {
        self.symbol.as_str()
    }

    pub fn fast(&self) -> (r: usize)
        ensures
            r == self.fast_spec(),
    {
        self.fast
    }

    pub fn slow(&self) -> (r: usize)
        ensures
            r == self.slow_spec(),
    {
        self.slow
    }

    /// Whether a bar of `bar_symbol`, with `history_len` bars of history
    /// available, gives a reading: the bar must be of the watched symbol and
    /// the history must cover the slow window. Bars that give no reading emit
    /// nothing and leave the strategy unchanged.
    pub fn wants_reading(&self, bar_symbol: &str, history_len: usize) -> (r: bool)
        ensures
            r == (bar_symbol@ == self.symbol_spec() && history_len >= self.slow_spec()),
    {
        let s = bar_symbol.to_owned();
        s == self.symbol && history_len >= self.slow
    }

    /// The signal for a new crossover reading: `fast_above_slow` tells whether
    /// the fast average is above the slow one. A signal is emitted only when
    /// the direction differs from the last one emitted.
    pub fn on_reading(&mut self, fast_above_slow: bool) -> (r: Option<SignalDirection>)
        ensures
            final(self).symbol_spec() == old(self).symbol_spec(),
            final(self).fast_spec() == old(self).fast_spec(),
            final(self).slow_spec() == old(self).slow_spec(),
            final(self).name_spec() == old(self).name_spec(),
            old(self).well_formed() ==> final(self).well_formed(),
            final(self).last_direction_spec() == Some(crossover_direction(fast_above_slow)),
            r == crossover_signal(old(self).last_direction_spec(), fast_above_slow),
    {
        let new_dir = if fast_above_slow {
            SignalDirection::Long
        } else {
            SignalDirection::Short
        };
        let unchanged = match self.last_direction {
            Some(d) => d == new_dir,
            None => false,
        };
        if unchanged {
            return None;
        }
        self.last_direction = Some(new_dir);
        Some(new_dir)
    }

    /// Successive calls of [`Self::on_reading`], the `i`-th taking
    /// `states[i]` to `states[i + 1]` with reading `readings[i]` and
    /// returning `results[i]`, emit exactly `crossover_signals` of the
    /// readings from the direction last signalled in `states[0]` (none after
    /// `new` or `reset`): consecutive signals alternate between long and
    /// short, and the first differs from the direction last signalled.
    pub proof fn lemma_reading_calls_alternate(
        states: Seq<Self>,
        readings: Seq<bool>,
        results: Seq<Option<SignalDirection>>,
    )
        requires
            states.len() == readings.len() + 1,
            results.len() == readings.len(),
            forall|i: int|
                0 <= i < readings.len() ==> {
                    &&& #[trigger] results[i] == crossover_signal(states[i].last_direction_spec(), readings[i])
                    &&& states[i + 1].last_direction_spec() == Some(crossover_direction(readings[i]))
                },
        ensures
            emitted_directions(results) == crossover_signals(states[0].last_direction_spec(), readings),
            emitted_directions(results).len() > 0 ==> states[0].last_direction_spec() != Some(
                emitted_directions(results)[0],
            ),
            forall|i: int|
                0 <= i < emitted_directions(results).len() - 1 ==> #[trigger] emitted_directions(results)[i]
                    != emitted_directions(results)[i + 1],
        decreases readings.len(),
    {
        let last = states[0].last_direction_spec();
        if readings.len() > 0 {
            let ts = states.drop_first();
            let tr = readings.drop_first();
            let tx = results.drop_first();
            assert forall|i: int| 0 <= i < tr.len() implies {
                &&& #[trigger] tx[i] == crossover_signal(ts[i].last_direction_spec(), tr[i])
                &&& ts[i + 1].last_direction_spec() == Some(crossover_direction(tr[i]))
            } by {
                assert(results[i + 1] == crossover_signal(states[i + 1].last_direction_spec(), readings[i + 1]));
            }
            Self::lemma_reading_calls_alternate(ts, tr, tx);
            assert(results[0] == crossover_signal(last, readings[0]));
            assert(ts[0].last_direction_spec() == Some(crossover_direction(readings[0])));
        } else {
            assert(emitted_directions(results) =~= Seq::<SignalDirection>::empty());
        }
        lemma_signals_alternate(last, readings);
    }

    /// Forgets the last direction: the next reading always emits a signal.
    pub fn reset(&mut self)
        ensures
            final(self).symbol_spec() == old(self).symbol_spec(),
            final(self).fast_spec() == old(self).fast_spec(),
            final(self).slow_spec() == old(self).slow_spec(),
            final(self).name_spec() == old(self).name_spec(),
            old(self).well_formed() ==> final(self).well_formed(),
            final(self).last_direction_spec() == None::<SignalDirection>,
    {
        self.last_direction = None;
    }
}

} // verus!
