//! Reduction of a single unsigned integer under a predicate: small-value
//! probes, right-shift descent, single-bit clears, bit sorting, a decrement
//! probe and a final binary search. The search itself is a resumable
//! probe/answer machine, so that the shrinker can run it while its predicate
//! is a whole test execution; `minimize_integer` drives the machine with an
//! ordinary callable predicate.

use vstd::prelude::*;

verus! {

/// Bound below which every value is probed directly.
pub const SMALL: u64 = 5;

/// How many direct small probes a start value gets.
pub open spec fn small_bound(start: u64) -> u64 {
    if start < SMALL {
        start
    } else {
        SMALL
    }
}

/// A criterion that never rejects a value it has accepted: once true, true
/// for everything at least as large.
pub open spec fn q_monotone(q: spec_fn(u64) -> bool) -> bool {
    forall|v: u64, w: u64| #[trigger] q(v) && v <= w ==> #[trigger] q(w)
}

/// The deterministic predicate `q` decides the criterion: every answer the
/// criterion can return agrees with `q`.
pub open spec fn decides<F: Fn(u64) -> Result<bool, T>, T>(criterion: F, q: spec_fn(u64) -> bool) -> bool {
    forall|x: u64, out: Result<bool, T>|
        #[trigger] criterion.ensures((x,), out) ==> (out matches Ok(b) ==> b == q(x))
}

/// What a completed minimization from `start` under deciding predicate `q`
/// guarantees of its result `v`: never above `start`; accepted by `q` unless
/// nothing below `start` ever was; a local boundary, in that `v - 1` is
/// rejected (unless `v` is the untouched start or zero); and for a monotone
/// predicate exactly the least accepted value (or `start` itself when
/// `start` is rejected).
pub open spec fn minimize_outcome(start: u64, q: spec_fn(u64) -> bool, v: u64) -> bool {
    &&& v <= start
    &&& (v == start || q(v))
    &&& (v == start || v == 0 || !q((v - 1) as u64))
    &&& (q_monotone(q) ==> (if q(start) {
        q(v) && (v == 0 || !q((v - 1) as u64))
    } else {
        v == start
    }))
}

/// Where the machine stands in the fixed pass order.
#[derive(Clone, Copy)]
pub(crate) enum MinStage {
    /// Probing `i` directly, for `i` below `small_bound(start)`.
    SmallProbe { i: u64 },
    /// Probing `best >> 1` repeatedly while it keeps succeeding.
    Shift,
    /// Probing `best` with bit `i` cleared.
    BitClear { i: u64 },
    /// Probing `best` with set bit `i` moved down to clear bit `j`.
    BitSort { i: u64, j: u64 },
    /// Probing `best - 1` once.
    Decrement,
    /// Binary search between the rejected `lo` and the accepted `best`.
    BinSearch { lo: u64 },
    /// The minimization is complete; `best` is the answer.
    Finished,
}

/// The probe/answer machine. Feed it the criterion's verdict on each value
/// it asks about; `best` only ever goes down, and only to accepted values.
#[derive(Clone, Copy)]
pub(crate) struct IntMinimizer {
    pub(crate) start: u64,
    pub(crate) best: u64,
    pub(crate) stage: MinStage,
}

/// What the machine asks for next: the criterion's verdict on a value, or
/// nothing, because the minimization is done.
pub(crate) enum MinimizeStep {
    Probe(u64),
    Done(u64),
}

impl IntMinimizer {
    /// Sanity of the machine state, independent of any predicate.
    pub(crate) open spec fn inv(self) -> bool {
        &&& self.best <= self.start
        &&& match self.stage {
            MinStage::SmallProbe { i } => self.best == self.start && i < small_bound(self.start) && self.start > 0,
            MinStage::Shift => self.best > 0,
            MinStage::BitClear { i } => i < 64 && self.best & (1u64 << i) != 0,
            MinStage::BitSort { i, j } => j < i && i < 64 && self.best & (1u64 << i) != 0 && self.best & (1u64 << j) == 0,
            MinStage::Decrement => self.best > 0,
            MinStage::BinSearch { lo } => lo + 1 < self.best,
            MinStage::Finished => true,
        }
    }

    /// The value the machine is currently asking about.
    pub(crate) open spec fn pending_probe(self) -> u64 {
        match self.stage {
            MinStage::SmallProbe { i } => i,
            MinStage::Shift => self.best >> 1,
            MinStage::BitClear { i } => self.best ^ (1u64 << i),
            MinStage::BitSort { i, j } => self.best ^ ((1u64 << i) | (1u64 << j)),
            MinStage::Decrement => (self.best - 1) as u64,
            MinStage::BinSearch { lo } => (lo + (self.best - lo) / 2) as u64,
            MinStage::Finished => 0,
        }
    }

    /// The machine's history is consistent with answers given by `q`.
    pub(crate) open spec fn consistent_with(self, q: spec_fn(u64) -> bool) -> bool {
        &&& (self.best == self.start || q(self.best))
        &&& match self.stage {
            MinStage::SmallProbe { i } => forall|w: u64| w < i ==> !#[trigger] q(w),
            MinStage::Shift | MinStage::BitClear { .. } | MinStage::BitSort { .. } | MinStage::Decrement => {
                self.start > SMALL && (forall|w: u64| w < SMALL ==> !#[trigger] q(w))
            },
            MinStage::BinSearch { lo } => {
                &&& self.start > SMALL
                &&& (forall|w: u64| w < SMALL ==> !#[trigger] q(w))
                &&& q(self.best)
                &&& !q(lo)
            },
            MinStage::Finished => minimize_outcome(self.start, q, self.best),
        }
    }

    /// Rank of the stage in the fixed pass order, for termination.
    pub(crate) open spec fn stage_ord(self) -> int {
        match self.stage {
            MinStage::SmallProbe { .. } => 6,
            MinStage::Shift => 5,
            MinStage::BitClear { .. } => 4,
            MinStage::BitSort { .. } => 3,
            MinStage::Decrement => 2,
            MinStage::BinSearch { .. } => 1,
            MinStage::Finished => 0,
        }
    }

    /// Remaining work within the current stage, for termination.
    pub(crate) open spec fn stage_sub(self) -> int {
        match self.stage {
            MinStage::SmallProbe { i } => small_bound(self.start) - i,
            MinStage::Shift => self.best as int,
            MinStage::BitClear { i } => 64 - i,
            MinStage::BitSort { i, j } => (64 - i) * 64 + j,
            MinStage::Decrement => 0,
            MinStage::BinSearch { lo } => self.best - lo,
            MinStage::Finished => 0,
        }
    }

    /// The machine asks its next question, or declares the result.
    pub(crate) open spec fn step_ok(self, cmd: MinimizeStep) -> bool {
        match cmd {
            MinimizeStep::Probe(c) => c == self.pending_probe() && !(self.stage is Finished) && c < self.best,
            MinimizeStep::Done(v) => v == self.best && self.stage is Finished,
        }
    }

    /// Starts a minimization of `start`. A zero start is already minimal and
    /// asks no questions.
    pub(crate) fn begin(start: u64) -> (r: (IntMinimizer, MinimizeStep))
        ensures
            r.0.inv(),
            r.0.start == start,
            r.0.best == start,
            r.0.best <= start,
            r.0.step_ok(r.1),
            forall|q: spec_fn(u64) -> bool| r.1 is Probe ==> #[trigger] r.0.consistent_with(q),
            forall|q: spec_fn(u64) -> bool| r.1 is Done ==> #[trigger] minimize_outcome(start, q, r.0.best),
    {
        if start == 0 {
            let m = IntMinimizer { start, best: 0, stage: MinStage::Finished };
            (m, MinimizeStep::Done(0))
        } else {
            let m = IntMinimizer { start, best: start, stage: MinStage::SmallProbe { i: 0 } };
            (m, MinimizeStep::Probe(0))
        }
    }

    /// Feeds the criterion's verdict on the pending probe and advances to
    /// the next question, or to the result. `best` never goes up, and every
    /// answer consistent with a deciding predicate keeps the machine
    /// consistent with it.
    pub(crate) fn feed(&mut self, answer: bool) -> (cmd: MinimizeStep)
        requires
            old(self).inv(),
            !(old(self).stage is Finished),
        ensures
            final(self).inv(),
            final(self).start == old(self).start,
            final(self).best <= old(self).best,
            !answer ==> final(self).best == old(self).best,
            final(self).step_ok(cmd),
            cmd is Probe ==> final(self).stage_ord() < old(self).stage_ord() || (final(self).stage_ord()
                == old(self).stage_ord() && final(self).stage_sub() < old(self).stage_sub()),
            forall|q: spec_fn(u64) -> bool|
                (#[trigger] old(self).consistent_with(q)) && answer == q(old(self).pending_probe())
                    ==> (cmd is Probe ==> final(self).consistent_with(q)) && (cmd is Done
                    ==> minimize_outcome(final(self).start, q, final(self).best)),
    {
        let stage = self.stage;
        match stage {
            MinStage::SmallProbe { i } => {
                if answer {
                    self.best = i;
                    self.stage = MinStage::Finished;
                    proof {
                        assert forall|q: spec_fn(u64) -> bool|
                            old(self).consistent_with(q) && answer == q(old(self).pending_probe())
                                implies minimize_outcome(self.start, q, self.best) by {
                            if q_monotone(q) {
                                assert(q(i));
                                assert(i <= self.start);
                                assert(q(self.start));
                            }
                        }
                    }
                    MinimizeStep::Done(i)
                } else {
                    let ni = i + 1;
                    let bound = if self.start < SMALL { self.start } else { SMALL };
                    if ni < bound {
                        self.stage = MinStage::SmallProbe { i: ni };
                        MinimizeStep::Probe(ni)
                    } else if self.start <= SMALL {
                        self.stage = MinStage::Finished;
                        proof {
                            assert forall|q: spec_fn(u64) -> bool|
                                old(self).consistent_with(q) && answer == q(old(self).pending_probe())
                                    implies minimize_outcome(self.start, q, self.best) by {
                                assert(forall|w: u64| w < ni ==> !#[trigger] q(w));
                                if q_monotone(q) && q(self.start) {
                                    assert(!q((self.start - 1) as u64));
                                }
                            }
                        }
                        MinimizeStep::Done(self.best)
                    } else {
                        proof {
                            let b = self.best;
                            assert(b > 0 ==> b >> 1 < b) by (bit_vector);
                        }
                        self.stage = MinStage::Shift;
                        MinimizeStep::Probe(self.best >> 1)
                    }
                }
            },
            MinStage::Shift => {
                if answer {
                    let nb = self.best >> 1;
                    proof {
                        let b = self.best;
                        assert(b > 0 ==> b >> 1 < b) by (bit_vector);
                        assert((b >> 1) > 0 ==> ((b >> 1) >> 1) < (b >> 1)) by (bit_vector);
                    }
                    self.best = nb;
                    if nb > 0 {
                        self.stage = MinStage::Shift;
                        MinimizeStep::Probe(nb >> 1)
                    } else {
                        self.enter_bit_clear(0)
                    }
                } else {
                    self.enter_bit_clear(0)
                }
            },
            MinStage::BitClear { i } => {
                if answer {
                    proof {
                        let b = self.best;
                        let bi = i;
                        assert(bi < 64 && b & (1u64 << bi) != 0 ==> (b ^ (1u64 << bi)) < b) by (bit_vector);
                    }
                    self.best = self.best ^ (1u64 << i);
                }
                if i < 63 {
                    self.enter_bit_clear(i + 1)
                } else {
                    self.enter_bit_sort(1, 0)
                }
            },
            MinStage::BitSort { i, j } => {
                if answer {
                    proof {
                        let b = self.best;
                        let bi = i;
                        let bj = j;
                        assert(bj < bi && bi < 64 && b & (1u64 << bi) != 0 && b & (1u64 << bj) == 0
                            ==> (b ^ ((1u64 << bi) | (1u64 << bj))) < b) by (bit_vector);
                    }
                    self.best = self.best ^ ((1u64 << i) | (1u64 << j));
                }
                if j > 0 {
                    self.enter_bit_sort(i, j - 1)
                } else {
                    self.enter_bit_sort(i + 1, i)
                }
            },
            MinStage::Decrement => {
                if answer {
                    self.best = self.best - 1;
                    if self.best > 1 {
                        self.stage = MinStage::BinSearch { lo: 0 };
                        proof {
                            assert forall|q: spec_fn(u64) -> bool|
                                old(self).consistent_with(q) && answer == q(old(self).pending_probe())
                                    implies self.consistent_with(q) by {
                                assert(q(self.best));
                                assert(!q(0u64));
                            }
                        }
                        MinimizeStep::Probe(0 + (self.best - 0) / 2)
                    } else {
                        self.stage = MinStage::Finished;
                        proof {
                            assert forall|q: spec_fn(u64) -> bool|
                                old(self).consistent_with(q) && answer == q(old(self).pending_probe())
                                    implies minimize_outcome(self.start, q, self.best) by {
                                assert(q(self.best));
                                assert(self.best <= 1 < SMALL);
                                assert(false);
                            }
                        }
                        MinimizeStep::Done(self.best)
                    }
                } else {
                    self.stage = MinStage::Finished;
                    proof {
                        assert forall|q: spec_fn(u64) -> bool|
                            old(self).consistent_with(q) && answer == q(old(self).pending_probe())
                                implies minimize_outcome(self.start, q, self.best) by {
                            assert(!q((self.best - 1) as u64));
                        }
                    }
                    MinimizeStep::Done(self.best)
                }
            },
            MinStage::BinSearch { lo } => {
                let mid = lo + (self.best - lo) / 2;
                let nlo: u64;
                if answer {
                    self.best = mid;
                    nlo = lo;
                } else {
                    nlo = mid;
                }
                if nlo + 1 < self.best {
                    self.stage = MinStage::BinSearch { lo: nlo };
                    MinimizeStep::Probe(nlo + (self.best - nlo) / 2)
                } else {
                    self.stage = MinStage::Finished;
                    proof {
                        assert forall|q: spec_fn(u64) -> bool|
                            old(self).consistent_with(q) && answer == q(old(self).pending_probe())
                                implies minimize_outcome(self.start, q, self.best) by {
                            assert(q(self.best));
                            assert(!q(nlo));
                            assert(nlo == self.best - 1);
                        }
                    }
                    MinimizeStep::Done(self.best)
                }
            },
            MinStage::Finished => {
                proof {
                    assert(false);
                }
                MinimizeStep::Done(self.best)
            },
        }
    }

    /// Moves to the next single-bit clear probe at or after bit `from`, or
    /// on to bit sorting when no set bit is left.
    fn enter_bit_clear(&mut self, from: u64) -> (cmd: MinimizeStep)
        requires
            old(self).best <= old(self).start,
            from <= 64,
        ensures
            final(self).inv(),
            final(self).start == old(self).start,
            final(self).best == old(self).best,
            final(self).step_ok(cmd),
            cmd is Probe ==> final(self).stage_ord() < 4 || (final(self).stage_ord() == 4
                && final(self).stage_sub() < 64 - from + 1),
            forall|q: spec_fn(u64) -> bool|
                #![trigger q(old(self).best)]
                old(self).start > SMALL && (old(self).best == old(self).start || q(old(self).best))
                    && (forall|w: u64| w < SMALL ==> !#[trigger] q(w)) ==> (cmd is Probe
                    ==> final(self).consistent_with(q)) && (cmd is Done ==> minimize_outcome(
                    final(self).start,
                    q,
                    final(self).best,
                )),
        decreases 64 - from,
    {
        if from < 64 {
            if self.best & (1u64 << from) != 0 {
                self.stage = MinStage::BitClear { i: from };
                proof {
                    let b = self.best;
                    let bi = from;
                    assert(bi < 64 && b & (1u64 << bi) != 0 ==> (b ^ (1u64 << bi)) < b) by (bit_vector);
                }
                MinimizeStep::Probe(self.best ^ (1u64 << from))
            } else {
                self.enter_bit_clear(from + 1)
            }
        } else {
            self.enter_bit_sort(1, 0)
        }
    }

    /// Moves to the next bit-sort probe at or after the pair `(i, j)` in the
    /// fixed pair order, or on to the decrement probe when none is left.
    fn enter_bit_sort(&mut self, i: u64, j: u64) -> (cmd: MinimizeStep)
        requires
            old(self).best <= old(self).start,
            j < i,
        ensures
            final(self).inv(),
            final(self).start == old(self).start,
            final(self).best == old(self).best,
            final(self).step_ok(cmd),
            cmd is Probe ==> final(self).stage_ord() < 3 || (final(self).stage_ord() == 3
                && final(self).stage_sub() <= (64 - i) * 64 + j),
            forall|q: spec_fn(u64) -> bool|
                #![trigger q(old(self).best)]
                old(self).start > SMALL && (old(self).best == old(self).start || q(old(self).best))
                    && (forall|w: u64| w < SMALL ==> !#[trigger] q(w)) ==> (cmd is Probe
                    ==> final(self).consistent_with(q)) && (cmd is Done ==> minimize_outcome(
                    final(self).start,
                    q,
                    final(self).best,
                )),
        decreases (64 - i) * 64 + j,
    {
        if i >= 64 {
            if self.best == 0 {
                self.stage = MinStage::Finished;
                proof {
                    assert forall|q: spec_fn(u64) -> bool|
                        old(self).start > SMALL && (old(self).best == old(self).start || q(old(self).best))
                            && (forall|w: u64| w < SMALL ==> !#[trigger] q(w))
                            implies minimize_outcome(self.start, q, self.best) by {
                        assert(self.best == 0 && self.start > SMALL);
                        assert(q(0u64) && !q(0u64));
                    }
                }
                MinimizeStep::Done(self.best)
            } else {
                self.stage = MinStage::Decrement;
                MinimizeStep::Probe(self.best - 1)
            }
        } else if self.best & (1u64 << i) != 0 && self.best & (1u64 << j) == 0 {
            self.stage = MinStage::BitSort { i, j };
            proof {
                let b = self.best;
                let bi = i;
                let bj = j;
                assert(bj < bi && bi < 64 && b & (1u64 << bi) != 0 && b & (1u64 << bj) == 0
                    ==> (b ^ ((1u64 << bi) | (1u64 << bj))) < b) by (bit_vector);
            }
            MinimizeStep::Probe(self.best ^ ((1u64 << i) | (1u64 << j)))
        } else if j > 0 {
            self.enter_bit_sort(i, j - 1)
        } else {
            self.enter_bit_sort(i + 1, i)
        }
    }
}

/// Reduces `start` under `criterion`: the returned value is never above
/// `start`, and whenever a deterministic predicate `q` decides the
/// criterion, the result satisfies `minimize_outcome` for `q` — in
/// particular, for a monotone `q` it is exactly the least accepted value.
/// An error is only ever one the criterion itself returned, so a criterion
/// that cannot err always yields a value, and a zero start yields zero
/// without any probe.
pub fn minimize_integer<F, T>(start: u64, criterion: F) -> (res: Result<u64, T>) where
    F: Fn(u64) -> Result<bool, T>,

    requires
        forall|x: u64| #[trigger] criterion.requires((x,)),
    ensures
        res matches Ok(v) ==> v <= start,
        forall|q: spec_fn(u64) -> bool| #[trigger]
            decides::<F, T>(criterion, q) ==> (res matches Ok(v) ==> minimize_outcome(start, q, v)),
        res is Err ==> exists|c: u64, e: T|
            #[trigger] criterion.ensures((c,), Result::<bool, T>::Err(e)) && res == Result::<u64, T>::Err(e),
        (forall|c: u64, out: Result<bool, T>| #[trigger] criterion.ensures((c,), out) ==> out is Ok)
            ==> res is Ok,
        start == 0 ==> res == Ok::<u64, T>(0),
{
    let (mut m, mut cmd) = IntMinimizer::begin(start);
    proof {
        assert forall|q: spec_fn(u64) -> bool| #[trigger]
            decides::<F, T>(criterion, q) implies (cmd is Probe ==> m.consistent_with(q)) && (cmd
            is Done ==> minimize_outcome(start, q, m.best)) by {
            if cmd is Probe {
                assert(m.consistent_with(q));
            } else {
                assert(minimize_outcome(start, q, m.best));
            }
        }
    }
    loop
        invariant
            forall|x: u64| #[trigger] criterion.requires((x,)),
            m.inv(),
            m.start == start,
            m.best <= start,
            m.step_ok(cmd),
            forall|q: spec_fn(u64) -> bool| #[trigger]
                decides::<F, T>(criterion, q) ==> (cmd is Probe ==> m.consistent_with(q)) && (cmd
                is Done ==> minimize_outcome(start, q, m.best)),
        decreases m.stage_ord(), m.stage_sub(),
    {
        match cmd {
            MinimizeStep::Done(v) => {
                return Ok(v);
            },
            MinimizeStep::Probe(c) => {
                match criterion(c) {
                    Err(e) => {
                        proof {
                            let ghost cw = c;
                            let ghost ew = e;
                            assert(criterion.ensures((cw,), Result::<bool, T>::Err(ew)));
                            assert(start == 0 ==> false) by {
                                if start == 0 {
                                    assert(c < m.best);
                                }
                            }
                        }
                        return Err(e);
                    },
                    Ok(b) => {
                        proof {
                            assert forall|q: spec_fn(u64) -> bool| #[trigger]
                                decides::<F, T>(criterion, q) implies b == q(c) by {
                                assert(criterion.ensures((c,), Ok::<bool, T>(b)));
                            }
                        }
                        cmd = m.feed(b);
                    },
                }
            },
        }
    }
}

/// Minimizing an already-minimized value changes nothing: for a monotone
/// deterministic criterion the result of a run is the least accepted value
/// (or the start itself when it is rejected), and that value is a fixed
/// point of a second run. For a non-monotone criterion a second run may
/// genuinely descend further, so the law is stated for monotone criteria.
pub proof fn lemma_minimize_idempotent(start: u64, v: u64, w: u64, q: spec_fn(u64) -> bool)
    requires
        q_monotone(q),
        minimize_outcome(start, q, v),
        minimize_outcome(v, q, w),
    ensures
        w == v,
{
    if q(start) {
        assert(q(v));
        assert(q(w) && (w == 0 || !q((w - 1) as u64)));
        assert(w <= v);
        if w < v {
            assert(v > 0);
            assert(!q((v - 1) as u64));
            assert(q(w) && w <= (v - 1) as u64);
            assert(q((v - 1) as u64));
        }
    } else {
        assert(v == start);
        if q(v) {
            assert(q(start));
        }
        assert(w == v);
    }
}

} // verus!
