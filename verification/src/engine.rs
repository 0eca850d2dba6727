//! The engine: hands data sources to the host, takes execution results
//! back, and runs the whole replay / generate / shrink life cycle as a
//! resumable machine between those two calls. The host-visible handshake is
//! a strict alternation: every source handed out is answered by exactly one
//! result before the next source is produced.

use vstd::prelude::*;
use vstd::pervasive::VecAdditionalExecFns;

use crate::codec::{bytes_to_u64s, u64s_to_bytes};
use crate::data::{
    bytes_equal, copy_words, result_le, result_lt, valid_result, DataSource, Status, TestResult,
};
use crate::database::Database;
use crate::shrinker::{ShrinkCmd, ShrinkState};

verus! {

/// The phases a run may include. Without `Shrink`, the engine stops right
/// after generation finds an interesting example.
#[derive(Debug, PartialEq, Eq, Structural, Clone, Copy)]
pub enum Phase {
    Shrink,
}

impl Phase {
    /// Every phase there is.
    pub fn all() -> (r: Vec<Phase>)
        ensures
            r@.len() == 1,
            r@[0] == Phase::Shrink,
    {
        let mut v: Vec<Phase> = Vec::new();
        v.push(Phase::Shrink);
        v
    }
}

/// Why the generation loop stopped.
#[derive(Debug, Clone, Copy)]
pub(crate) enum LoopExitReason {
    /// Shrinking (or a shrink-less run) finished normally.
    Complete,
    /// The generation budget ran out without an interesting example.
    MaxExamples,
}

/// Where the engine's internal loop stands between two host calls.
pub(crate) enum CoreState {
    /// Nothing has run yet; the persisted examples are still to be fetched.
    Begin,
    /// Replaying previously persisted examples, one blob at a time.
    Replay { blobs: Vec<Vec<u8>>, idx: usize },
    /// Generating fresh random executions.
    Generate,
    /// Shrinking one label's best example.
    Shrink { st: ShrinkState },
    /// The run is over; queries are answered from the final state.
    Finished { reason: LoopExitReason },
}

/// Which of the two handshake calls the engine expects next.
#[derive(Debug, Clone, Copy, PartialEq, Eq, Structural)]
pub(crate) enum EngineState {
    AwaitingCompletion,
    ReadyToProvide,
}

/// A counter bumped by one, stopping at the top of its range.
pub open spec fn bumped(c: u64) -> u64 {
    if c < u64::MAX {
        (c + 1) as u64
    } else {
        c
    }
}

/// Some entry of the per-label map carries this label.
pub open spec fn has_label(m: Seq<(u64, TestResult)>, l: u64) -> bool {
    exists|i: int| 0 <= i < m.len() && (#[trigger] m[i]).0 == l
}

/// Entry `i` of `before` keeps its label in `after`, at a result that is no
/// greater in the shrink order.
pub open spec fn label_improved(before: Seq<(u64, TestResult)>, after: Seq<(u64, TestResult)>, i: int) -> bool {
    exists|j: int|
        0 <= j < after.len() && (#[trigger] after[j]).0 == before[i].0 && result_le(after[j].1, before[i].1)
}

/// The per-label map only ever improves: no label disappears, and no
/// label's best result grows in the shrink order.
pub open spec fn minimized_monotone(before: Seq<(u64, TestResult)>, after: Seq<(u64, TestResult)>) -> bool {
    forall|i: int| 0 <= i < before.len() ==> #[trigger] label_improved(before, after, i)
}

/// A map improves over itself.
pub proof fn lemma_minimized_monotone_refl(m: Seq<(u64, TestResult)>)
    ensures
        minimized_monotone(m, m),
{
    assert forall|i: int| 0 <= i < m.len() implies #[trigger] label_improved(m, m, i) by {
        assert(0 <= i < m.len() && m[i].0 == m[i].0 && result_le(m[i].1, m[i].1));
    }
}

/// The per-label improvement relation chains across any number of steps.
pub proof fn lemma_minimized_monotone_trans(
    a: Seq<(u64, TestResult)>,
    b: Seq<(u64, TestResult)>,
    c: Seq<(u64, TestResult)>,
)
    requires
        minimized_monotone(a, b),
        minimized_monotone(b, c),
    ensures
        minimized_monotone(a, c),
{
    assert forall|i: int| 0 <= i < a.len() implies #[trigger] label_improved(a, c, i) by {
        assert(label_improved(a, b, i));
        let j1 = choose|j1: int|
            0 <= j1 < b.len() && (#[trigger] b[j1]).0 == a[i].0 && result_le(b[j1].1, a[i].1);
        assert(label_improved(b, c, j1));
        let j2 = choose|j2: int|
            0 <= j2 < c.len() && (#[trigger] c[j2]).0 == b[j1].0 && result_le(c[j2].1, b[j1].1);
        crate::data::lemma_result_le_trans(c[j2].1, b[j1].1, a[i].1);
        assert(0 <= j2 < c.len() && c[j2].0 == a[i].0 && result_le(c[j2].1, a[i].1));
    }
}

/// The engine facade the host talks to, together with the whole state of
/// the generation loop it resumes between calls.
pub struct Engine<D: Database> {
    name: String,
    database: D,
    max_examples: u64,
    random: rand::ChaChaRng,
    phases: Vec<Phase>,

    best_example: Option<TestResult>,
    minimized: Vec<(u64, TestResult)>,
    fully_minimized: Vec<u64>,

    valid_examples: u64,
    invalid_examples: u64,
    interesting_examples: u64,

    state: CoreState,
    handshake: EngineState,
    pending: Option<TestResult>,
}

impl<D: Database> Engine<D> {
    /// The per-label map: each label the run has found interesting, with
    /// the smallest result seen for it.
    pub closed spec fn minimized_view(self) -> Seq<(u64, TestResult)> {
        self.minimized@
    }

    /// The engine expects `next_source` next.
    pub closed spec fn ready(self) -> bool {
        self.handshake is ReadyToProvide
    }

    /// The engine expects `mark_finished` next.
    pub closed spec fn awaiting(self) -> bool {
        self.handshake is AwaitingCompletion
    }

    /// The run is over.
    pub closed spec fn is_finished(self) -> bool {
        self.state is Finished
    }

    /// Executions that ran to completion without being interesting.
    pub closed spec fn valid_count(self) -> u64 {
        self.valid_examples
    }

    /// Executions that did not run to completion: rejected by the test's
    /// own preconditions, or cut short by source exhaustion. Both count
    /// toward the cap that stops generation under over-constrained
    /// preconditions.
    pub closed spec fn invalid_count(self) -> u64 {
        self.invalid_examples
    }

    /// Executions reported interesting.
    pub closed spec fn interesting_count(self) -> u64 {
        self.interesting_examples
    }

    /// The result handed back by `mark_finished` and not yet consumed.
    pub closed spec fn pending_view(self) -> Option<TestResult> {
        self.pending
    }

    /// The smallest interesting result seen so far, across all labels.
    pub closed spec fn best_view(self) -> Option<TestResult> {
        self.best_example
    }

    /// The configured target count of valid examples; generation also stops
    /// after ten times as many invalid or overflowed executions.
    pub closed spec fn max_examples_view(self) -> u64 {
        self.max_examples
    }

    /// Internal consistency: the per-label map holds one valid interesting
    /// result per distinct label; the fully-minimized set is a duplicate-free
    /// subset of the map's labels; and whatever loop state is live is itself
    /// consistent.
    pub closed spec fn inv(self) -> bool {
        &&& self.max_examples <= u64::MAX / 10
        &&& forall|i: int, j: int|
            0 <= i < j < self.minimized@.len() ==> (#[trigger] self.minimized@[i]).0 != (
            #[trigger] self.minimized@[j]).0
        &&& forall|i: int|
            0 <= i < self.minimized@.len() ==> valid_result((#[trigger] self.minimized@[i]).1)
                && self.minimized@[i].1.status == Status::Interesting(self.minimized@[i].0)
        &&& forall|i: int, j: int|
            0 <= i < j < self.fully_minimized@.len() ==> #[trigger] self.fully_minimized@[i]
                != #[trigger] self.fully_minimized@[j]
        &&& forall|k: int|
            0 <= k < self.fully_minimized@.len() ==> has_label(self.minimized@, #[trigger] self.fully_minimized@[k])
        &&& match self.best_example {
            Some(r) => valid_result(r),
            None => true,
        }
        &&& match self.pending {
            Some(r) => valid_result(r),
            None => true,
        }
        &&& match self.state {
            CoreState::Shrink { st } => st.inv() && self.interesting_examples > 0,
            CoreState::Finished { reason } => match reason {
                LoopExitReason::Complete => self.interesting_examples > 0,
                LoopExitReason::MaxExamples => self.valid_examples >= self.max_examples
                    || self.invalid_examples >= 10 * self.max_examples,
            },
            _ => true,
        }
        &&& (self.state is Finished ==> self.pending is None)
    }

    /// A fresh engine: nothing run, nothing persisted yet touched.
    pub fn new(name: String, max_examples: u64, phases: Vec<Phase>, seed: &[u32], db: D) -> (e: Engine<D>)
        requires
            max_examples <= u64::MAX / 10,
        ensures
            e.inv(),
            e.ready(),
            !e.is_finished(),
            e.minimized_view().len() == 0,
            e.valid_count() == 0,
            e.invalid_count() == 0,
            e.interesting_count() == 0,
            e.pending_view() is None,
            e.db_view() == db,
            e.max_examples_view() == max_examples,
    {
        Engine {
            name,
            database: db,
            max_examples,
            random: crate::random::chacha_from_seed(seed),
            phases,
            best_example: None,
            minimized: Vec::new(),
            fully_minimized: Vec::new(),
            valid_examples: 0,
            invalid_examples: 0,
            interesting_examples: 0,
            state: CoreState::Begin,
            handshake: EngineState::ReadyToProvide,
            pending: None,
        }
    }

    /// The run includes the shrink phase. `Shrink` is the only phase there
    /// is, so any non-empty phase list enables it.
    fn shrink_enabled(&self) -> (r: bool)
        ensures
            r == (exists|i: int| 0 <= i < self.phases@.len() && self.phases@[i] == Phase::Shrink),
    {
        if self.phases.len() > 0 {
            proof {
                assert(self.phases@[0] == Phase::Shrink);
            }
            true
        } else {
            false
        }
    }

    /// Bookkeeping for one completed execution: counters (an overflowed
    /// execution counts toward the same cap as an invalid one), the overall
    /// best, the per-label map (which only ever improves), the
    /// fully-minimized set, and the persisted blobs. An interesting result
    /// is always in the map afterwards.
    fn consume_result(&mut self, result: &TestResult)
        requires
            old(self).inv(),
            valid_result(*result),
        ensures
            final(self).inv(),
            minimized_monotone(old(self).minimized_view(), final(self).minimized_view()),
            forall|n: u64| result.status == Status::Interesting(n) ==> has_label(final(self).minimized_view(), n),
            forall|l: u64| has_label(old(self).minimized_view(), l) ==> has_label(final(self).minimized_view(), l),
            final(self).valid_examples == (if result.status == Status::Valid {
                bumped(old(self).valid_examples)
            } else {
                old(self).valid_examples
            }),
            final(self).invalid_examples == (if result.status == Status::Invalid || result.status
                == Status::Overflow {
                bumped(old(self).invalid_examples)
            } else {
                old(self).invalid_examples
            }),
            final(self).interesting_examples == (if result.status is Interesting {
                bumped(old(self).interesting_examples)
            } else {
                old(self).interesting_examples
            }),
            result.status is Interesting ==> (final(self).best_example matches Some(b)
                && b.record@ == result.record@ && b.status == result.status),
            !(result.status is Interesting) ==> final(self).best_example == old(self).best_example,
            final(self).state == old(self).state,
            final(self).handshake == old(self).handshake,
            final(self).pending == old(self).pending,
            final(self).max_examples == old(self).max_examples,
    {
        let ghost before = self.minimized@;
        match result.status {
            Status::Overflow => {
                // an exhausted source counts toward the generation cap, like
                // a failed precondition
                if self.invalid_examples < u64::MAX {
                    self.invalid_examples = self.invalid_examples + 1;
                }
                proof {
                    lemma_minimized_monotone_refl(before);
                }
            },
            Status::Invalid => {
                if self.invalid_examples < u64::MAX {
                    self.invalid_examples = self.invalid_examples + 1;
                }
                proof {
                    lemma_minimized_monotone_refl(before);
                }
            },
            Status::Valid => {
                if self.valid_examples < u64::MAX {
                    self.valid_examples = self.valid_examples + 1;
                }
                proof {
                    lemma_minimized_monotone_refl(before);
                }
            },
            Status::Interesting(n) => {
                self.best_example = Some(result.clone());
                // find this label's entry
                let mut k: usize = 0;
                let mut found = false;
                while k < self.minimized.len()
                    invariant_except_break
                        !found,
                    invariant
                        0 <= k <= self.minimized@.len(),
                        self.minimized@ == before,
                        forall|a: int| 0 <= a < k ==> (#[trigger] self.minimized@[a]).0 != n,
                    ensures
                        found ==> k < self.minimized@.len() && self.minimized@[k as int].0 == n,
                        !found ==> forall|a: int|
                            0 <= a < self.minimized@.len() ==> (#[trigger] self.minimized@[a]).0 != n,
                        self.minimized@ == before,
                        0 <= k <= self.minimized@.len(),
                    decreases self.minimized@.len() - k,
                {
                    if self.minimized[k].0 == n {
                        found = true;
                        break ;
                    }
                    k = k + 1;
                }
                if !found {
                    self.minimized.push((n, result.clone()));
                    proof {
                        assert(self.minimized@.drop_last() =~= before);
                        assert(forall|a: int| 0 <= a < before.len() ==> self.minimized@[a] == before[a]);
                        assert forall|l: u64| has_label(before, l) implies has_label(self.minimized@, l) by {
                            let w = choose|w: int| 0 <= w < before.len() && (#[trigger] before[w]).0 == l;
                            assert((#[trigger] self.minimized@[w]).0 == l);
                        }
                        assert forall|i: int| 0 <= i < before.len() implies #[trigger] label_improved(
                            before,
                            self.minimized@,
                            i,
                        ) by {
                            assert(self.minimized@[i] == before[i]);
                            assert(result_le(self.minimized@[i].1, before[i].1));
                        }
                        assert(self.minimized@[self.minimized@.len() - 1].0 == n);
                    }
                } else {
                    let improved = TestResult::stream_less(&result.record, &self.minimized[k].1.record);
                    if improved {
                        let stale = u64s_to_bytes(self.minimized[k].1.record.as_slice());
                        self.database.delete(self.name.as_str(), stale.as_slice());
                        self.minimized.set(k, (n, result.clone()));
                        proof {
                            assert forall|a: int, b: int|
                                0 <= a < b < self.minimized@.len() implies (#[trigger] self.minimized@[a]).0 != (
                                #[trigger] self.minimized@[b]).0 by {
                                assert(self.minimized@[a].0 == before[a].0);
                                assert(self.minimized@[b].0 == before[b].0);
                            }
                        }
                        self.remove_fully(n);
                        proof {
                            assert forall|i: int| 0 <= i < before.len() implies #[trigger] label_improved(
                                before,
                                self.minimized@,
                                i,
                            ) by {
                                if i == k {
                                    assert(self.minimized@[k as int].0 == before[k as int].0);
                                    assert(result_lt(self.minimized@[k as int].1, before[k as int].1));
                                    assert(result_le(self.minimized@[k as int].1, before[k as int].1));
                                } else {
                                    assert(self.minimized@[i] == before[i]);
                                    assert(result_le(self.minimized@[i].1, before[i].1));
                                }
                            }
                            assert(self.minimized@[k as int].0 == n);
                            assert(forall|a: int|
                                0 <= a < before.len() && a != k ==> self.minimized@[a] == before[a]);
                            assert forall|l: u64| has_label(before, l) implies has_label(self.minimized@, l) by {
                                let w = choose|w: int| 0 <= w < before.len() && (#[trigger] before[w]).0 == l;
                                assert((#[trigger] self.minimized@[w]).0 == l);
                            }
                            assert forall|kk: int|
                                0 <= kk < self.fully_minimized@.len() implies has_label(
                                self.minimized@,
                                #[trigger] self.fully_minimized@[kk],
                            ) by {
                                let l = self.fully_minimized@[kk];
                                assert(self.fully_minimized@.contains(l));
                                assert(old(self).fully_minimized@.contains(l));
                                let w = choose|w: int|
                                    0 <= w < old(self).fully_minimized@.len() && old(self).fully_minimized@[w] == l;
                                assert(has_label(before, l));
                            }
                        }
                    } else {
                        proof {
                            lemma_minimized_monotone_refl(before);
                            assert(self.minimized@[k as int].0 == n);
                        }
                    }
                }
                if self.interesting_examples < u64::MAX {
                    self.interesting_examples = self.interesting_examples + 1;
                }
                // persist the label's current best: the result itself when it
                // was inserted or took the entry over, the unbeaten entry
                // otherwise
                if found && k < self.minimized.len() {
                    let bytes = u64s_to_bytes(self.minimized[k].1.record.as_slice());
                    self.database.save(self.name.as_str(), bytes.as_slice());
                } else {
                    let bytes = u64s_to_bytes(result.record.as_slice());
                    self.database.save(self.name.as_str(), bytes.as_slice());
                }
            },
        }
    }

    /// Un-marks a label as fully minimized: its best just improved, so its
    /// shrink run must happen again.
    fn remove_fully(&mut self, n: u64)
        requires
            forall|i: int, j: int|
                0 <= i < j < old(self).fully_minimized@.len()
                    ==> #[trigger] old(self).fully_minimized@[i] != #[trigger] old(self).fully_minimized@[j],
        ensures
            final(self).fully_minimized@.len() <= old(self).fully_minimized@.len(),
            forall|i: int, j: int|
                0 <= i < j < final(self).fully_minimized@.len()
                    ==> #[trigger] final(self).fully_minimized@[i] != #[trigger] final(self).fully_minimized@[j],
            forall|l: u64|
                final(self).fully_minimized@.contains(l) ==> old(self).fully_minimized@.contains(l),
            final(self).minimized == old(self).minimized,
            final(self).state == old(self).state,
            final(self).handshake == old(self).handshake,
            final(self).pending == old(self).pending,
            final(self).valid_examples == old(self).valid_examples,
            final(self).invalid_examples == old(self).invalid_examples,
            final(self).interesting_examples == old(self).interesting_examples,
            final(self).best_example == old(self).best_example,
            final(self).max_examples == old(self).max_examples,
    {
        let ghost fm = self.fully_minimized@;
        let mut k: usize = 0;
        while k < self.fully_minimized.len()
            invariant
                fm == self.fully_minimized@,
                fm == old(self).fully_minimized@,
                forall|i: int, j: int|
                    0 <= i < j < fm.len() ==> #[trigger] fm[i] != #[trigger] fm[j],
                self.minimized == old(self).minimized,
                self.state == old(self).state,
                self.handshake == old(self).handshake,
                self.pending == old(self).pending,
                self.valid_examples == old(self).valid_examples,
                self.invalid_examples == old(self).invalid_examples,
                self.interesting_examples == old(self).interesting_examples,
                self.best_example == old(self).best_example,
                self.max_examples == old(self).max_examples,
                0 <= k <= fm.len(),
            decreases fm.len() - k,
        {
            if self.fully_minimized[k] == n {
                self.fully_minimized.remove(k);
                proof {
                    fm.remove_ensures(k as int);
                    assert(self.fully_minimized@ == fm.remove(k as int));
                    assert(self.fully_minimized@.len() == fm.len() - 1);
                    assert forall|l: u64| self.fully_minimized@.contains(l) implies fm.contains(l) by {
                        let a = choose|a: int| 0 <= a < self.fully_minimized@.len() && self.fully_minimized@[a] == l;
                        if a < k as int {
                            assert(fm.remove(k as int)[a] == fm[a]);
                            assert(fm[a] == l);
                        } else {
                            assert(fm.remove(k as int)[a] == fm[a + 1]);
                            assert(fm[a + 1] == l);
                        }
                    }
                    assert forall|i: int, j: int|
                        0 <= i < j < self.fully_minimized@.len() implies self.fully_minimized@[i]
                        != self.fully_minimized@[j] by {
                        let a: int = if i < k as int {
                            i
                        } else {
                            i + 1
                        };
                        let b: int = if j < k as int {
                            j
                        } else {
                            j + 1
                        };
                        assert(fm.remove(k as int)[i] == fm[a]);
                        assert(fm.remove(k as int)[j] == fm[b]);
                        assert(0 <= a < fm.len());
                        assert(0 <= b < fm.len());
                        assert(a < b);
                        assert(fm[a] != fm[b]);
                    }
                }
                return ;
            }
            k = k + 1;
        }
    }
}


/// A duplicate-free set of labels drawn from a duplicate-free label map can
/// have no more members than the map has entries.
proof fn lemma_fully_bounded(m: Seq<(u64, TestResult)>, f: Seq<u64>)
    requires
        forall|i: int, j: int|
            0 <= i < j < m.len() ==> (#[trigger] m[i]).0 != (#[trigger] m[j]).0,
        forall|i: int, j: int| 0 <= i < j < f.len() ==> #[trigger] f[i] != #[trigger] f[j],
        forall|k: int| 0 <= k < f.len() ==> has_label(m, #[trigger] f[k]),
    ensures
        f.len() <= m.len(),
{
    broadcast use vstd::seq_lib::seq_to_set_is_finite;

    let labels = m.map_values(|e: (u64, TestResult)| e.0);
    assert forall|i: int, j: int|
        0 <= i < labels.len() && 0 <= j < labels.len() && i != j implies labels[i] != labels[j] by {
        if i < j {
            assert(m[i].0 != m[j].0);
        } else {
            assert(m[j].0 != m[i].0);
        }
    }
    assert(labels.no_duplicates());
    assert forall|i: int, j: int|
        0 <= i < f.len() && 0 <= j < f.len() && i != j implies f[i] != f[j] by {
        if i < j {
            assert(f[i] != f[j]);
        } else {
            assert(f[j] != f[i]);
        }
    }
    assert(f.no_duplicates());
    f.unique_seq_to_set();
    labels.unique_seq_to_set();
    assert forall|l: u64| f.to_set().contains(l) implies labels.to_set().contains(l) by {
        assert(f.contains(l));
        assert(has_label(m, l));
        let i = choose|i: int| 0 <= i < m.len() && (#[trigger] m[i]).0 == l;
        assert(labels[i] == l);
        assert(labels.contains(l));
    }
    assert(f.to_set().subset_of(labels.to_set()));
    vstd::set_lib::lemma_len_subset(f.to_set(), labels.to_set());
}

impl<D: Database> Engine<D> {
    /// Rank of the loop phase, for termination of the pump.
    pub(crate) closed spec fn phase_ord(self) -> int {
        match self.state {
            CoreState::Begin => 4,
            CoreState::Replay { .. } => 3,
            CoreState::Generate => 2,
            CoreState::Shrink { .. } => 1,
            CoreState::Finished { .. } => 0,
        }
    }

    /// How many labels still await a shrink run, for termination.
    pub(crate) closed spec fn label_gap(self) -> int {
        if self.fully_minimized@.len() <= self.minimized@.len() {
            self.minimized@.len() - self.fully_minimized@.len()
        } else {
            0
        }
    }

    /// Remaining replay blobs, for termination.
    pub(crate) closed spec fn replay_gap(self) -> int {
        match self.state {
            CoreState::Replay { blobs, idx } => if idx <= blobs@.len() {
                blobs@.len() - idx
            } else {
                0
            },
            _ => 0,
        }
    }

    /// Whether this label is already marked fully minimized.
    fn fully_contains(&self, l: u64) -> (r: bool)
        ensures
            r == self.fully_minimized@.contains(l),
    {
        let mut k: usize = 0;
        while k < self.fully_minimized.len()
            invariant
                0 <= k <= self.fully_minimized@.len(),
                forall|a: int| 0 <= a < k ==> self.fully_minimized@[a] != l,
            decreases self.fully_minimized@.len() - k,
        {
            if self.fully_minimized[k] == l {
                return true;
            }
            k = k + 1;
        }
        proof {
            assert(!self.fully_minimized@.contains(l));
        }
        false
    }

    /// Picks the next label whose best example has not been fully shrunk
    /// yet and starts its shrink run; when every tracked label is done, the
    /// run completes.
    fn start_next_shrink(&mut self)
        requires
            old(self).inv(),
            old(self).interesting_examples > 0,
            old(self).pending is None,
        ensures
            final(self).inv(),
            final(self).minimized == old(self).minimized,
            final(self).valid_examples == old(self).valid_examples,
            final(self).invalid_examples == old(self).invalid_examples,
            final(self).interesting_examples == old(self).interesting_examples,
            final(self).best_example == old(self).best_example,
            final(self).pending == old(self).pending,
            final(self).handshake == old(self).handshake,
            final(self).max_examples == old(self).max_examples,
            final(self).state is Shrink || final(self).state is Finished,
            final(self).state is Shrink ==> final(self).label_gap() < old(self).label_gap(),
    {
        let ghost m0 = self.minimized@;
        let ghost f0 = self.fully_minimized@;
        let mut k: usize = 0;
        while k < self.minimized.len()
            invariant
                self.inv(),
                self.minimized@ == m0,
                self.fully_minimized@ == f0,
                self.minimized == old(self).minimized,
                self.fully_minimized == old(self).fully_minimized,
                self.valid_examples == old(self).valid_examples,
                self.invalid_examples == old(self).invalid_examples,
                self.interesting_examples == old(self).interesting_examples,
                self.best_example == old(self).best_example,
                self.pending == old(self).pending,
                self.pending is None,
                self.interesting_examples > 0,
                self.handshake == old(self).handshake,
                self.state == old(self).state,
                self.max_examples == old(self).max_examples,
                0 <= k <= m0.len(),
            decreases m0.len() - k,
        {
            let label = self.minimized[k].0;
            if !self.fully_contains(label) {
                let target = self.minimized[k].1.clone();
                self.fully_minimized.push(label);
                proof {
                    assert(self.fully_minimized@.drop_last() =~= f0);
                    assert forall|i: int, j: int|
                        0 <= i < j < self.fully_minimized@.len() implies #[trigger] self.fully_minimized@[i]
                        != #[trigger] self.fully_minimized@[j] by {
                        if j < self.fully_minimized@.len() - 1 {
                            assert(f0[i] != f0[j]);
                        } else {
                            assert(self.fully_minimized@[j] == label);
                            assert(!f0.contains(label));
                            assert(f0[i] != label);
                        }
                    }
                    assert forall|kk: int|
                        0 <= kk < self.fully_minimized@.len() implies has_label(
                        self.minimized@,
                        #[trigger] self.fully_minimized@[kk],
                    ) by {
                        if kk < self.fully_minimized@.len() - 1 {
                            assert(has_label(self.minimized@, f0[kk]));
                        } else {
                            assert((#[trigger] self.minimized@[k as int]).0 == label);
                        }
                    }
                    lemma_fully_bounded(self.minimized@, self.fully_minimized@);
                }
                let st = ShrinkState::new(label, target);
                self.state = CoreState::Shrink { st };
                return ;
            }
            k = k + 1;
        }
        self.state = CoreState::Finished { reason: LoopExitReason::Complete };
    }

    /// Moves from replay or generation into the shrink phase, or completes
    /// at once when shrinking is not among the phases.
    fn enter_shrink_phase(&mut self)
        requires
            old(self).inv(),
            old(self).interesting_examples > 0,
            old(self).pending is None,
        ensures
            final(self).inv(),
            final(self).minimized == old(self).minimized,
            final(self).valid_examples == old(self).valid_examples,
            final(self).invalid_examples == old(self).invalid_examples,
            final(self).interesting_examples == old(self).interesting_examples,
            final(self).best_example == old(self).best_example,
            final(self).pending == old(self).pending,
            final(self).handshake == old(self).handshake,
            final(self).max_examples == old(self).max_examples,
            final(self).state is Shrink || final(self).state is Finished,
            final(self).state is Shrink ==> final(self).label_gap() < old(self).label_gap(),
    {
        if !self.shrink_enabled() {
            self.state = CoreState::Finished { reason: LoopExitReason::Complete };
        } else {
            self.start_next_shrink();
        }
    }

    /// Runs the internal loop forward until the host must execute a source,
    /// or the run is over. The per-label map is untouched: it only changes
    /// when a result is consumed.
    fn advance(&mut self) -> (r: Option<DataSource>)
        requires
            old(self).inv(),
            old(self).pending is None,
        ensures
            final(self).inv(),
            final(self).minimized == old(self).minimized,
            final(self).valid_examples == old(self).valid_examples,
            final(self).invalid_examples == old(self).invalid_examples,
            final(self).interesting_examples == old(self).interesting_examples,
            final(self).best_example == old(self).best_example,
            final(self).pending == old(self).pending,
            final(self).handshake == old(self).handshake,
            final(self).max_examples == old(self).max_examples,
            old(self).is_finished() ==> final(self).is_finished(),
            match r {
                Some(s) => s.wf() && s.record_view().len() == 0 && s.sizes_view().len() == 0
                    && s.draws_view().len() == 0 && s.stack_view().len() == 0 && s.written_view().len() == 0
                    && !final(self).is_finished(),
                None => final(self).is_finished(),
            },
    {
        loop
            invariant
                self.inv(),
                self.minimized == old(self).minimized,
                self.valid_examples == old(self).valid_examples,
                self.invalid_examples == old(self).invalid_examples,
                self.interesting_examples == old(self).interesting_examples,
                self.best_example == old(self).best_example,
                self.pending == old(self).pending,
                self.pending is None,
                self.handshake == old(self).handshake,
                self.max_examples == old(self).max_examples,
                old(self).is_finished() ==> self.state is Finished,
            decreases self.phase_ord(), self.label_gap(), self.replay_gap(),
        {
            let mut state = CoreState::Generate;
            core::mem::swap(&mut state, &mut self.state);
            match state {
                CoreState::Begin => {
                    let blobs = self.database.fetch(self.name.as_str());
                    self.state = CoreState::Replay { blobs, idx: 0 };
                },
                CoreState::Replay { blobs, idx } => {
                    if idx < blobs.len() {
                        let words = bytes_to_u64s(blobs[idx].as_slice());
                        self.state = CoreState::Replay { blobs, idx };
                        return Some(DataSource::from_vec(words));
                    } else {
                        if self.interesting_examples == 0 {
                            self.state = CoreState::Generate;
                        } else {
                            self.state = CoreState::Generate;
                            self.enter_shrink_phase();
                        }
                    }
                },
                CoreState::Generate => {
                    if self.interesting_examples > 0 {
                        self.state = CoreState::Generate;
                        self.enter_shrink_phase();
                    } else if self.valid_examples < self.max_examples && self.invalid_examples < 10
                        * self.max_examples {
                        let child = crate::random::gen_rng(&mut self.random);
                        self.state = CoreState::Generate;
                        return Some(DataSource::from_random(child));
                    } else {
                        self.state = CoreState::Finished { reason: LoopExitReason::MaxExamples };
                    }
                },
                CoreState::Shrink { mut st } => {
                    match st.next() {
                        ShrinkCmd::Execute(buf) => {
                            self.state = CoreState::Shrink { st };
                            return Some(DataSource::from_vec(buf));
                        },
                        ShrinkCmd::Finished => {
                            self.state = CoreState::Generate;
                            self.start_next_shrink();
                        },
                    }
                },
                CoreState::Finished { reason } => {
                    self.state = CoreState::Finished { reason };
                    return None;
                },
            }
        }
    }

    /// Feeds one completed execution back into the phase that asked for it,
    /// after the general bookkeeping.
    fn route_result(&mut self, res: &TestResult)
        requires
            old(self).inv(),
            valid_result(*res),
        ensures
            final(self).inv(),
            minimized_monotone(old(self).minimized_view(), final(self).minimized_view()),
            forall|l: u64|
                has_label(old(self).minimized_view(), l) ==> has_label(final(self).minimized_view(), l),
            forall|n: u64|
                res.status == Status::Interesting(n) ==> has_label(final(self).minimized_view(), n),
            final(self).valid_examples == (if res.status == Status::Valid {
                bumped(old(self).valid_examples)
            } else {
                old(self).valid_examples
            }),
            final(self).invalid_examples == (if res.status == Status::Invalid || res.status
                == Status::Overflow {
                bumped(old(self).invalid_examples)
            } else {
                old(self).invalid_examples
            }),
            final(self).interesting_examples == (if res.status is Interesting {
                bumped(old(self).interesting_examples)
            } else {
                old(self).interesting_examples
            }),
            res.status is Interesting ==> (final(self).best_example matches Some(b) && b.record@
                == res.record@ && b.status == res.status),
            !(res.status is Interesting) ==> final(self).best_example == old(self).best_example,
            final(self).handshake == old(self).handshake,
            final(self).pending == old(self).pending,
            final(self).max_examples == old(self).max_examples,
    {
        self.consume_result(res);
        let mut state = CoreState::Generate;
        core::mem::swap(&mut state, &mut self.state);
        match state {
            CoreState::Begin => {
                self.state = CoreState::Begin;
            },
            CoreState::Replay { blobs, idx } => {
                if idx < blobs.len() {
                    let encoded_back = u64s_to_bytes(res.record.as_slice());
                    let keep = match res.status {
                        Status::Interesting(_) => bytes_equal(&encoded_back, &blobs[idx]),
                        _ => false,
                    };
                    if !keep {
                        self.database.delete(self.name.as_str(), blobs[idx].as_slice());
                    }
                    self.state = CoreState::Replay { blobs, idx: idx + 1 };
                } else {
                    self.state = CoreState::Replay { blobs, idx };
                }
            },
            CoreState::Generate => {
                self.state = CoreState::Generate;
            },
            CoreState::Shrink { mut st } => {
                st.feed(res);
                self.state = CoreState::Shrink { st };
            },
            CoreState::Finished { reason } => {
                self.state = CoreState::Finished { reason };
            },
        }
    }

    /// Hands the host the next source to execute, or reports that the run
    /// is over; a finished run keeps answering `None`. Consuming the result
    /// of the previous execution happens here, so the per-label map can only
    /// improve, and an interesting result is in the map afterwards.
    pub fn next_source(&mut self) -> (r: Option<DataSource>)
        requires
            old(self).inv(),
            old(self).ready(),
        ensures
            final(self).inv(),
            minimized_monotone(old(self).minimized_view(), final(self).minimized_view()),
            forall|l: u64|
                has_label(old(self).minimized_view(), l) ==> has_label(final(self).minimized_view(), l),
            match old(self).pending_view() {
                Some(p) => forall|n: u64|
                    p.status == Status::Interesting(n) ==> has_label(final(self).minimized_view(), n),
                None => true,
            },
            final(self).pending_view() is None,
            final(self).valid_count() == (match old(self).pending_view() {
                Some(p) => if p.status == Status::Valid {
                    bumped(old(self).valid_count())
                } else {
                    old(self).valid_count()
                },
                None => old(self).valid_count(),
            }),
            final(self).invalid_count() == (match old(self).pending_view() {
                Some(p) => if p.status == Status::Invalid || p.status == Status::Overflow {
                    bumped(old(self).invalid_count())
                } else {
                    old(self).invalid_count()
                },
                None => old(self).invalid_count(),
            }),
            final(self).interesting_count() == (match old(self).pending_view() {
                Some(p) => if p.status is Interesting {
                    bumped(old(self).interesting_count())
                } else {
                    old(self).interesting_count()
                },
                None => old(self).interesting_count(),
            }),
            match old(self).pending_view() {
                Some(p) => {
                    &&& (p.status is Interesting ==> (final(self).best_view() matches Some(b)
                        && b.record@ == p.record@ && b.status == p.status))
                    &&& (!(p.status is Interesting) ==> final(self).best_view() == old(self).best_view())
                },
                None => final(self).best_view() == old(self).best_view(),
            },
            final(self).max_examples_view() == old(self).max_examples_view(),
            old(self).is_finished() ==> r is None,
            r is None ==> final(self).interesting_count() > 0 || final(self).valid_count()
                >= final(self).max_examples_view() || final(self).invalid_count()
                >= 10 * final(self).max_examples_view(),
            match r {
                Some(s) => s.wf() && s.record_view().len() == 0 && s.sizes_view().len() == 0
                    && s.draws_view().len() == 0 && s.stack_view().len() == 0 && s.written_view().len() == 0
                    && final(self).awaiting() && !final(self).is_finished(),
                None => final(self).is_finished() && final(self).ready(),
            },
    {
        self.handshake = EngineState::AwaitingCompletion;
        let mut inres: Option<TestResult> = None;
        core::mem::swap(&mut inres, &mut self.pending);
        match inres {
            Some(res) => {
                self.route_result(&res);
                proof {
                    lemma_minimized_monotone_refl(self.minimized@);
                }
            },
            None => {
                proof {
                    lemma_minimized_monotone_refl(self.minimized@);
                }
            },
        }
        let out = self.advance();
        match out {
            Some(s) => Some(s),
            None => {
                self.handshake = EngineState::ReadyToProvide;
                None
            },
        }
    }

    /// Seals the source the host just ran into a result and hands it to the
    /// engine; it is consumed on the next `next_source` call. After the run
    /// has finished the result is dropped silently.
    pub fn mark_finished(&mut self, source: DataSource, status: Status)
        requires
            old(self).inv(),
            old(self).awaiting(),
            source.wf(),
            source.has_open_draws() ==> status == Status::Invalid || status == Status::Overflow,
        ensures
            final(self).inv(),
            final(self).ready(),
            final(self).minimized_view() == old(self).minimized_view(),
            final(self).valid_count() == old(self).valid_count(),
            final(self).invalid_count() == old(self).invalid_count(),
            final(self).interesting_count() == old(self).interesting_count(),
            !old(self).is_finished() ==> (final(self).pending_view() matches Some(r) && valid_result(r)
                && crate::data::nested_result(r) && r.record@ == source.record_view() && r.sizes@
                == source.sizes_view() && r.status == status && r.written_indices@
                == source.written_view() && r.draws@ == crate::data::completed_draws(
                source.draws_view(),
            )),
            old(self).is_finished() ==> final(self).pending_view() is None,
    {
        let result = source.into_result(status);
        self.handshake = EngineState::ReadyToProvide;
        let finished = matches!(self.state, CoreState::Finished { .. });
        if finished {
            self.pending = None;
        } else {
            self.pending = Some(result);
        }
    }

    /// True exactly when the run finished without a single execution that
    /// was valid or interesting: every attempt was rejected or overflowed.
    pub fn was_unsatisfiable(&self) -> (r: bool)
        ensures
            r == (self.is_finished() && self.interesting_count() == 0 && self.valid_count() == 0),
    {
        let finished = matches!(self.state, CoreState::Finished { .. });
        finished && self.interesting_examples == 0 && self.valid_examples == 0
    }

    /// After a finished run, a fresh recorded source replaying the overall
    /// best interesting example, if there was one.
    pub fn best_source(&self) -> (r: Option<DataSource>)
        requires
            self.inv(),
        ensures
            match r {
                Some(s) => self.is_finished() && (self.best_view() matches Some(b) && s.wf()
                    && s.is_recorded() && s.buf_view() == b.record@ && s.record_view().len() == 0),
                None => !self.is_finished() || self.best_view() is None,
            },
    {
        let finished = matches!(self.state, CoreState::Finished { .. });
        if !finished {
            return None;
        }
        match &self.best_example {
            Some(b) => Some(DataSource::from_vec(copy_words(&b.record))),
            None => None,
        }
    }
}


impl<D: Database> Engine<D> {

    /// Whether the engine is waiting for `next_source`: the host may ask
    /// for a source exactly when this holds.
    pub fn is_ready(&self) -> (r: bool)
        ensures
            r == self.ready(),
    {
        matches!(self.handshake, EngineState::ReadyToProvide)
    }

    /// The store the engine was built over.
    pub closed spec fn db_view(self) -> D {
        self.database
    }

    /// Releases the store, so that what the run persisted can be read back
    /// or carried into a later run.
    pub fn into_database(self) -> (d: D)
        ensures
            d == self.db_view(),
    {
        self.database
    }

    /// After a finished run, every label's minimized example, in ascending
    /// shrink order; before that, nothing. Each entry is one of the map's
    /// results and every tracked label's result appears.
    pub fn list_minimized_examples(&self) -> (r: Vec<TestResult>)
        requires
            self.inv(),
        ensures
            !self.is_finished() ==> r@.len() == 0,
            self.is_finished() ==> {
                &&& r@.len() == self.minimized_view().len()
                &&& sorted_results(r@)
                &&& all_valid_results(r@)
                &&& drawn_from(r@, self.minimized_view())
                &&& covers_prefix(r@, self.minimized_view(), self.minimized_view().len() as int)
            },
    {
        let finished = matches!(self.state, CoreState::Finished { .. });
        if !finished {
            return Vec::new();
        }
        let ghost m = self.minimized@;
        let mut out: Vec<TestResult> = Vec::new();
        let mut k: usize = 0;
        while k < self.minimized.len()
            invariant
                self.inv(),
                m == self.minimized@,
                0 <= k <= m.len(),
                out@.len() == k,
                sorted_results(out@),
                all_valid_results(out@),
                drawn_from(out@, m),
                covers_prefix(out@, m, k as int),
            decreases m.len() - k,
        {
            let ghost prev = out@;
            let c = self.minimized[k].1.clone();
            let mut p: usize = 0;
            while p < out.len() && !TestResult::stream_less(&c.record, &out[p].record)
                invariant
                    out@ == prev,
                    c.record@ == m[k as int].1.record@,
                    0 <= p <= out@.len(),
                    forall|a: int| 0 <= a < p ==> !result_lt(c, #[trigger] out@[a]),
                decreases out@.len() - p,
            {
                p = p + 1;
            }
            out.insert(p, c);
            proof {
                assert(out@ == prev.insert(p as int, c));
                lemma_insert_keeps_sorted(prev, out@, c, p as int);
                lemma_insert_keeps_drawn_from(prev, out@, m, c, p as int, k as int);
                lemma_insert_keeps_coverage(prev, out@, m, c, p as int, k as int);
                lemma_insert_keeps_valid(prev, out@, c, p as int);
            }
            k = k + 1;
        }
        out
    }
}


/// The sequence is ascending in the shrink order.
pub open spec fn sorted_results(s: Seq<TestResult>) -> bool {
    forall|a: int, b: int| 0 <= a < b < s.len() ==> result_le(#[trigger] s[a], #[trigger] s[b])
}

/// Every entry satisfies the result invariants.
pub open spec fn all_valid_results(s: Seq<TestResult>) -> bool {
    forall|a: int| 0 <= a < s.len() ==> valid_result(#[trigger] s[a])
}

/// Every entry of `s` carries the record and status of some entry of the
/// per-label map `m`.
pub open spec fn drawn_from(s: Seq<TestResult>, m: Seq<(u64, TestResult)>) -> bool {
    forall|a: int|
        0 <= a < s.len() ==> exists|i: int|
            0 <= i < m.len() && (#[trigger] s[a]).record@ == m[i].1.record@ && s[a].status == m[i].1.status
}

/// The first `k` map entries all appear, by record and status, in `s`.
pub open spec fn covers_prefix(s: Seq<TestResult>, m: Seq<(u64, TestResult)>, k: int) -> bool {
    forall|i: int|
        0 <= i < k ==> exists|a: int|
            0 <= a < s.len() && (#[trigger] m[i]).1.record@ == s[a].record@ && m[i].1.status == s[a].status
}

/// Inserting at the point the scan found keeps the list sorted: everything
/// before the point is no greater, everything after strictly greater.
proof fn lemma_insert_keeps_sorted(prev: Seq<TestResult>, now: Seq<TestResult>, c: TestResult, p: int)
    requires
        0 <= p <= prev.len(),
        now == prev.insert(p, c),
        sorted_results(prev),
        forall|a: int| 0 <= a < p ==> !result_lt(c, #[trigger] prev[a]),
        p < prev.len() ==> result_lt(c, prev[p]),
    ensures
        sorted_results(now),
{
    prev.insert_ensures(p, c);
    assert forall|a: int, b: int| 0 <= a < b < now.len() implies result_le(#[trigger] now[a], #[trigger] now[b]) by {
        if b < p {
            assert(now[a] == prev[a] && now[b] == prev[b]);
        } else if a < p && b == p {
            assert(now[a] == prev[a]);
            crate::data::lemma_result_total(c, prev[a]);
        } else if a < p {
            assert(now[a] == prev[a] && now[b] == prev[b - 1]);
            assert(result_le(prev[a], prev[b - 1]));
        } else if a == p {
            assert(now[b] == prev[b - 1]);
            if b - 1 == p {
                assert(result_le(c, prev[p]));
            } else {
                assert(result_le(prev[p], prev[b - 1]));
                crate::data::lemma_result_le_trans(c, prev[p], prev[b - 1]);
            }
        } else {
            assert(now[a] == prev[a - 1] && now[b] == prev[b - 1]);
            assert(result_le(prev[a - 1], prev[b - 1]));
        }
    }
}

/// Inserting a copy of a map entry keeps every list entry drawn from the map.
proof fn lemma_insert_keeps_drawn_from(
    prev: Seq<TestResult>,
    now: Seq<TestResult>,
    m: Seq<(u64, TestResult)>,
    c: TestResult,
    p: int,
    k: int,
)
    requires
        0 <= p <= prev.len(),
        now == prev.insert(p, c),
        drawn_from(prev, m),
        0 <= k < m.len(),
        c.record@ == m[k].1.record@,
        c.status == m[k].1.status,
    ensures
        drawn_from(now, m),
{
    prev.insert_ensures(p, c);
    assert forall|a: int|
        0 <= a < now.len() implies exists|i: int|
        0 <= i < m.len() && (#[trigger] now[a]).record@ == m[i].1.record@ && now[a].status == m[i].1.status by {
        if a == p {
            assert(now[a].record@ == m[k].1.record@ && now[a].status == m[k].1.status);
        } else {
            let src: int = if a < p {
                a
            } else {
                a - 1
            };
            assert(now[a] == prev[src]);
            let i = choose|i: int|
                0 <= i < m.len() && (#[trigger] prev[src]).record@ == m[i].1.record@ && prev[src].status
                    == m[i].1.status;
            assert(0 <= i < m.len() && now[a].record@ == m[i].1.record@ && now[a].status == m[i].1.status);
        }
    }
}

/// Inserting entry `k`'s copy extends the covered prefix by one.
proof fn lemma_insert_keeps_coverage(
    prev: Seq<TestResult>,
    now: Seq<TestResult>,
    m: Seq<(u64, TestResult)>,
    c: TestResult,
    p: int,
    k: int,
)
    requires
        0 <= p <= prev.len(),
        now == prev.insert(p, c),
        covers_prefix(prev, m, k),
        0 <= k < m.len(),
        c.record@ == m[k].1.record@,
        c.status == m[k].1.status,
    ensures
        covers_prefix(now, m, k + 1),
{
    prev.insert_ensures(p, c);
    assert forall|i: int|
        0 <= i < k + 1 implies exists|a: int|
        0 <= a < now.len() && (#[trigger] m[i]).1.record@ == now[a].record@ && m[i].1.status == now[a].status by {
        if i == k {
            assert(m[i].1.record@ == now[p].record@ && m[i].1.status == now[p].status);
        } else {
            let a0 = choose|a0: int|
                0 <= a0 < prev.len() && (#[trigger] m[i]).1.record@ == prev[a0].record@ && m[i].1.status
                    == prev[a0].status;
            let a: int = if a0 < p {
                a0
            } else {
                a0 + 1
            };
            assert(now[a] == prev[a0]);
            assert(0 <= a < now.len() && m[i].1.record@ == now[a].record@ && m[i].1.status == now[a].status);
        }
    }
}

/// Inserting a valid result keeps every entry valid.
proof fn lemma_insert_keeps_valid(prev: Seq<TestResult>, now: Seq<TestResult>, c: TestResult, p: int)
    requires
        0 <= p <= prev.len(),
        now == prev.insert(p, c),
        all_valid_results(prev),
        valid_result(c),
    ensures
        all_valid_results(now),
{
    prev.insert_ensures(p, c);
    assert forall|a: int| 0 <= a < now.len() implies valid_result(#[trigger] now[a]) by {
        if a == p {
        } else if a < p {
            assert(now[a] == prev[a]);
        } else {
            assert(now[a] == prev[a - 1]);
        }
    }
}

} // verus!
