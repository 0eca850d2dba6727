//! The shrinker: given a failing execution, repeatedly propose smaller
//! candidate buffers until a fixed point is reached, keeping the smallest
//! result (in the engine's total order) that still satisfies the per-label
//! predicate. The shrinker cannot execute a candidate itself — the host owns
//! the test function — so it is a resumable machine: `next` yields the next
//! buffer to execute (or declares the run finished), and `feed` takes the
//! resulting execution back.

use vstd::prelude::*;
use vstd::pervasive::VecAdditionalExecFns;

use crate::data::{
    copy_words, record_starts_with, remove_range, result_lt, stream_lt, valid_result, with_value,
    Status, TestResult,
};
use crate::intminimize::{IntMinimizer, MinimizeStep};

verus! {

/// Position inside the adaptive deletion pass: which count of consecutive
/// draws is being tried at the current draw index.
#[derive(Clone, Copy)]
pub(crate) enum AdMode {
    TryTwo,
    TryThree,
    TryFour,
    Grow { hi: usize },
    Narrow { lo: usize, hi: usize },
    TryOne,
}

/// A cursor bumped by one, stopping at the top of its range.
pub(crate) open spec fn bump_cursor(i: usize) -> usize {
    if i < usize::MAX {
        (i + 1) as usize
    } else {
        i
    }
}

/// The doubled upper probe count of the adaptive pass, saturating.
pub(crate) open spec fn grow_hi(hi: usize) -> usize {
    if hi < usize::MAX / 2 {
        (hi * 2) as usize
    } else {
        usize::MAX
    }
}

/// The midpoint the adaptive pass narrows to.
pub(crate) open spec fn narrow_mid(lo: usize, hi: usize) -> usize {
    if lo < hi {
        (lo + (hi - lo) / 2) as usize
    } else {
        lo
    }
}

/// How many draws the adaptive pass deletes in its current mode.
pub(crate) open spec fn adaptive_k(mode: AdMode) -> usize {
    match mode {
        AdMode::TryTwo => 2,
        AdMode::TryThree => 3,
        AdMode::TryFour => 4,
        AdMode::Grow { hi } => hi,
        AdMode::Narrow { lo, hi } => narrow_mid(lo, hi),
        AdMode::TryOne => 1,
    }
}

/// The adaptive pass after an executed deletion: on success it grows the
/// count (two, three, four, then exponentially, then keeps the lower half
/// of the search window); on failure it narrows, falls back to a single
/// draw, or moves to the next draw index.
pub(crate) open spec fn adaptive_next(i: usize, mode: AdMode, succ: bool) -> (usize, AdMode) {
    if succ {
        match mode {
            AdMode::TryTwo => (i, AdMode::TryThree),
            AdMode::TryThree => (i, AdMode::TryFour),
            AdMode::TryFour => (i, AdMode::Grow { hi: 5 }),
            AdMode::Grow { hi } => (i, AdMode::Grow { hi: grow_hi(hi) }),
            AdMode::Narrow { lo, hi } => (i, AdMode::Narrow { lo: narrow_mid(lo, hi), hi }),
            AdMode::TryOne => (bump_cursor(i), AdMode::TryTwo),
        }
    } else {
        match mode {
            AdMode::TryTwo => (i, AdMode::TryOne),
            AdMode::TryThree => (bump_cursor(i), AdMode::TryTwo),
            AdMode::TryFour => (bump_cursor(i), AdMode::TryTwo),
            AdMode::Grow { hi } => (i, AdMode::Narrow { lo: 4, hi }),
            AdMode::Narrow { lo, hi } => (i, AdMode::Narrow { lo, hi: narrow_mid(lo, hi) }),
            AdMode::TryOne => (bump_cursor(i), AdMode::TryTwo),
        }
    }
}

/// The record with every listed position set to `v`.
pub(crate) open spec fn lowered_group(record: Seq<u64>, idxs: Seq<usize>, v: u64) -> Seq<u64> {
    Seq::new(record.len(), |p: int| if idxs.contains(p as usize) { v } else { record[p] })
}

/// The pass the shrinker is currently running, with its cursor state. The
/// three cheap passes run every round; the expensive ones only once the
/// cheap ones have stalled.
pub(crate) enum PassState {
    /// Adaptive deletion of runs of draws, against a frozen copy of the
    /// round's starting target.
    Adaptive { i: usize, frozen: TestResult, mode: AdMode },
    /// Per-position integer minimization.
    MinBlocks { i: usize, mach: Option<(IntMinimizer, u64)> },
    /// Duplicate-block minimization: all positions sharing a (value, width)
    /// pair are lowered together.
    Dup { groups: Vec<Vec<usize>>, gi: usize, mach: Option<(IntMinimizer, u64)>, orig: u64 },
    /// Decision point after the cheap passes.
    CheapDone,
    /// Swapping a larger earlier word with a smaller later one.
    Reorder { i: usize, j: usize },
    /// Decrementing a word and, when that shortens the execution without
    /// satisfying the predicate, also dropping a later draw.
    LowerDelete { i: usize, j: usize, dropping: bool, attempt: Vec<u64> },
    /// Greedy deletion of arbitrary word ranges.
    DeleteRanges { i: usize, j: usize, start_len: usize },
    /// Decision point at the end of a round.
    RoundEnd,
    /// The fixed point is reached.
    Done,
}

/// What the shrinker awaits: the execution of the candidate it last emitted,
/// remembered with enough context to route the answer.
pub(crate) enum Pending {
    Idle,
    AdaptiveTry,
    MinProbe { v: u64 },
    MinDrain,
    DupProbe,
    ReorderSwap,
    LowerDec,
    LowerDrop,
    RangeDelete,
}

/// The candidate buffer the shrinker proposes is exactly the one its pass
/// state calls for: the frozen record minus the picked draw spans, one
/// position lowered, a duplicate group lowered together, two positions
/// swapped, one position decremented, a draw span dropped from the
/// decremented attempt, or a word range deleted.
pub(crate) open spec fn emitted_matches(s: ShrinkState, c: Seq<u64>) -> bool {
    match s.pending {
        Pending::AdaptiveTry => s.pass matches PassState::Adaptive { i, frozen, mode } && c
            == drop_covered(
            frozen.record@,
            picked_spans(
                frozen.draws@,
                frozen.record@.len() as int,
                i as int,
                adaptive_k(mode) as int,
                0,
            ),
            0,
        ),
        Pending::MinProbe { v } => s.pass matches PassState::MinBlocks { i, mach } && mach is Some
            && i < s.target.record@.len() && v < s.target.record@[i as int] && c
            == s.target.record@.update(i as int, v),
        Pending::MinDrain => true,
        Pending::DupProbe => s.pass matches PassState::Dup { groups, gi, mach, .. } && gi
            < groups@.len() && (mach matches Some(p) && c == lowered_group(
            s.target.record@,
            groups@[gi as int]@,
            p.1,
        )),
        Pending::ReorderSwap => s.pass matches PassState::Reorder { i, j } && i < j && j
            < s.target.record@.len() && s.target.record@[j as int] < s.target.record@[i as int]
            && s.target.record@[i as int] != 0 && c == s.target.record@.update(
            i as int,
            s.target.record@[j as int],
        ).update(j as int, s.target.record@[i as int]),
        Pending::LowerDec => s.pass matches PassState::LowerDelete { i, attempt, dropping, .. }
            && !dropping && i < s.target.record@.len() && s.target.record@[i as int] > 0 && attempt@
            == s.target.record@.update(i as int, (s.target.record@[i as int] - 1) as u64) && c
            == attempt@,
        Pending::LowerDrop => s.pass matches PassState::LowerDelete { i, j, attempt, dropping }
            && dropping && j < s.target.draws@.len() && (s.target.draws@[j as int].start > i
            && s.target.draws@[j as int].start < s.target.draws@[j as int].end
            && s.target.draws@[j as int].end <= attempt@.len() && c == attempt@.take(
            s.target.draws@[j as int].start as int,
        ) + attempt@.skip(s.target.draws@[j as int].end as int)),
        Pending::RangeDelete => s.pass matches PassState::DeleteRanges { i, j, .. } && i < j && j
            < s.target.record@.len() && c == s.target.record@.take(i as int) + s.target.record@.skip(
            j as int,
        ),
        Pending::Idle => false,
    }
}

/// What `next` tells the engine to do.
pub(crate) enum ShrinkCmd {
    /// Execute this buffer as a recorded source and feed the result back.
    Execute(Vec<u64>),
    /// The shrink run for this label is finished.
    Finished,
}

/// One shrink run: minimizes `target` under the predicate "the execution is
/// interesting with this label".
pub(crate) struct ShrinkState {
    pub(crate) label: u64,
    pub(crate) target: TestResult,
    pub(crate) round_changed: bool,
    pub(crate) expensive: bool,
    pub(crate) pass: PassState,
    pub(crate) pending: Pending,
    pub(crate) queued: Option<Vec<u64>>,
}

/// The first up to `k` pairwise non-overlapping draw spans, scanned from
/// draw index `i`: a draw is picked when its span is non-empty, ends inside
/// a record of length `len`, and starts at or after the previous pick's end.
pub open spec fn picked_spans(draws: Seq<crate::data::Draw>, len: int, i: int, k: int, last_end: int) -> Seq<
    (usize, usize),
>
    decreases draws.len() - i,
{
    if i < 0 || i >= draws.len() || k <= 0 {
        Seq::empty()
    } else {
        let d = draws[i];
        if d.start < d.end && d.end <= len && last_end <= d.start {
            seq![(d.start, d.end)] + picked_spans(draws, len, i + 1, k - 1, d.end as int)
        } else {
            picked_spans(draws, len, i + 1, k, last_end)
        }
    }
}

/// Position `p` falls inside one of the spans.
pub open spec fn covered(spans: Seq<(usize, usize)>, p: int) -> bool {
    exists|s: int| 0 <= s < spans.len() && (#[trigger] spans[s]).0 <= p < spans[s].1
}

/// The record from position `p` on, with every covered position removed.
pub open spec fn drop_covered(record: Seq<u64>, spans: Seq<(usize, usize)>, p: int) -> Seq<u64>
    decreases record.len() - p,
{
    if p < 0 || p >= record.len() {
        Seq::empty()
    } else if covered(spans, p) {
        drop_covered(record, spans, p + 1)
    } else {
        seq![record[p]] + drop_covered(record, spans, p + 1)
    }
}

impl ShrinkState {
    /// The shrink target always satisfies the predicate and the result
    /// invariants, and any integer-minimizer in flight is in a sane,
    /// unfinished state.
    pub(crate) open spec fn inv(self) -> bool {
        &&& valid_result(self.target)
        &&& self.target.status == Status::Interesting(self.label)
        &&& match self.pass {
            PassState::MinBlocks { mach, i } => match mach {
                Some(p) => p.0.inv() && !(p.0.stage is Finished) && i < usize::MAX,
                None => true,
            },
            PassState::Dup { mach, gi, .. } => match mach {
                Some(p) => p.0.inv() && !(p.0.stage is Finished) && gi < usize::MAX,
                None => true,
            },
            _ => true,
        }
    }

    /// Starts a shrink run on a target that satisfies the predicate.
    pub(crate) fn new(label: u64, target: TestResult) -> (st: ShrinkState)
        requires
            valid_result(target),
            target.status == Status::Interesting(label),
        ensures
            st.inv(),
            st.label == label,
            st.target == target,
            st.pending is Idle,
    {
        let frozen = target.clone();
        ShrinkState {
            label,
            target,
            round_changed: false,
            expensive: false,
            pass: PassState::Adaptive { i: 0, frozen, mode: AdMode::TryTwo },
            pending: Pending::Idle,
            queued: None,
        }
    }

    /// The raw predicate, with the bookkeeping of the shrink order: the
    /// target is replaced exactly when the predicate holds and the new
    /// result is strictly smaller.
    fn note_result(&mut self, result: &TestResult) -> (succ: bool)
        requires
            old(self).inv(),
            valid_result(*result),
        ensures
            final(self).inv(),
            final(self).label == old(self).label,
            final(self).pass == old(self).pass,
            final(self).pending == old(self).pending,
            final(self).queued == old(self).queued,
            succ == (result.status == Status::Interesting(old(self).label)),
            succ && stream_lt(result.record@, old(self).target.record@) ==> final(self).target.record@
                == result.record@ && final(self).target.status == result.status,
            !(succ && stream_lt(result.record@, old(self).target.record@)) ==> final(self).target
                == old(self).target,
            final(self).round_changed == (old(self).round_changed || (succ && stream_lt(
                result.record@,
                old(self).target.record@,
            ))),
            final(self).target == old(self).target || (final(self).target.record@ == result.record@
                && result_lt(final(self).target, old(self).target)),
    {
        let succ = match result.status {
            Status::Interesting(n) => n == self.label,
            _ => false,
        };
        if succ && TestResult::stream_less(&result.record, &self.target.record) {
            self.target = result.clone();
            self.round_changed = true;
            proof {
                assert(valid_result(self.target));
            }
        }
        succ
    }

    /// A candidate is worth executing only if it could beat the target:
    /// never longer, strictly smaller when equally long, and not a prefix of
    /// the target (a prefix of the record replays to the same partial trace,
    /// so executing it cannot improve anything).
    fn worth_executing(&self, cand: &Vec<u64>) -> (r: bool)
        ensures
            r ==> stream_lt(cand@, self.target.record@),
            r == (stream_lt(cand@, self.target.record@) && !(cand@.len()
                <= self.target.record@.len() && cand@ == self.target.record@.take(cand@.len() as int))),
    {
        if cand.len() > self.target.record.len() {
            return false;
        }
        if cand.len() == self.target.record.len() && !TestResult::stream_less(cand, &self.target.record) {
            return false;
        }
        if record_starts_with(&self.target.record, cand) {
            return false;
        }
        true
    }

    /// Selects up to `k` non-overlapping completed draws of `frozen`,
    /// scanning from draw index `i`, and returns its record with exactly
    /// those spans removed.
    fn build_delete_candidate(frozen: &TestResult, i: usize, k: usize) -> (r: Vec<u64>)
        ensures
            r@ == drop_covered(
                frozen.record@,
                picked_spans(frozen.draws@, frozen.record@.len() as int, i as int, k as int, 0),
                0,
            ),
            r@.len() <= frozen.record@.len(),
    {
        let ghost dr = frozen.draws@;
        let ghost len = frozen.record@.len() as int;
        let ghost all = picked_spans(dr, len, i as int, k as int, 0);
        let mut spans: Vec<(usize, usize)> = Vec::new();
        let mut j = if i <= frozen.draws.len() { i } else { frozen.draws.len() };
        proof {
            if i as int >= dr.len() {
                assert(picked_spans(dr, len, j as int, k as int, 0) =~= all);
            }
            assert(spans@ + picked_spans(dr, len, j as int, k as int, 0) =~= all);
        }
        while j < frozen.draws.len() && spans.len() < k
            invariant
                dr == frozen.draws@,
                len == frozen.record@.len() as int,
                0 <= j <= dr.len(),
                spans@.len() <= k,
                forall|a: int| 0 <= a < spans@.len() ==> (#[trigger] spans@[a]).0 < spans@[a].1
                    && spans@[a].1 <= frozen.record@.len(),
                forall|a: int, b: int| 0 <= a < b < spans@.len() ==> spans@[a].1 <= spans@[b].0,
                spans@ + picked_spans(
                    dr,
                    len,
                    j as int,
                    k - spans@.len(),
                    if spans@.len() == 0 {
                        0int
                    } else {
                        spans@.last().1 as int
                    },
                ) == all,
            decreases dr.len() - j,
        {
            let ghost last0: int = if spans@.len() == 0 { 0int } else { spans@.last().1 as int };
            let d = frozen.draws[j];
            if d.start < d.end && d.end <= frozen.record.len() {
                let fits = if spans.len() == 0 {
                    true
                } else {
                    spans[spans.len() - 1].1 <= d.start
                };
                if fits {
                    spans.push((d.start, d.end));
                    proof {
                        assert(spans@.drop_last() + picked_spans(dr, len, j as int, k - spans@.len() + 1, last0)
                            =~= all);
                        assert(picked_spans(dr, len, j as int, k - spans@.len() + 1, last0) == seq![
                            (d.start, d.end),
                        ] + picked_spans(dr, len, j + 1, k - spans@.len(), d.end as int));
                        assert(spans@ + picked_spans(dr, len, j + 1, k - spans@.len(), d.end as int) =~= all);
                    }
                } else {
                    proof {
                        assert(picked_spans(dr, len, j as int, k - spans@.len(), last0) == picked_spans(
                            dr,
                            len,
                            j + 1,
                            k - spans@.len(),
                            last0,
                        ));
                    }
                }
            } else {
                proof {
                    assert(picked_spans(dr, len, j as int, k - spans@.len(), last0) == picked_spans(
                        dr,
                        len,
                        j + 1,
                        k - spans@.len(),
                        last0,
                    ));
                }
            }
            j = j + 1;
        }
        proof {
            let last0: int = if spans@.len() == 0 { 0int } else { spans@.last().1 as int };
            assert(picked_spans(dr, len, j as int, k - spans@.len(), last0) =~= Seq::<(usize, usize)>::empty());
            assert(spans@ =~= all);
        }
        let ghost sp = spans@;
        let mut out: Vec<u64> = Vec::new();
        let mut pos: usize = 0;
        let mut si: usize = 0;
        proof {
            assert(out@ + drop_covered(frozen.record@, sp, 0) =~= drop_covered(frozen.record@, sp, 0));
        }
        while pos < frozen.record.len()
            invariant
                dr == frozen.draws@,
                sp == spans@,
                0 <= pos <= frozen.record@.len(),
                0 <= si <= sp.len(),
                out@.len() <= pos,
                forall|a: int| 0 <= a < sp.len() ==> (#[trigger] sp[a]).0 < sp[a].1 && sp[a].1
                    <= frozen.record@.len(),
                forall|a: int, b: int| 0 <= a < b < sp.len() ==> sp[a].1 <= sp[b].0,
                forall|a: int| 0 <= a < si ==> (#[trigger] sp[a]).1 <= pos,
                out@ + drop_covered(frozen.record@, sp, pos as int) == drop_covered(frozen.record@, sp, 0),
            decreases frozen.record@.len() - pos, sp.len() - si,
        {
            if si < spans.len() && pos >= spans[si].0 {
                if pos < spans[si].1 {
                    proof {
                        assert(covered(sp, pos as int));
                        assert(out@ + drop_covered(frozen.record@, sp, pos + 1) =~= drop_covered(
                            frozen.record@,
                            sp,
                            0,
                        ));
                    }
                    pos = pos + 1;
                } else {
                    si = si + 1;
                }
            } else {
                proof {
                    let p = pos as int;
                    assert forall|a: int| 0 <= a < sp.len() implies !((#[trigger] sp[a]).0 <= p
                        && p < sp[a].1) by {
                        if a < si {
                            assert(sp[a].1 <= pos);
                        } else {
                            assert(si < sp.len() ==> sp[si as int].0 <= sp[a].0);
                        }
                    }
                    assert(!covered(sp, p));
                    assert(out@.push(frozen.record@[pos as int]) + drop_covered(frozen.record@, sp, pos + 1)
                        =~= drop_covered(frozen.record@, sp, 0));
                }
                out.push(frozen.record[pos]);
                pos = pos + 1;
            }
        }
        proof {
            assert(drop_covered(frozen.record@, sp, pos as int) =~= Seq::<u64>::empty());
            assert(out@ =~= drop_covered(frozen.record@, sp, 0));
        }
        out
    }

    /// Feeds one answer to the integer minimizer in flight in the
    /// per-position pass; when it finishes, moves to the next position.
    fn min_blocks_answer(&mut self, answer: bool)
        requires
            old(self).inv(),
        ensures
            final(self).inv(),
            final(self).label == old(self).label,
            final(self).target == old(self).target,
            final(self).pending == old(self).pending,
            final(self).queued == old(self).queued,
            old(self).pass matches PassState::MinBlocks { i, mach: Some(_) } ==> (final(self).pass
                matches PassState::MinBlocks { i: i2, mach: m2 } && ((m2 is Some && i2 == i) || (m2
                is None && i2 == bump_cursor(i)))),
            !(old(self).pass matches PassState::MinBlocks { mach: Some(_), .. }) ==> final(self).pass
                == old(self).pass,
    {
        let mut pass = PassState::CheapDone;
        core::mem::swap(&mut pass, &mut self.pass);
        match pass {
            PassState::MinBlocks { i, mach } => {
                match mach {
                    Some((mut m, _)) => {
                        let cmd = m.feed(answer);
                        match cmd {
                            MinimizeStep::Probe(c) => {
                                self.pass = PassState::MinBlocks { i, mach: Some((m, c)) };
                            },
                            MinimizeStep::Done(_) => {
                                self.pass = PassState::MinBlocks {
                                    i: if i < usize::MAX { i + 1 } else { i },
                                    mach: None,
                                };
                            },
                        }
                    },
                    None => {
                        self.pass = PassState::MinBlocks { i, mach };
                    },
                }
            },
            other => {
                self.pass = other;
            },
        }
    }

    /// Feeds one answer to the integer minimizer in flight in the
    /// duplicate-block pass; when it finishes, recomputes the groups if the
    /// common value moved, and goes to the next group.
    fn dup_answer(&mut self, answer: bool)
        requires
            old(self).inv(),
        ensures
            final(self).inv(),
            final(self).label == old(self).label,
            final(self).target == old(self).target,
            final(self).pending == old(self).pending,
            final(self).queued == old(self).queued,
            old(self).pass matches PassState::Dup { groups, gi, mach: Some(_), orig }
                ==> (final(self).pass matches PassState::Dup { groups: g2, gi: gi2, mach: m2, orig: o2 } && o2 == orig
                && ((m2 is Some && gi2 == gi && g2 == groups) || (m2 is None && gi2 == bump_cursor(gi)
                && (g2 == groups || duplicate_groups_of(g2@, final(self).target))))),
            !(old(self).pass matches PassState::Dup { mach: Some(_), .. }) ==> final(self).pass
                == old(self).pass,
    {
        let mut pass = PassState::CheapDone;
        core::mem::swap(&mut pass, &mut self.pass);
        match pass {
            PassState::Dup { groups, gi, mach, orig } => {
                match mach {
                    Some((mut m, _)) => {
                        let cmd = m.feed(answer);
                        match cmd {
                            MinimizeStep::Probe(c) => {
                                self.pass = PassState::Dup { groups, gi, mach: Some((m, c)), orig };
                            },
                            MinimizeStep::Done(w) => {
                                let ngroups = if w != orig {
                                    calc_duplicates(&self.target)
                                } else {
                                    groups
                                };
                                self.pass = PassState::Dup {
                                    groups: ngroups,
                                    gi: if gi < usize::MAX { gi + 1 } else { gi },
                                    mach: None,
                                    orig,
                                };
                            },
                        }
                    },
                    None => {
                        self.pass = PassState::Dup { groups, gi, mach, orig };
                    },
                }
            },
            other => {
                self.pass = other;
            },
        }
    }
}

impl ShrinkState {
    /// Rank of the current pass in the round, for termination.
    pub(crate) open spec fn pass_ord(self) -> int {
        match self.pass {
            PassState::Adaptive { .. } => 8,
            PassState::MinBlocks { .. } => 7,
            PassState::Dup { .. } => 6,
            PassState::CheapDone => 5,
            PassState::Reorder { .. } => 4,
            PassState::LowerDelete { .. } => 3,
            PassState::DeleteRanges { .. } => 2,
            PassState::RoundEnd => 1,
            PassState::Done => 0,
        }
    }

    /// Whether another round is still owed, for termination.
    pub(crate) open spec fn round_flag(self) -> int {
        if self.round_changed {
            1
        } else {
            0
        }
    }

    /// Remaining primary budget of the current pass: the main cursor, or,
    /// for the minimizing passes, whether a machine is still in flight.
    pub(crate) open spec fn sub1(self) -> int {
        match self.pass {
            PassState::Adaptive { i, frozen, .. } => bounded_gap(i, frozen.draws@.len() as int),
            PassState::MinBlocks { mach, .. } => if mach is Some {
                1
            } else {
                0
            },
            PassState::Dup { mach, .. } => if mach is Some {
                1
            } else {
                0
            },
            PassState::Reorder { i, .. } => bounded_gap(i, self.target.record@.len() as int),
            PassState::LowerDelete { i, .. } => bounded_gap(i, self.target.record@.len() as int),
            PassState::DeleteRanges { i, .. } => bounded_gap(i, self.target.record@.len() as int),
            _ => 0,
        }
    }

    /// Remaining secondary budget of the current pass.
    pub(crate) open spec fn sub2(self) -> int {
        match self.pass {
            PassState::Adaptive { mode, .. } => match mode {
                AdMode::TryTwo => 5,
                AdMode::TryThree => 4,
                AdMode::TryFour => 3,
                AdMode::Grow { .. } => 2,
                AdMode::Narrow { .. } => 1,
                AdMode::TryOne => 0,
            },
            PassState::MinBlocks { i, .. } => bounded_gap(i, self.target.record@.len() as int),
            PassState::Dup { gi, groups, .. } => bounded_gap(gi, groups@.len() as int),
            PassState::Reorder { j, .. } => bounded_gap(j, self.target.record@.len() as int),
            PassState::LowerDelete { dropping, .. } => if dropping {
                1
            } else {
                0
            },
            PassState::DeleteRanges { start_len, .. } => if start_len != self.target.record@.len() {
                1
            } else {
                0
            },
            _ => 0,
        }
    }

    /// Remaining tertiary budget of the current pass.
    pub(crate) open spec fn sub3(self) -> int {
        match self.pass {
            PassState::Adaptive { mode, .. } => match mode {
                AdMode::Narrow { lo, hi } => bounded_gap(lo, hi as int),
                _ => 0,
            },
            PassState::LowerDelete { j, .. } => bounded_gap(j, self.target.draws@.len() as int),
            PassState::DeleteRanges { j, .. } => bounded_gap(j, self.target.record@.len() as int),
            _ => 0,
        }
    }
}

/// How far `i` still is from `limit`, clamped at zero.
pub(crate) open spec fn bounded_gap(i: usize, limit: int) -> int {
    if i <= limit {
        limit - i
    } else {
        0
    }
}

/// The (value, bit-width) pair the duplicate pass groups position `i` by.
pub open spec fn pair_at(t: TestResult, i: int) -> (u64, u64) {
    (t.record@[i], t.sizes@[i])
}

/// Position `i` takes part in duplicate grouping: in bounds and drawn
/// rather than written.
pub open spec fn dup_position(t: TestResult, i: int) -> bool {
    0 <= i < t.record@.len() && t.sizes@[i] != 0
}

/// `groups` are exactly the duplicate groups of `t`: each group has at
/// least two members, lists grouped positions of one (value, width) pair in
/// ascending order, distinct groups have distinct pairs, every grouped
/// position sharing its pair with another one appears, each group is
/// maximal (it holds every grouped position of its pair), and groups come
/// largest first.
pub open spec fn duplicate_groups_of(groups: Seq<Vec<usize>>, t: TestResult) -> bool {
    &&& forall|g: int| 0 <= g < groups.len() ==> (#[trigger] groups[g])@.len() >= 2
    &&& forall|g: int, a: int|
        0 <= g < groups.len() && 0 <= a < groups[g]@.len() ==> dup_position(
            t,
            #[trigger] groups[g]@[a] as int,
        )
    &&& forall|g: int, a: int, b: int| #![trigger groups[g]@[a], groups[g]@[b]]
        0 <= g < groups.len() && 0 <= a < b < groups[g]@.len() ==> groups[g]@[a] < groups[g]@[b]
    &&& forall|g: int, a: int|
        0 <= g < groups.len() && 0 <= a < groups[g]@.len() ==> pair_at(
            t,
            #[trigger] groups[g]@[a] as int,
        ) == pair_at(t, groups[g]@[0] as int)
    &&& forall|g: int, h: int|
        0 <= g < h < groups.len() ==> pair_at(t, (#[trigger] groups[g])@[0] as int) != pair_at(
            t,
            (#[trigger] groups[h])@[0] as int,
        )
    &&& forall|x: int, y: int|
        dup_position(t, x) && dup_position(t, y) && x != y && #[trigger] pair_at(t, x)
            == #[trigger] pair_at(t, y) ==> exists|g: int|
            0 <= g < groups.len() && (#[trigger] groups[g])@.contains(x as usize)
    &&& forall|g: int, x: int| #![trigger groups[g], pair_at(t, x)]
        0 <= g < groups.len() && dup_position(t, x) && pair_at(t, x) == pair_at(
            t,
            groups[g]@[0] as int,
        ) ==> groups[g]@.contains(x as usize)
    &&& forall|g: int, h: int|
        0 <= g < h < groups.len() ==> (#[trigger] groups[g])@.len() >= (#[trigger] groups[h])@.len()
}

/// Groups the grouped positions of the target by their (value, width) pair,
/// keeps the pairs that occur at least twice, and orders the groups by
/// descending size.
#[verifier::rlimit(60)]
#[verifier::spinoff_prover]
fn calc_duplicates(target: &TestResult) -> (groups: Vec<Vec<usize>>)
    requires
        valid_result(*target),
    ensures
        duplicate_groups_of(groups@, *target),
{
    let ghost t = *target;
    let mut keys: Vec<(u64, u64)> = Vec::new();
    let mut all: Vec<Vec<usize>> = Vec::new();
    let mut i: usize = 0;
    while i < target.record.len()
        invariant
            t == *target,
            valid_result(t),
            0 <= i <= t.record@.len(),
            keys@.len() == all@.len(),
            forall|g: int| 0 <= g < all@.len() ==> (#[trigger] all@[g])@.len() >= 1,
            forall|g: int, a: int|
                0 <= g < all@.len() && 0 <= a < all@[g]@.len() ==> (#[trigger] all@[g]@[a]) < i
                    && t.sizes@[all@[g]@[a] as int] != 0,
            forall|g: int, a: int, b: int| #![trigger all@[g]@[a], all@[g]@[b]]
                0 <= g < all@.len() && 0 <= a < b < all@[g]@.len() ==> all@[g]@[a] < all@[g]@[b],
            forall|g: int, a: int|
                0 <= g < all@.len() && 0 <= a < all@[g]@.len() ==> pair_at(
                    t,
                    #[trigger] all@[g]@[a] as int,
                ) == keys@[g],
            forall|g: int, h: int|
                0 <= g < h < keys@.len() ==> #[trigger] keys@[g] != #[trigger] keys@[h],
            forall|x: int|
                0 <= x < i && t.sizes@[x] != 0 ==> exists|g: int|
                    0 <= g < all@.len() && (#[trigger] all@[g])@.contains(x as usize),
        decreases t.record@.len() - i,
    {
        if target.sizes[i] != 0 {
            let key_val = target.record[i];
            let key_size = target.sizes[i];
            let mut gi: usize = 0;
            let mut found = false;
            while gi < keys.len()
                invariant_except_break
                    !found,
                invariant
                    0 <= gi <= keys@.len(),
                    forall|g: int| 0 <= g < gi ==> #[trigger] keys@[g] != (key_val, key_size),
                ensures
                    found ==> gi < keys@.len() && keys@[gi as int] == (key_val, key_size),
                    !found ==> forall|g: int|
                        0 <= g < keys@.len() ==> #[trigger] keys@[g] != (key_val, key_size),
                    0 <= gi <= keys@.len(),
                decreases keys@.len() - gi,
            {
                if keys[gi].0 == key_val && keys[gi].1 == key_size {
                    found = true;
                    break ;
                }
                gi = gi + 1;
            }
            let ghost prev = all@;
            if found {
                let mut grp = crate::data::copy_indices(&all[gi]);
                grp.push(i);
                all.set(gi, grp);
                proof {
                    assert(pair_at(t, i as int) == (key_val, key_size));
                    assert forall|x: int|
                        0 <= x < i + 1 && t.sizes@[x] != 0 implies exists|g: int|
                        0 <= g < all@.len() && (#[trigger] all@[g])@.contains(x as usize) by {
                        if x < i {
                            let g0 = choose|g0: int|
                                0 <= g0 < prev.len() && (#[trigger] prev[g0])@.contains(x as usize);
                            if g0 == gi {
                                let a = choose|a: int|
                                    0 <= a < prev[g0 as int]@.len() && prev[g0 as int]@[a] == x as usize;
                                assert(all@[g0]@[a] == x as usize);
                                assert(all@[g0]@.contains(x as usize));
                            } else {
                                assert(all@[g0] == prev[g0]);
                                assert(all@[g0]@.contains(x as usize));
                            }
                        } else {
                            assert(all@[gi as int]@[all@[gi as int]@.len() - 1] == i);
                            assert(all@[gi as int]@.contains(x as usize));
                        }
                    }
                }
            } else {
                let mut grp: Vec<usize> = Vec::new();
                grp.push(i);
                keys.push((key_val, key_size));
                all.push(grp);
                proof {
                    assert(all@[all@.len() - 1]@ =~= seq![i]);
                    assert forall|x: int|
                        0 <= x < i + 1 && t.sizes@[x] != 0 implies exists|g: int|
                        0 <= g < all@.len() && (#[trigger] all@[g])@.contains(x as usize) by {
                        if x < i {
                            let g0 = choose|g0: int|
                                0 <= g0 < prev.len() && (#[trigger] prev[g0])@.contains(x as usize);
                            assert(all@[g0] == prev[g0]);
                            assert(all@[g0]@.contains(x as usize));
                        } else {
                            assert(all@[all@.len() - 1]@[0] == i);
                            assert(all@[all@.len() - 1]@.contains(x as usize));
                        }
                    }
                }
            }
        }
        i = i + 1;
    }
    let ghost allg = all@;
    let ghost keysg = keys@;
    // keep the pairs that occur at least twice, largest group first (stable)
    let mut big: Vec<Vec<usize>> = Vec::new();
    let ghost mut srcs: Seq<int> = Seq::empty();
    let mut gi: usize = 0;
    while gi < all.len()
        invariant
            t == *target,
            valid_result(t),
            all@ == allg,
            keys@ == keysg,
            keysg.len() == allg.len(),
            0 <= gi <= allg.len(),
            forall|g: int, a: int|
                0 <= g < allg.len() && 0 <= a < allg[g]@.len() ==> (#[trigger] allg[g]@[a])
                    < t.record@.len() && t.sizes@[allg[g]@[a] as int] != 0,
            forall|g: int, a: int, b: int| #![trigger allg[g]@[a], allg[g]@[b]]
                0 <= g < allg.len() && 0 <= a < b < allg[g]@.len() ==> allg[g]@[a] < allg[g]@[b],
            forall|g: int, a: int|
                0 <= g < allg.len() && 0 <= a < allg[g]@.len() ==> pair_at(
                    t,
                    #[trigger] allg[g]@[a] as int,
                ) == keysg[g],
            forall|g: int| 0 <= g < allg.len() ==> (#[trigger] allg[g])@.len() >= 1,
            forall|g: int, h: int|
                0 <= g < h < keysg.len() ==> #[trigger] keysg[g] != #[trigger] keysg[h],
            srcs.len() == big@.len(),
            forall|g: int|
                0 <= g < big@.len() ==> 0 <= #[trigger] srcs[g] < gi && big@[g]@ == allg[srcs[g]]@
                    && allg[srcs[g]]@.len() >= 2,
            forall|g: int, h: int|
                0 <= g < h < srcs.len() ==> #[trigger] srcs[g] != #[trigger] srcs[h],
            forall|g0: int|
                0 <= g0 < gi && (#[trigger] allg[g0])@.len() >= 2 ==> exists|g: int|
                    0 <= g < srcs.len() && #[trigger] srcs[g] == g0,
            forall|g: int, h: int|
                0 <= g < h < big@.len() ==> (#[trigger] big@[g])@.len() >= (#[trigger] big@[h])@.len(),
        decreases allg.len() - gi,
    {
        if all[gi].len() >= 2 {
            let grp = crate::data::copy_indices(&all[gi]);
            let mut at: usize = 0;
            while at < big.len() && big[at].len() >= grp.len()
                invariant
                    0 <= at <= big@.len(),
                    grp@ == allg[gi as int]@,
                    forall|b: int| 0 <= b < at ==> (#[trigger] big@[b])@.len() >= grp@.len(),
                decreases big@.len() - at,
            {
                at = at + 1;
            }
            let ghost oldbig = big@;
            let ghost oldsrcs = srcs;
            big.insert(at, grp);
            proof {
                srcs = oldsrcs.insert(at as int, gi as int);
                oldbig.insert_ensures(at as int, big@[at as int]);
                oldsrcs.insert_ensures(at as int, gi as int);
                assert(big@ == oldbig.insert(at as int, big@[at as int]));
                assert(big@[at as int]@ == allg[gi as int]@);
                assert forall|g: int|
                    0 <= g < big@.len() implies 0 <= #[trigger] srcs[g] < gi + 1 && big@[g]@
                    == allg[srcs[g]]@ && allg[srcs[g]]@.len() >= 2 by {
                    if g < at {
                        assert(big@[g] == oldbig[g] && srcs[g] == oldsrcs[g]);
                    } else if g == at {
                        assert(srcs[g] == gi as int);
                    } else {
                        assert(big@[g] == oldbig[g - 1] && srcs[g] == oldsrcs[g - 1]);
                    }
                }
                assert forall|g: int, h: int|
                    0 <= g < h < srcs.len() implies #[trigger] srcs[g] != #[trigger] srcs[h] by {
                    let a: int = if g < at as int {
                        g
                    } else {
                        g - 1
                    };
                    let b: int = if h < at as int {
                        h
                    } else {
                        h - 1
                    };
                    if g == at as int || h == at as int {
                        if g == at as int {
                            assert(srcs[h] == oldsrcs[b] && oldsrcs[b] < gi as int);
                        } else {
                            assert(srcs[g] == oldsrcs[a] && oldsrcs[a] < gi as int);
                        }
                    } else {
                        assert(srcs[g] == oldsrcs[a] && srcs[h] == oldsrcs[b]);
                        assert(oldsrcs[a] != oldsrcs[b]);
                    }
                }
                assert forall|g0: int|
                    0 <= g0 < gi + 1 && (#[trigger] allg[g0])@.len() >= 2 implies exists|g: int|
                    0 <= g < srcs.len() && #[trigger] srcs[g] == g0 by {
                    if g0 == gi as int {
                        assert(srcs[at as int] == g0);
                    } else {
                        let g1 = choose|g1: int| 0 <= g1 < oldsrcs.len() && #[trigger] oldsrcs[g1] == g0;
                        let g2: int = if g1 < at as int {
                            g1
                        } else {
                            g1 + 1
                        };
                        assert(srcs[g2] == g0);
                    }
                }
                assert forall|g: int, h: int|
                    0 <= g < h < big@.len() implies (#[trigger] big@[g])@.len() >= (
                #[trigger] big@[h])@.len() by {
                    if h < at as int {
                        assert(big@[g] == oldbig[g] && big@[h] == oldbig[h]);
                    } else if g < at as int && h == at as int {
                        assert(big@[g] == oldbig[g]);
                        assert(oldbig[g]@.len() >= big@[at as int]@.len());
                    } else if g < at as int {
                        assert(big@[g] == oldbig[g] && big@[h] == oldbig[h - 1]);
                    } else if g == at as int {
                        assert(big@[h] == oldbig[h - 1]);
                        assert(h - 1 >= at as int);
                        assert((at as int) < oldbig.len());
                        assert(oldbig[at as int]@.len() < big@[at as int]@.len());
                        if h - 1 > at as int {
                            assert(oldbig[at as int]@.len() >= oldbig[h - 1]@.len());
                        }
                    } else {
                        assert(big@[g] == oldbig[g - 1] && big@[h] == oldbig[h - 1]);
                    }
                }
            }
        }
        gi = gi + 1;
    }
    proof {
        assert forall|x: int, y: int|
            dup_position(t, x) && dup_position(t, y) && x != y && #[trigger] pair_at(t, x)
                == #[trigger] pair_at(t, y) implies exists|g: int|
            0 <= g < big@.len() && (#[trigger] big@[g])@.contains(x as usize) by {
            let gx = choose|gx: int| 0 <= gx < allg.len() && (#[trigger] allg[gx])@.contains(x as usize);
            let gy = choose|gy: int| 0 <= gy < allg.len() && (#[trigger] allg[gy])@.contains(y as usize);
            let ax = choose|ax: int| 0 <= ax < allg[gx]@.len() && allg[gx]@[ax] == x as usize;
            let ay = choose|ay: int| 0 <= ay < allg[gy]@.len() && allg[gy]@[ay] == y as usize;
            assert(keysg[gx] == pair_at(t, x));
            assert(keysg[gy] == pair_at(t, y));
            if gx != gy {
                if gx < gy {
                    assert(keysg[gx] != keysg[gy]);
                } else {
                    assert(keysg[gy] != keysg[gx]);
                }
            }
            assert(gx == gy);
            assert(ax != ay);
            assert(allg[gx]@.len() >= 2);
            let g = choose|g: int| 0 <= g < srcs.len() && #[trigger] srcs[g] == gx;
            assert(big@[g]@ == allg[gx]@);
            assert(big@[g]@.contains(x as usize));
        }
        assert forall|g: int, x: int| #![trigger big@[g], pair_at(t, x)]
            0 <= g < big@.len() && dup_position(t, x) && pair_at(t, x) == pair_at(
                t,
                big@[g]@[0] as int,
            ) implies big@[g]@.contains(x as usize) by {
            let g0 = srcs[g];
            assert(big@[g]@ == allg[g0]@);
            assert(allg[g0]@.len() >= 1);
            assert(pair_at(t, allg[g0]@[0] as int) == keysg[g0]);
            let gx = choose|gx: int| 0 <= gx < allg.len() && (#[trigger] allg[gx])@.contains(x as usize);
            let ax = choose|ax: int| 0 <= ax < allg[gx]@.len() && allg[gx]@[ax] == x as usize;
            assert(keysg[gx] == pair_at(t, x));
            if gx != g0 {
                if gx < g0 {
                    assert(keysg[gx] != keysg[g0]);
                } else {
                    assert(keysg[g0] != keysg[gx]);
                }
            }
            assert(gx == g0);
        }
        assert forall|g: int, h: int|
            0 <= g < h < big@.len() implies pair_at(t, (#[trigger] big@[g])@[0] as int) != pair_at(
                t,
                (#[trigger] big@[h])@[0] as int,
            ) by {
            let g0 = srcs[g];
            let h0 = srcs[h];
            assert(big@[g]@ == allg[g0]@ && big@[h]@ == allg[h0]@);
            assert(pair_at(t, allg[g0]@[0] as int) == keysg[g0]);
            assert(pair_at(t, allg[h0]@[0] as int) == keysg[h0]);
            assert(g0 != h0);
            if g0 < h0 {
                assert(keysg[g0] != keysg[h0]);
            } else {
                assert(keysg[h0] != keysg[g0]);
            }
        }
        assert forall|g: int, a: int|
            0 <= g < big@.len() && 0 <= a < big@[g]@.len() implies pair_at(
                t,
                #[trigger] big@[g]@[a] as int,
            ) == pair_at(t, big@[g]@[0] as int) by {
            let g0 = srcs[g];
            assert(big@[g]@ == allg[g0]@);
            assert(pair_at(t, allg[g0]@[a] as int) == keysg[g0]);
            assert(pair_at(t, allg[g0]@[0] as int) == keysg[g0]);
        }
        assert forall|g: int, a: int|
            0 <= g < big@.len() && 0 <= a < big@[g]@.len() implies dup_position(
                t,
                #[trigger] big@[g]@[a] as int,
            ) by {
            let g0 = srcs[g];
            assert(big@[g]@ == allg[g0]@);
            assert(allg[g0]@[a] < t.record@.len() && t.sizes@[allg[g0]@[a] as int] != 0);
        }
        assert forall|g: int, a: int, b: int| #![trigger big@[g]@[a], big@[g]@[b]]
            0 <= g < big@.len() && 0 <= a < b < big@[g]@.len() implies big@[g]@[a] < big@[g]@[b] by {
            let g0 = srcs[g];
            assert(big@[g]@ == allg[g0]@);
            assert(allg[g0]@[a] < allg[g0]@[b]);
        }
        assert forall|g: int| 0 <= g < big@.len() implies (#[trigger] big@[g])@.len() >= 2 by {
            assert(big@[g]@ == allg[srcs[g]]@);
            assert(allg[srcs[g]]@.len() >= 2);
        }
    }
    big
}

impl ShrinkState {
    /// Drives the per-position minimizer with synchronous rejections until
    /// it either proposes a candidate worth executing or finishes the
    /// position and moves the cursor on.
    fn drive_position(&mut self, i: usize, m0: IntMinimizer, c0: u64) -> (r: Option<Vec<u64>>)
        requires
            valid_result(old(self).target),
            old(self).target.status == Status::Interesting(old(self).label),
            m0.inv(),
            !(m0.stage is Finished),
            i < usize::MAX,
        ensures
            final(self).inv(),
            final(self).label == old(self).label,
            final(self).target == old(self).target,
            final(self).round_changed == old(self).round_changed,
            final(self).expensive == old(self).expensive,
            final(self).queued == old(self).queued,
            match r {
                Some(cand) => (final(self).pass matches PassState::MinBlocks { i: i2, mach: m2 }
                    && i2 == i && m2 is Some) && (final(self).pending matches Pending::MinProbe { v }
                    && i < final(self).target.record@.len() && v < final(self).target.record@[i as int]
                    && cand@ == final(self).target.record@.update(i as int, v)),
                None => (final(self).pass matches PassState::MinBlocks { mach: m2, i: i2 } && m2
                    is None && i2 == i + 1) && final(self).pending == old(self).pending,
            },
    {
        let mut m = m0;
        let mut c = c0;
        loop
            invariant
                self.label == old(self).label,
                self.target == old(self).target,
                self.round_changed == old(self).round_changed,
                self.expensive == old(self).expensive,
                self.queued == old(self).queued,
                self.pending == old(self).pending,
                valid_result(self.target),
                self.target.status == Status::Interesting(self.label),
                m.inv(),
                !(m.stage is Finished),
                i < usize::MAX,
            decreases m.stage_ord(), m.stage_sub(),
        {
            if i < self.target.record.len() && c < self.target.record[i] {
                let attempt = with_value(&self.target.record, i, c);
                if self.worth_executing(&attempt) {
                    self.pass = PassState::MinBlocks { i, mach: Some((m, c)) };
                    self.pending = Pending::MinProbe { v: c };
                    return Some(attempt);
                }
            }
            match m.feed(false) {
                MinimizeStep::Probe(c2) => {
                    c = c2;
                },
                MinimizeStep::Done(_) => {
                    self.pass = PassState::MinBlocks { i: i + 1, mach: None };
                    return None;
                },
            }
        }
    }

    /// Drives the duplicate-block minimizer with synchronous rejections
    /// until it either proposes a candidate or finishes the group. A fresh
    /// machine that saw only rejections leaves the groups unchanged.
    fn drive_group(&mut self, groups: Vec<Vec<usize>>, gi: usize, m0: IntMinimizer, c0: u64, orig: u64) -> (r: Option<
        Vec<u64>,
    >)
        requires
            valid_result(old(self).target),
            old(self).target.status == Status::Interesting(old(self).label),
            m0.inv(),
            !(m0.stage is Finished),
            gi < usize::MAX,
        ensures
            final(self).inv(),
            final(self).label == old(self).label,
            final(self).target == old(self).target,
            final(self).round_changed == old(self).round_changed,
            final(self).expensive == old(self).expensive,
            final(self).queued == old(self).queued,
            match r {
                Some(cand) => (final(self).pass matches PassState::Dup { groups: g2, gi: gi2, mach: m2, .. }
                    && gi2 == gi && g2 == groups && (m2 matches Some(p2) && gi < groups@.len()
                    && cand@ == lowered_group(final(self).target.record@, groups@[gi as int]@, p2.1)))
                    && final(self).pending is DupProbe,
                None => (final(self).pass matches PassState::Dup { mach: m2, gi: gi2, groups: g2, .. }
                    && m2 is None && gi2 == gi + 1 && (m0.best == orig ==> g2 == groups))
                    && final(self).pending == old(self).pending,
            },
    {
        let mut m = m0;
        let mut c = c0;
        let gs = groups;
        loop
            invariant
                self.label == old(self).label,
                self.target == old(self).target,
                self.round_changed == old(self).round_changed,
                self.expensive == old(self).expensive,
                self.queued == old(self).queued,
                self.pending == old(self).pending,
                valid_result(self.target),
                self.target.status == Status::Interesting(self.label),
                m.inv(),
                !(m.stage is Finished),
                m.best == m0.best,
                gs == groups,
                gi < usize::MAX,
            decreases m.stage_ord(), m.stage_sub(),
        {
            let mut execute: Option<Vec<u64>> = None;
            if gi < gs.len() && gs[gi].len() > 0 {
                let last = gs[gi][gs[gi].len() - 1];
                if last < self.target.record.len() {
                    let ghost rec = self.target.record@;
                    let ghost idxs = gs@[gi as int]@;
                    let mut attempt = copy_words(&self.target.record);
                    let mut a: usize = 0;
                    proof {
                        assert(idxs.take(0) =~= Seq::<usize>::empty());
                    }
                    while a < gs[gi].len()
                        invariant
                            gi < gs@.len(),
                            rec == self.target.record@,
                            idxs == gs@[gi as int]@,
                            0 <= a <= idxs.len(),
                            attempt@.len() == rec.len(),
                            forall|p: int|
                                0 <= p < attempt@.len() ==> attempt@[p] == (if idxs.take(
                                    a as int,
                                ).contains(p as usize) {
                                    c
                                } else {
                                    rec[p]
                                }),
                        decreases idxs.len() - a,
                    {
                        let ghost prevattempt = attempt@;
                        let idx = gs[gi][a];
                        if idx < attempt.len() {
                            attempt.set(idx, c);
                        }
                        proof {
                            assert forall|p: int|
                                0 <= p < attempt@.len() implies attempt@[p] == (if idxs.take(a + 1).contains(
                                    p as usize,
                                ) {
                                    c
                                } else {
                                    rec[p]
                                }) by {
                                assert(idxs.take(a + 1).drop_last() =~= idxs.take(a as int));
                                assert(idxs.take(a + 1).last() == idxs[a as int]);
                                if idxs.take(a + 1).contains(p as usize) {
                                    if p == idx as int && (idx as int) < attempt@.len() {
                                        assert(attempt@[p] == c);
                                    } else {
                                        let w = choose|w: int|
                                            0 <= w < idxs.take(a + 1).len() && #[trigger] idxs.take(
                                                a + 1,
                                            )[w] == p as usize;
                                        if w < a {
                                            assert(idxs.take(a as int)[w] == p as usize);
                                            assert(idxs.take(a as int).contains(p as usize));
                                        } else {
                                            assert(idxs[a as int] == p as usize);
                                            assert(p == idx as int);
                                        }
                                    }
                                } else {
                                    assert(!idxs.take(a as int).contains(p as usize)) by {
                                        if idxs.take(a as int).contains(p as usize) {
                                            let w = choose|w: int|
                                                0 <= w < idxs.take(a as int).len() && #[trigger] idxs.take(
                                                    a as int,
                                                )[w] == p as usize;
                                            assert(idxs.take(a + 1)[w] == p as usize);
                                        }
                                    }
                                    assert(p != idx as int || idx as int >= attempt@.len()) by {
                                        if p == idx as int {
                                            assert(idxs.take(a + 1)[a as int] == p as usize);
                                        }
                                    }
                                }
                            }
                        }
                        a = a + 1;
                    }
                    proof {
                        assert(idxs.take(idxs.len() as int) =~= idxs);
                        assert(attempt@ =~= lowered_group(rec, idxs, c));
                    }
                    if self.worth_executing(&attempt) {
                        execute = Some(attempt);
                    }
                }
            }
            match execute {
                Some(cand) => {
                    self.pass = PassState::Dup { groups: gs, gi, mach: Some((m, c)), orig };
                    self.pending = Pending::DupProbe;
                    return Some(cand);
                },
                None => {
                    match m.feed(false) {
                        MinimizeStep::Probe(c2) => {
                            c = c2;
                        },
                        MinimizeStep::Done(w) => {
                            proof {
                                assert(w == m0.best);
                            }
                            let g2 = if w != orig {
                                calc_duplicates(&self.target)
                            } else {
                                gs
                            };
                            self.pass = PassState::Dup { groups: g2, gi: gi + 1, mach: None, orig };
                            return None;
                        },
                    }
                },
            }
        }
    }

    /// Advances to the next candidate the shrinker wants executed — always
    /// exactly the buffer its pass state calls for — or declares the run
    /// finished: the fixed point where a full round of passes (the
    /// expensive ones included) changed nothing.
    pub(crate) fn next(&mut self) -> (cmd: ShrinkCmd)
        requires
            old(self).inv(),
        ensures
            final(self).inv(),
            final(self).label == old(self).label,
            final(self).target == old(self).target,
            final(self).queued is None,
            old(self).queued matches Some(q) ==> (cmd matches ShrinkCmd::Execute(c) && c == q
                && final(self).pass == old(self).pass && final(self).pending == old(self).pending),
            old(self).queued is None ==> (cmd matches ShrinkCmd::Execute(c) ==> emitted_matches(
                *final(self),
                c@,
            ) && !(final(self).pending is Idle)),
            cmd is Finished ==> final(self).pass is Done,
    {
        let mut q: Option<Vec<u64>> = None;
        core::mem::swap(&mut q, &mut self.queued);
        match q {
            Some(cand) => {
                return ShrinkCmd::Execute(cand);
            },
            None => {},
        }
        loop
            invariant
                self.inv(),
                self.label == old(self).label,
                self.target == old(self).target,
                self.queued is None,
                old(self).queued is None,
            decreases
                    self.round_flag(),
                    self.pass_ord(),
                    self.sub1(),
                    self.sub2(),
                    self.sub3(),
        {
            let mut pass = PassState::Done;
            core::mem::swap(&mut pass, &mut self.pass);
            match pass {
                PassState::Adaptive { i, frozen, mode } => {
                    if i >= frozen.draws.len() {
                        self.pass = PassState::MinBlocks { i: 0, mach: None };
                    } else {
                        let k: usize;
                        let proceed: bool;
                        match mode {
                            AdMode::TryTwo => {
                                k = 2;
                                proceed = true;
                            },
                            AdMode::TryThree => {
                                k = 3;
                                proceed = true;
                            },
                            AdMode::TryFour => {
                                k = 4;
                                proceed = true;
                            },
                            AdMode::Grow { hi } => {
                                k = hi;
                                proceed = true;
                            },
                            AdMode::Narrow { lo, hi } => {
                                if lo < hi && hi - lo > 1 {
                                    k = lo + (hi - lo) / 2;
                                    proceed = true;
                                } else {
                                    k = 0;
                                    proceed = false;
                                }
                            },
                            AdMode::TryOne => {
                                k = 1;
                                proceed = true;
                            },
                        }
                        if !proceed {
                            self.pass = PassState::Adaptive { i: i + 1, frozen, mode: AdMode::TryTwo };
                        } else {
                            let cand = Self::build_delete_candidate(&frozen, i, k);
                            let ok = cand.len() < self.target.record.len() && self.worth_executing(&cand);
                            if ok {
                                proof {
                                    assert(k == adaptive_k(mode));
                                }
                                self.pass = PassState::Adaptive { i, frozen, mode };
                                self.pending = Pending::AdaptiveTry;
                                return ShrinkCmd::Execute(cand);
                            } else {
                                match mode {
                                    AdMode::TryTwo => {
                                        self.pass = PassState::Adaptive { i, frozen, mode: AdMode::TryOne };
                                    },
                                    AdMode::TryThree => {
                                        self.pass = PassState::Adaptive { i: i + 1, frozen, mode: AdMode::TryTwo };
                                    },
                                    AdMode::TryFour => {
                                        self.pass = PassState::Adaptive { i: i + 1, frozen, mode: AdMode::TryTwo };
                                    },
                                    AdMode::Grow { hi } => {
                                        self.pass = PassState::Adaptive { i, frozen, mode: AdMode::Narrow { lo: 4, hi } };
                                    },
                                    AdMode::Narrow { lo, hi: _ } => {
                                        self.pass = PassState::Adaptive { i, frozen, mode: AdMode::Narrow { lo, hi: k } };
                                    },
                                    AdMode::TryOne => {
                                        self.pass = PassState::Adaptive { i: i + 1, frozen, mode: AdMode::TryTwo };
                                    },
                                }
                            }
                        }
                    }
                },
                PassState::MinBlocks { i, mach } => {
                    match mach {
                        Some(pair) => {
                            match self.drive_position(i, pair.0, pair.1) {
                                Some(cand) => {
                                    return ShrinkCmd::Execute(cand);
                                },
                                None => {},
                            }
                        },
                        None => {
                            if i >= self.target.record.len() {
                                let groups = calc_duplicates(&self.target);
                                self.pass = PassState::Dup { groups, gi: 0, mach: None, orig: 0 };
                            } else if self.target.sizes[i] == 0 {
                                self.pass = PassState::MinBlocks { i: i + 1, mach: None };
                            } else {
                                let start = self.target.record[i];
                                let (m0, cmd0) = IntMinimizer::begin(start);
                                match cmd0 {
                                    MinimizeStep::Done(_) => {
                                        self.pass = PassState::MinBlocks { i: i + 1, mach: None };
                                    },
                                    MinimizeStep::Probe(c0) => {
                                        match self.drive_position(i, m0, c0) {
                                            Some(cand) => {
                                                return ShrinkCmd::Execute(cand);
                                            },
                                            None => {},
                                        }
                                    },
                                }
                            }
                        },
                    }
                },
                PassState::Dup { groups, gi, mach, orig } => {
                    match mach {
                        Some(pair) => {
                            match self.drive_group(groups, gi, pair.0, pair.1, orig) {
                                Some(cand) => {
                                    return ShrinkCmd::Execute(cand);
                                },
                                None => {},
                            }
                        },
                        None => {
                            if gi >= groups.len() {
                                self.pass = PassState::CheapDone;
                            } else {
                                let usable = groups[gi].len() >= 2 && groups[gi][0] < self.target.record.len();
                                if !usable {
                                    self.pass = PassState::Dup { groups, gi: gi + 1, mach: None, orig };
                                } else {
                                    let v0 = self.target.record[groups[gi][0]];
                                    let (m0, cmd0) = IntMinimizer::begin(v0);
                                    match cmd0 {
                                        MinimizeStep::Done(_) => {
                                            self.pass = PassState::Dup { groups, gi: gi + 1, mach: None, orig };
                                        },
                                        MinimizeStep::Probe(c0) => {
                                            match self.drive_group(groups, gi, m0, c0, v0) {
                                                Some(cand) => {
                                                    return ShrinkCmd::Execute(cand);
                                                },
                                                None => {},
                                            }
                                        },
                                    }
                                }
                            }
                        },
                    }
                },
                PassState::CheapDone => {
                    if !self.round_changed {
                        self.expensive = true;
                    }
                    if self.expensive {
                        self.pass = PassState::Reorder { i: 0, j: 0 };
                    } else {
                        self.pass = PassState::RoundEnd;
                    }
                },
                PassState::Reorder { i, j } => {
                    if i >= self.target.record.len() {
                        self.pass = PassState::LowerDelete { i: 0, j: 0, dropping: false, attempt: Vec::new() };
                    } else if j >= self.target.record.len() && j > i {
                        self.pass = PassState::Reorder { i: i + 1, j: 0 };
                    } else if j <= i {
                        self.pass = PassState::Reorder { i, j: i + 1 };
                    } else if self.target.record[i] == 0 {
                        self.pass = PassState::Reorder { i: i + 1, j: 0 };
                    } else if self.target.record[j] < self.target.record[i] {
                        let mut cand = copy_words(&self.target.record);
                        let vi = cand[i];
                        let vj = cand[j];
                        cand.set(i, vj);
                        cand.set(j, vi);
                        if self.worth_executing(&cand) {
                            self.pass = PassState::Reorder { i, j };
                            self.pending = Pending::ReorderSwap;
                            return ShrinkCmd::Execute(cand);
                        } else {
                            self.pass = PassState::Reorder { i, j: j + 1 };
                        }
                    } else {
                        self.pass = PassState::Reorder { i, j: j + 1 };
                    }
                },
                PassState::LowerDelete { i, j, dropping, attempt } => {
                    if !dropping {
                        if i >= self.target.record.len() {
                            self.pass = PassState::DeleteRanges { i: 0, j: 0, start_len: self.target.record.len() };
                        } else if self.target.record[i] == 0 {
                            self.pass = PassState::LowerDelete { i: i + 1, j: 0, dropping: false, attempt };
                        } else {
                            let a = with_value(&self.target.record, i, self.target.record[i] - 1);
                            let cand = copy_words(&a);
                            self.pass = PassState::LowerDelete { i, j: 0, dropping: false, attempt: a };
                            self.pending = Pending::LowerDec;
                            return ShrinkCmd::Execute(cand);
                        }
                    } else {
                        if j >= self.target.draws.len() {
                            let ni = if i < usize::MAX {
                                i + 1
                            } else {
                                i
                            };
                            self.pass = PassState::LowerDelete { i: ni, j: 0, dropping: false, attempt };
                        } else {
                            let d = self.target.draws[j];
                            if d.start > i && d.start < d.end && d.end <= attempt.len() {
                                let cand = remove_range(&attempt, d.start, d.end);
                                if self.worth_executing(&cand) {
                                    self.pass = PassState::LowerDelete { i, j, dropping: true, attempt };
                                    self.pending = Pending::LowerDrop;
                                    return ShrinkCmd::Execute(cand);
                                } else {
                                    self.pass = PassState::LowerDelete { i, j: j + 1, dropping: true, attempt };
                                }
                            } else {
                                self.pass = PassState::LowerDelete { i, j: j + 1, dropping: true, attempt };
                            }
                        }
                    }
                },
                PassState::DeleteRanges { i, j, start_len } => {
                    if i >= self.target.record.len() {
                        self.pass = PassState::RoundEnd;
                    } else if j < self.target.record.len() {
                        if j <= i {
                            self.pass = PassState::DeleteRanges { i, j: i + 1, start_len };
                        } else {
                            let cand = remove_range(&self.target.record, i, j);
                            if self.worth_executing(&cand) {
                                self.pass = PassState::DeleteRanges { i, j, start_len };
                                self.pending = Pending::RangeDelete;
                                return ShrinkCmd::Execute(cand);
                            } else {
                                self.pass = PassState::DeleteRanges { i, j: j + 1, start_len };
                            }
                        }
                    } else {
                        if start_len == self.target.record.len() {
                            self.pass = PassState::DeleteRanges { i: i + 1, j: 0, start_len };
                        } else {
                            self.pass = PassState::DeleteRanges { i, j: 0, start_len: self.target.record.len() };
                        }
                    }
                },
                PassState::RoundEnd => {
                    if self.round_changed {
                        self.round_changed = false;
                        let frozen = self.target.clone();
                        self.pass = PassState::Adaptive { i: 0, frozen, mode: AdMode::TryTwo };
                    } else {
                        self.pass = PassState::Done;
                        return ShrinkCmd::Finished;
                    }
                },
                PassState::Done => {
                    self.pass = PassState::Done;
                    return ShrinkCmd::Finished;
                },
            }
        }
    }

    /// Takes the outcome of the candidate the shrinker last proposed: runs
    /// the predicate bookkeeping and advances the pass that asked for it.
    pub(crate) fn feed(&mut self, result: &TestResult)
        requires
            old(self).inv(),
            valid_result(*result),
        ensures
            final(self).inv(),
            final(self).label == old(self).label,
            result.status == Status::Interesting(old(self).label) && stream_lt(
                result.record@,
                old(self).target.record@,
            ) ==> final(self).target.record@ == result.record@,
            !(result.status == Status::Interesting(old(self).label) && stream_lt(
                result.record@,
                old(self).target.record@,
            )) ==> final(self).target == old(self).target,
            final(self).target == old(self).target || (final(self).target.record@ == result.record@
                && result_lt(final(self).target, old(self).target)),
            old(self).queued is None ==> (final(self).queued matches Some(_) ==> final(self).pending
                is MinDrain),
    {
        let mut pend = Pending::Idle;
        core::mem::swap(&mut pend, &mut self.pending);
        let succ = self.note_result(result);
        match pend {
            Pending::Idle => {},
            Pending::AdaptiveTry => {
                self.adaptive_transition(succ);
            },
            Pending::MinProbe { v } => {
                self.min_probe_outcome(v, succ, result);
            },
            Pending::MinDrain => {
                self.min_blocks_answer(succ);
            },
            Pending::DupProbe => {
                self.dup_answer(succ);
            },
            Pending::ReorderSwap => {
                self.reorder_advance();
            },
            Pending::LowerDec => {
                self.lower_dec_outcome(succ, result);
            },
            Pending::LowerDrop => {
                self.lower_drop_outcome(succ);
            },
            Pending::RangeDelete => {
                self.range_delete_outcome(succ);
            },
        }
    }

    /// Moves the adaptive deletion pass along after an executed candidate:
    /// growth on success, narrowing or the next draw index on failure.
    fn adaptive_transition(&mut self, succ: bool)
        requires
            old(self).inv(),
        ensures
            final(self).inv(),
            final(self).label == old(self).label,
            final(self).target == old(self).target,
            final(self).pending == old(self).pending,
            final(self).queued == old(self).queued,
            old(self).pass matches PassState::Adaptive { i, frozen, mode } ==> (final(self).pass
                matches PassState::Adaptive { i: i2, frozen: f2, mode: m2 } && f2 == frozen && (
            i2,
            m2,
            ) == adaptive_next(i, mode, succ)),
            !(old(self).pass is Adaptive) ==> final(self).pass == old(self).pass,
    {
        let mut pass = PassState::Done;
        core::mem::swap(&mut pass, &mut self.pass);
        match pass {
            PassState::Adaptive { i, frozen, mode } => {
                let ni = if i < usize::MAX {
                    i + 1
                } else {
                    i
                };
                let np: PassState;
                if succ {
                    match mode {
                        AdMode::TryTwo => {
                            np = PassState::Adaptive { i, frozen, mode: AdMode::TryThree };
                        },
                        AdMode::TryThree => {
                            np = PassState::Adaptive { i, frozen, mode: AdMode::TryFour };
                        },
                        AdMode::TryFour => {
                            np = PassState::Adaptive { i, frozen, mode: AdMode::Grow { hi: 5 } };
                        },
                        AdMode::Grow { hi } => {
                            let h2 = if hi < usize::MAX / 2 {
                                hi * 2
                            } else {
                                usize::MAX
                            };
                            np = PassState::Adaptive { i, frozen, mode: AdMode::Grow { hi: h2 } };
                        },
                        AdMode::Narrow { lo, hi } => {
                            let mid = if lo < hi {
                                lo + (hi - lo) / 2
                            } else {
                                lo
                            };
                            np = PassState::Adaptive { i, frozen, mode: AdMode::Narrow { lo: mid, hi } };
                        },
                        AdMode::TryOne => {
                            np = PassState::Adaptive { i: ni, frozen, mode: AdMode::TryTwo };
                        },
                    }
                } else {
                    match mode {
                        AdMode::TryTwo => {
                            np = PassState::Adaptive { i, frozen, mode: AdMode::TryOne };
                        },
                        AdMode::TryThree => {
                            np = PassState::Adaptive { i: ni, frozen, mode: AdMode::TryTwo };
                        },
                        AdMode::TryFour => {
                            np = PassState::Adaptive { i: ni, frozen, mode: AdMode::TryTwo };
                        },
                        AdMode::Grow { hi } => {
                            np = PassState::Adaptive { i, frozen, mode: AdMode::Narrow { lo: 4, hi } };
                        },
                        AdMode::Narrow { lo, hi } => {
                            let mid = if lo < hi {
                                lo + (hi - lo) / 2
                            } else {
                                lo
                            };
                            np = PassState::Adaptive { i, frozen, mode: AdMode::Narrow { lo, hi: mid } };
                        },
                        AdMode::TryOne => {
                            np = PassState::Adaptive { i: ni, frozen, mode: AdMode::TryTwo };
                        },
                    }
                }
                self.pass = np;
            },
            other => {
                self.pass = other;
            },
        }
    }

    /// Routes the outcome of a per-position lowering: on a failed probe that
    /// shortened a valid execution, queue the follow-up that also drops the
    /// words the generator no longer consumed.
    fn min_probe_outcome(&mut self, v: u64, succ: bool, result: &TestResult)
        requires
            old(self).inv(),
            valid_result(*result),
        ensures
            final(self).inv(),
            final(self).label == old(self).label,
            final(self).target == old(self).target,
            old(self).queued is None ==> (final(self).queued matches Some(qc) ==> (final(self).pending is MinDrain
                && (final(self).pass matches PassState::MinBlocks { i, mach } && mach is Some
                && i < final(self).target.record@.len()
                && result.record@.len() < final(self).target.record@.len()
                && qc@ == final(self).target.record@.update(i as int, v).take(i + 1)
                    + final(self).target.record@.update(i as int, v).skip(
                    i + 1 + (final(self).target.record@.len() - result.record@.len()),
                )))),
    {
        let is_valid_status = matches!(result.status, Status::Valid);
        let tlen = self.target.record.len();
        let rlen = result.record.len();
        let lost = if rlen < tlen {
            tlen - rlen
        } else {
            0
        };
        if !succ && is_valid_status && lost > 0 {
            let can_drain = {
                let l = self.target.record.len();
                let fits = if l > 0 {
                    lost <= l - 1
                } else {
                    false
                };
                fits
            };
            let mut drained = false;
            let i_opt: Option<usize> = match &self.pass {
                PassState::MinBlocks { i, mach } => match mach {
                    Some(_) => Some(*i),
                    None => None,
                },
                _ => None,
            };
            match i_opt {
                Some(i) => {
                    if can_drain && i < self.target.record.len() && lost <= self.target.record.len() - i - 1 {
                        let attempt = with_value(&self.target.record, i, v);
                        let cand = remove_range(&attempt, i + 1, i + 1 + lost);
                        if self.worth_executing(&cand) {
                            self.queued = Some(cand);
                            self.pending = Pending::MinDrain;
                            drained = true;
                        }
                    }
                },
                None => {},
            }
            if !drained {
                self.min_blocks_answer(false);
            }
        } else {
            self.min_blocks_answer(succ);
        }
    }

    /// Advances the reorder pass past an executed swap.
    fn reorder_advance(&mut self)
        requires
            old(self).inv(),
        ensures
            final(self).inv(),
            final(self).label == old(self).label,
            final(self).target == old(self).target,
            final(self).pending == old(self).pending,
            final(self).queued == old(self).queued,
            old(self).pass matches PassState::Reorder { i, j } ==> (final(self).pass
                matches PassState::Reorder { i: i2, j: j2 } && i2 == i && j2 == bump_cursor(j)),
            !(old(self).pass is Reorder) ==> final(self).pass == old(self).pass,
    {
        let mut pass = PassState::Done;
        core::mem::swap(&mut pass, &mut self.pass);
        match pass {
            PassState::Reorder { i, j } => {
                let nj = if j < usize::MAX {
                    j + 1
                } else {
                    j
                };
                self.pass = PassState::Reorder { i, j: nj };
            },
            other => {
                self.pass = other;
            },
        }
    }

    /// Routes the outcome of a decrement probe: a failure that shortened the
    /// execution switches to dropping the draws after the position.
    fn lower_dec_outcome(&mut self, succ: bool, result: &TestResult)
        requires
            old(self).inv(),
            valid_result(*result),
        ensures
            final(self).inv(),
            final(self).label == old(self).label,
            final(self).target == old(self).target,
            final(self).pending == old(self).pending,
            final(self).queued == old(self).queued,
            old(self).pass matches PassState::LowerDelete { i, j, dropping, attempt }
                ==> (final(self).pass matches PassState::LowerDelete { i: i2, j: j2, dropping: d2, attempt: a2 } && a2
                == attempt && j2 == 0 && (if !succ && result.record@.len()
                < old(self).target.record@.len() {
                i2 == i && d2
            } else {
                i2 == bump_cursor(i) && !d2
            })),
            !(old(self).pass is LowerDelete) ==> final(self).pass == old(self).pass,
    {
        let shorter = result.record.len() < self.target.record.len();
        let mut pass = PassState::Done;
        core::mem::swap(&mut pass, &mut self.pass);
        match pass {
            PassState::LowerDelete { i, j: _, dropping: _, attempt } => {
                if !succ && shorter {
                    self.pass = PassState::LowerDelete { i, j: 0, dropping: true, attempt };
                } else {
                    let ni = if i < usize::MAX {
                        i + 1
                    } else {
                        i
                    };
                    self.pass = PassState::LowerDelete { i: ni, j: 0, dropping: false, attempt };
                }
            },
            other => {
                self.pass = other;
            },
        }
    }

    /// Routes the outcome of a draw drop in the lower-and-delete pass: a
    /// success moves to the next position, a failure to the next draw.
    fn lower_drop_outcome(&mut self, succ: bool)
        requires
            old(self).inv(),
        ensures
            final(self).inv(),
            final(self).label == old(self).label,
            final(self).target == old(self).target,
            final(self).pending == old(self).pending,
            final(self).queued == old(self).queued,
            old(self).pass matches PassState::LowerDelete { i, j, dropping, attempt }
                ==> (final(self).pass matches PassState::LowerDelete { i: i2, j: j2, dropping: d2, attempt: a2 } && a2
                == attempt && (if succ {
                i2 == bump_cursor(i) && j2 == 0 && !d2
            } else {
                i2 == i && j2 == bump_cursor(j) && d2 == dropping
            })),
            !(old(self).pass is LowerDelete) ==> final(self).pass == old(self).pass,
    {
        let mut pass = PassState::Done;
        core::mem::swap(&mut pass, &mut self.pass);
        match pass {
            PassState::LowerDelete { i, j, dropping, attempt } => {
                if succ {
                    let ni = if i < usize::MAX {
                        i + 1
                    } else {
                        i
                    };
                    self.pass = PassState::LowerDelete { i: ni, j: 0, dropping: false, attempt };
                } else {
                    let nj = if j < usize::MAX {
                        j + 1
                    } else {
                        j
                    };
                    self.pass = PassState::LowerDelete { i, j: nj, dropping, attempt };
                }
            },
            other => {
                self.pass = other;
            },
        }
    }

    /// Routes the outcome of a range deletion: only a failure moves the end
    /// cursor, as a success shortens the target in place.
    fn range_delete_outcome(&mut self, succ: bool)
        requires
            old(self).inv(),
        ensures
            final(self).inv(),
            final(self).label == old(self).label,
            final(self).target == old(self).target,
            final(self).pending == old(self).pending,
            final(self).queued == old(self).queued,
            old(self).pass matches PassState::DeleteRanges { i, j, start_len } ==> (final(self).pass
                matches PassState::DeleteRanges { i: i2, j: j2, start_len: sl2 } && i2 == i && sl2
                == start_len && j2 == (if succ {
                j
            } else {
                bump_cursor(j)
            })),
            !(old(self).pass is DeleteRanges) ==> final(self).pass == old(self).pass,
    {
        let mut pass = PassState::Done;
        core::mem::swap(&mut pass, &mut self.pass);
        match pass {
            PassState::DeleteRanges { i, j, start_len } => {
                if succ {
                    self.pass = PassState::DeleteRanges { i, j, start_len };
                } else {
                    let nj = if j < usize::MAX {
                        j + 1
                    } else {
                        j
                    };
                    self.pass = PassState::DeleteRanges { i, j: nj, start_len };
                }
            },
            other => {
                self.pass = other;
            },
        }
    }
}

} // verus!
