//! Core data types: the recorded trace of one test execution and the total
//! order on executions that the shrinker minimizes.

use vstd::prelude::*;
use vstd::pervasive::VecAdditionalExecFns;

verus! {

/// Where the words of an execution come from: a seeded generator, or the
/// replayed buffer of an earlier execution.
#[derive(Debug)]
enum BitGenerator {
    Random(rand::ChaChaRng),
    Recorded(DataStream),
}

/// The words drawn during one test execution, in order.
pub type DataStream = Vec<u64>;

/// Error returned when a recorded data source runs out of words.
#[derive(Debug, Clone, Copy)]
pub struct FailedDraw;

/// A draw that has been started and possibly not yet finished: `end` is
/// `None` while the draw is still open.
#[derive(Debug, Clone, Copy)]
pub struct DrawInProgress {
    pub depth: usize,
    pub start: usize,
    pub end: Option<usize>,
}

/// A completed draw: one generator activation spanning the word range
/// `start..end` of the record, at nesting depth `depth`.
#[derive(Debug, Clone, Copy)]
pub struct Draw {
    pub depth: usize,
    pub start: usize,
    pub end: usize,
}

/// Outcome reported by the test function for a single execution.
#[derive(Debug, Clone, Eq, PartialEq, Copy, Structural)]
pub enum Status {
    /// The test tried to read more data than the source had for it.
    Overflow,
    /// Some important precondition of the test was not satisfied.
    Invalid,
    /// The test ran to completion without anything of note happening.
    Valid,
    /// A distinguished (usually failing) execution, tagged with a label.
    Interesting(u64),
}

/// Immutable record of one completed test execution.
#[derive(Debug)]
pub struct TestResult {
    pub record: DataStream,
    pub status: Status,
    pub draws: Vec<Draw>,
    pub sizes: Vec<u64>,
    pub written_indices: Vec<usize>,
}

/// A draw retained in a result is non-empty and lies inside the record.
pub open spec fn draw_in_bounds(d: Draw, len: int) -> bool {
    d.start < d.end && d.end <= len
}

/// Two retained draws cover disjoint ranges.
pub open spec fn draws_disjoint(a: Draw, b: Draw) -> bool {
    a.end <= b.start || b.end <= a.start
}

/// A completed trace entry ends at or before position `s`.
pub open spec fn ends_before(d: DrawInProgress, s: int) -> bool {
    match d.end {
        Some(e) => e <= s,
        None => false,
    }
}

/// Two completed trace entries cover disjoint ranges; open entries are
/// unconstrained here.
pub open spec fn trace_disjoint(a: DrawInProgress, b: DrawInProgress) -> bool {
    match (a.end, b.end) {
        (Some(ea), Some(eb)) => ea <= b.start || eb <= a.start,
        _ => true,
    }
}

/// Entry `b` encloses the completed entry `a`: it starts no later, and
/// where `b` is itself completed it ends no earlier. An open `b` keeps
/// growing, so it encloses every completed span that starts inside it.
pub open spec fn trace_encloses(b: DrawInProgress, a: DrawInProgress) -> bool {
    &&& b.start <= a.start
    &&& match (a.end, b.end) {
        (Some(ea), Some(eb)) => ea <= eb,
        _ => true,
    }
}

/// The invariants every result the engine ever emits satisfies: one size per
/// word, every retained draw in bounds, and `written_indices` listing exactly
/// the positions whose size is zero, in increasing order.
pub open spec fn valid_result(r: TestResult) -> bool {
    &&& r.record@.len() == r.sizes@.len()
    &&& forall|i: int| 0 <= i < r.draws@.len() ==> draw_in_bounds(#[trigger] r.draws@[i], r.record@.len() as int)
    &&& forall|i: int| 0 <= i < r.written_indices@.len() ==> #[trigger] r.written_indices@[i] < r.record@.len()
    &&& forall|i: int, j: int| 0 <= i < j < r.written_indices@.len() ==> r.written_indices@[i] < r.written_indices@[j]
    &&& forall|i: int| 0 <= i < r.written_indices@.len() ==> r.sizes@[#[trigger] r.written_indices@[i] as int] == 0
    &&& forall|k: int| 0 <= k < r.sizes@.len() && r.sizes@[k] == 0 ==> r.written_indices@.contains(k as usize)
}

/// The hierarchical shape of a result's draws: draws of one depth never
/// overlap, and — in a result whose every draw completed, i.e. one not cut
/// short as invalid or overflowed — each draw at depth `d + 1` lies inside a
/// draw at depth `d`.
pub open spec fn nested_result(r: TestResult) -> bool {
    &&& forall|a: int, b: int| #![trigger r.draws@[a], r.draws@[b]]
        0 <= a < b < r.draws@.len() && r.draws@[a].depth == r.draws@[b].depth ==> draws_disjoint(
            r.draws@[a],
            r.draws@[b],
        )
    &&& (r.status == Status::Valid || r.status is Interesting) ==> (forall|a: int|
        0 <= a < r.draws@.len() && (#[trigger] r.draws@[a]).depth >= 1 ==> exists|b: int|
            0 <= b < r.draws@.len() && (#[trigger] r.draws@[b]).depth == r.draws@[a].depth - 1
                && r.draws@[b].start <= r.draws@[a].start && r.draws@[a].end <= r.draws@[b].end)
}

/// The shrink order on raw records: shorter first, then lexicographic.
pub open spec fn stream_lt(a: Seq<u64>, b: Seq<u64>) -> bool {
    ||| a.len() < b.len()
    ||| (a.len() == b.len() && lex_lt(a, b))
}

/// Strict lexicographic order on equal-length word sequences.
pub open spec fn lex_lt(a: Seq<u64>, b: Seq<u64>) -> bool
    decreases a.len(),
{
    &&& a.len() == b.len()
    &&& a.len() > 0
    &&& (a[0] < b[0] || (a[0] == b[0] && lex_lt(a.skip(1), b.skip(1))))
}

/// The total order of the engine: `a` is strictly better (smaller) than `b`.
pub open spec fn result_lt(a: TestResult, b: TestResult) -> bool {
    stream_lt(a.record@, b.record@)
}

impl TestResult {
    /// Decides the shrink order on two raw records.
    pub fn stream_less(a: &Vec<u64>, b: &Vec<u64>) -> (r: bool)
        ensures
            r == stream_lt(a@, b@),
    {
        if a.len() < b.len() {
            true
        } else if a.len() > b.len() {
            false
        } else {
            Self::lex_less(a, b)
        }
    }

    /// Decides strict lexicographic order on equal-length records.
    fn lex_less(a: &Vec<u64>, b: &Vec<u64>) -> (r: bool)
        requires
            a@.len() == b@.len(),
        ensures
            r == lex_lt(a@, b@),
    {
        let ghost ga = a@;
        let ghost gb = b@;
        proof {
            assert(ga.skip(0) =~= ga);
            assert(gb.skip(0) =~= gb);
        }
        let mut i: usize = 0;
        while i < a.len()
            invariant
                a@ == ga,
                b@ == gb,
                ga.len() == gb.len(),
                0 <= i <= ga.len(),
                forall|k: int| 0 <= k < i ==> ga[k] == gb[k],
                lex_lt(ga, gb) == lex_lt(ga.skip(i as int), gb.skip(i as int)),
            decreases a@.len() - i,
        {
            proof {
                lemma_lex_unfold(ga, gb, i as int);
            }
            if a[i] < b[i] {
                proof {
                    assert(lex_lt(ga.skip(i as int), gb.skip(i as int)));
                }
                return true;
            }
            if a[i] > b[i] {
                proof {
                    assert(!lex_lt(ga.skip(i as int), gb.skip(i as int)));
                }
                return false;
            }
            i = i + 1;
        }
        proof {
            assert(ga.skip(ga.len() as int).len() == 0);
            assert(!lex_lt(ga.skip(ga.len() as int), gb.skip(gb.len() as int)));
        }
        false
    }

    /// `self` is strictly smaller than `other` in the engine's total order.
    pub fn less_than(&self, other: &TestResult) -> (r: bool)
        ensures
            r == result_lt(*self, *other),
    {
        Self::stream_less(&self.record, &other.record)
    }
}

/// Copies a record word for word.
pub(crate) fn copy_words(v: &Vec<u64>) -> (r: Vec<u64>)
    ensures
        r@ == v@,
{
    let mut out: Vec<u64> = Vec::new();
    let mut i: usize = 0;
    while i < v.len()
        invariant
            0 <= i <= v@.len(),
            out@ == v@.take(i as int),
        decreases v@.len() - i,
    {
        out.push(v[i]);
        proof {
            assert(out@ =~= v@.take(i + 1));
        }
        i = i + 1;
    }
    proof {
        assert(v@.take(v@.len() as int) =~= v@);
    }
    out
}

/// Copies a draw list entry by entry.
fn copy_draws(v: &Vec<Draw>) -> (r: Vec<Draw>)
    ensures
        r@ == v@,
{
    let mut out: Vec<Draw> = Vec::new();
    let mut i: usize = 0;
    while i < v.len()
        invariant
            0 <= i <= v@.len(),
            out@ == v@.take(i as int),
        decreases v@.len() - i,
    {
        out.push(v[i]);
        proof {
            assert(out@ =~= v@.take(i + 1));
        }
        i = i + 1;
    }
    proof {
        assert(v@.take(v@.len() as int) =~= v@);
    }
    out
}

/// Copies an index list entry by entry.
pub(crate) fn copy_indices(v: &Vec<usize>) -> (r: Vec<usize>)
    ensures
        r@ == v@,
{
    let mut out: Vec<usize> = Vec::new();
    let mut i: usize = 0;
    while i < v.len()
        invariant
            0 <= i <= v@.len(),
            out@ == v@.take(i as int),
        decreases v@.len() - i,
    {
        out.push(v[i]);
        proof {
            assert(out@ =~= v@.take(i + 1));
        }
        i = i + 1;
    }
    proof {
        assert(v@.take(v@.len() as int) =~= v@);
    }
    out
}

/// Copies a size list entry by entry.
fn copy_sizes(v: &Vec<u64>) -> (r: Vec<u64>)
    ensures
        r@ == v@,
{
    copy_words(v)
}

/// Whether two records hold the same words.
pub(crate) fn records_equal(a: &Vec<u64>, b: &Vec<u64>) -> (r: bool)
    ensures
        r == (a@ == b@),
{
    if a.len() != b.len() {
        proof {
            assert(a@.len() != b@.len());
        }
        return false;
    }
    let mut i: usize = 0;
    while i < a.len()
        invariant
            a@.len() == b@.len(),
            0 <= i <= a@.len(),
            forall|k: int| 0 <= k < i ==> a@[k] == b@[k],
        decreases a@.len() - i,
    {
        if a[i] != b[i] {
            return false;
        }
        i = i + 1;
    }
    proof {
        assert(a@ =~= b@);
    }
    true
}

/// Whether two byte strings are equal.
pub(crate) fn bytes_equal(a: &Vec<u8>, b: &Vec<u8>) -> (r: bool)
    ensures
        r == (a@ == b@),
{
    if a.len() != b.len() {
        proof {
            assert(a@.len() != b@.len());
        }
        return false;
    }
    let mut i: usize = 0;
    while i < a.len()
        invariant
            a@.len() == b@.len(),
            0 <= i <= a@.len(),
            forall|k: int| 0 <= k < i ==> a@[k] == b@[k],
        decreases a@.len() - i,
    {
        if a[i] != b[i] {
            return false;
        }
        i = i + 1;
    }
    proof {
        assert(a@ =~= b@);
    }
    true
}

/// Whether `prefix` is an initial segment of `big`.
pub(crate) fn record_starts_with(big: &Vec<u64>, prefix: &Vec<u64>) -> (r: bool)
    ensures
        r == (prefix@.len() <= big@.len() && prefix@ == big@.take(prefix@.len() as int)),
{
    if prefix.len() > big.len() {
        return false;
    }
    let mut i: usize = 0;
    while i < prefix.len()
        invariant
            prefix@.len() <= big@.len(),
            0 <= i <= prefix@.len(),
            forall|k: int| 0 <= k < i ==> prefix@[k] == big@[k],
        decreases prefix@.len() - i,
    {
        if prefix[i] != big[i] {
            proof {
                assert(big@.take(prefix@.len() as int)[i as int] == big@[i as int]);
            }
            return false;
        }
        i = i + 1;
    }
    proof {
        assert(prefix@ =~= big@.take(prefix@.len() as int));
    }
    true
}

/// The record with position `i` replaced by `x`.
pub(crate) fn with_value(v: &Vec<u64>, i: usize, x: u64) -> (r: Vec<u64>)
    requires
        i < v@.len(),
    ensures
        r@ == v@.update(i as int, x),
{
    let mut out = copy_words(v);
    out.set(i, x);
    out
}

/// The record with the word range `start..end` removed.
pub(crate) fn remove_range(v: &Vec<u64>, start: usize, end: usize) -> (r: Vec<u64>)
    requires
        start <= end <= v@.len(),
    ensures
        r@ == v@.take(start as int) + v@.skip(end as int),
        r@.len() == v@.len() - (end - start),
{
    let mut out: Vec<u64> = Vec::new();
    let mut i: usize = 0;
    while i < start
        invariant
            start <= end <= v@.len(),
            0 <= i <= start,
            out@ == v@.take(i as int),
        decreases start - i,
    {
        out.push(v[i]);
        proof {
            assert(out@ =~= v@.take(i + 1));
        }
        i = i + 1;
    }
    let mut j: usize = end;
    while j < v.len()
        invariant
            start <= end <= v@.len(),
            end <= j <= v@.len(),
            out@ == v@.take(start as int) + v@.subrange(end as int, j as int),
        decreases v@.len() - j,
    {
        out.push(v[j]);
        proof {
            assert(out@ =~= v@.take(start as int) + v@.subrange(end as int, j + 1));
        }
        j = j + 1;
    }
    proof {
        assert(v@.subrange(end as int, v@.len() as int) =~= v@.skip(end as int));
        assert(out@ =~= v@.take(start as int) + v@.skip(end as int));
    }
    out
}

impl Clone for TestResult {
    /// A field-for-field copy: the clone carries the same record, sizes,
    /// draws, written positions and status.
    fn clone(&self) -> (res: TestResult)
        ensures
            res.record@ == self.record@,
            res.sizes@ == self.sizes@,
            res.draws@ == self.draws@,
            res.written_indices@ == self.written_indices@,
            res.status == self.status,
    {
        TestResult {
            record: copy_words(&self.record),
            status: self.status,
            draws: copy_draws(&self.draws),
            sizes: copy_sizes(&self.sizes),
            written_indices: copy_indices(&self.written_indices),
        }
    }
}

impl PartialEq for TestResult {
    /// Results compare equal exactly when their records do, as the shrink
    /// order only looks at records.
    fn eq(&self, other: &TestResult) -> (r: bool) {
        records_equal(&self.record, &other.record)
    }
}

impl Eq for TestResult {}

impl vstd::std_specs::cmp::PartialEqSpecImpl for TestResult {
    open spec fn obeys_eq_spec() -> bool {
        true
    }

    open spec fn eq_spec(&self, other: &TestResult) -> bool {
        self.record@ == other.record@
    }
}

/// Non-strict shrink order: equal records or strictly smaller.
pub open spec fn result_le(a: TestResult, b: TestResult) -> bool {
    a.record@ == b.record@ || result_lt(a, b)
}

/// The lexicographic order is transitive.
proof fn lemma_lex_trans(a: Seq<u64>, b: Seq<u64>, c: Seq<u64>)
    requires
        lex_lt(a, b),
        lex_lt(b, c),
    ensures
        lex_lt(a, c),
    decreases a.len(),
{
    if a[0] < b[0] || b[0] < c[0] {
        assert(a[0] < c[0]);
    } else {
        assert(a[0] == b[0] && b[0] == c[0]);
        lemma_lex_trans(a.skip(1), b.skip(1), c.skip(1));
    }
}

/// The shrink order on records is transitive.
proof fn lemma_stream_lt_trans(a: Seq<u64>, b: Seq<u64>, c: Seq<u64>)
    requires
        stream_lt(a, b),
        stream_lt(b, c),
    ensures
        stream_lt(a, c),
{
    if a.len() == b.len() && b.len() == c.len() {
        lemma_lex_trans(a, b, c);
    }
}

/// The engine's order on results is transitive, equal records included:
/// chaining per-step improvements gives improvement over any distance.
pub proof fn lemma_result_le_trans(a: TestResult, b: TestResult, c: TestResult)
    ensures
        result_le(a, b) && result_le(b, c) ==> result_le(a, c),
{
    if result_le(a, b) && result_le(b, c) {
        if a.record@ == b.record@ {
            if b.record@ == c.record@ {
            } else {
                assert(stream_lt(b.record@, c.record@));
                assert(stream_lt(a.record@, c.record@));
            }
        } else if b.record@ == c.record@ {
            assert(stream_lt(a.record@, b.record@));
            assert(stream_lt(a.record@, c.record@));
        } else {
            lemma_stream_lt_trans(a.record@, b.record@, c.record@);
        }
    }
}

/// The lexicographic order is total on equal-length records.
proof fn lemma_lex_total(a: Seq<u64>, b: Seq<u64>)
    requires
        a.len() == b.len(),
    ensures
        lex_lt(a, b) || lex_lt(b, a) || a == b,
    decreases a.len(),
{
    if a.len() == 0 {
        assert(a =~= b);
    } else if a[0] < b[0] {
        assert(lex_lt(a, b));
    } else if b[0] < a[0] {
        assert(lex_lt(b, a));
    } else {
        lemma_lex_total(a.skip(1), b.skip(1));
        if a.skip(1) == b.skip(1) {
            assert forall|i: int| 0 <= i < a.len() implies a[i] == b[i] by {
                if i > 0 {
                    assert(a.skip(1)[i - 1] == b.skip(1)[i - 1]);
                }
            }
            assert(a =~= b);
        }
    }
}

/// The shrink order is total: two results always compare, one way, the
/// other, or by equal records.
pub proof fn lemma_result_total(a: TestResult, b: TestResult)
    ensures
        result_lt(a, b) || result_lt(b, a) || a.record@ == b.record@,
{
    if a.record@.len() == b.record@.len() {
        lemma_lex_total(a.record@, b.record@);
    }
}

/// The word `w` masked to its `n` low bits; a full-width draw is unmasked.
pub open spec fn mask_spec(w: u64, n: u64) -> u64 {
    if n >= 64 {
        w
    } else {
        w & (((1u64 << n) - 1) as u64)
    }
}

/// The position a completed trace entry ends at.
pub open spec fn closed_end(d: DrawInProgress) -> int {
    match d.end {
        Some(e) => e as int,
        None => -1,
    }
}

/// The completed draws of a trace, in order: those whose `end` is resolved
/// and that span at least one word.
pub open spec fn completed_draws(ds: Seq<DrawInProgress>) -> Seq<Draw>
    decreases ds.len(),
{
    if ds.len() == 0 {
        Seq::empty()
    } else {
        let rest = completed_draws(ds.drop_last());
        let d = ds.last();
        match d.end {
            Some(e) => if d.start < e {
                rest.push(Draw { depth: d.depth, start: d.start, end: e })
            } else {
                rest
            },
            None => rest,
        }
    }
}

/// Every retained draw reads back a completed, non-empty entry of the
/// trace it was filtered from.
proof fn lemma_completed_sources(ds: Seq<DrawInProgress>)
    ensures
        forall|k: int|
            0 <= k < completed_draws(ds).len() ==> exists|i: int|
                0 <= i < ds.len() && (#[trigger] ds[i]).end is Some && closed_end(ds[i])
                    == (#[trigger] completed_draws(ds)[k]).end && ds[i].start == completed_draws(
                    ds,
                )[k].start && ds[i].depth == completed_draws(ds)[k].depth && ds[i].start
                    < completed_draws(ds)[k].end,
    decreases ds.len(),
{
    if ds.len() > 0 {
        let dd = ds.drop_last();
        lemma_completed_sources(dd);
        assert forall|k: int|
            0 <= k < completed_draws(ds).len() implies exists|i: int|
            0 <= i < ds.len() && (#[trigger] ds[i]).end is Some && closed_end(ds[i])
                == (#[trigger] completed_draws(ds)[k]).end && ds[i].start == completed_draws(
                ds,
            )[k].start && ds[i].depth == completed_draws(ds)[k].depth && ds[i].start
                < completed_draws(ds)[k].end by {
            if k < completed_draws(dd).len() {
                assert(completed_draws(ds)[k] == completed_draws(dd)[k]);
                let i = choose|i: int|
                    0 <= i < dd.len() && (#[trigger] dd[i]).end is Some && closed_end(dd[i])
                        == completed_draws(dd)[k].end && dd[i].start == completed_draws(dd)[k].start
                        && dd[i].depth == completed_draws(dd)[k].depth && dd[i].start
                        < completed_draws(dd)[k].end;
                assert(ds[i] == dd[i]);
            } else {
                let i = ds.len() - 1;
                assert(completed_draws(ds)[k] == completed_draws(ds).last());
                assert(ds[i].end is Some && closed_end(ds[i]) == completed_draws(ds)[k].end && ds[i].start
                    == completed_draws(ds)[k].start && ds[i].depth == completed_draws(ds)[k].depth);
            }
        }
    }
}

/// Every completed, non-empty trace entry is retained.
proof fn lemma_completed_complete(ds: Seq<DrawInProgress>, i: int)
    requires
        0 <= i < ds.len(),
        ds[i].end is Some,
        ds[i].start < closed_end(ds[i]),
    ensures
        exists|k: int|
            0 <= k < completed_draws(ds).len() && (#[trigger] completed_draws(ds)[k]).start == ds[i].start
                && completed_draws(ds)[k].end == closed_end(ds[i]) && completed_draws(ds)[k].depth
                == ds[i].depth,
    decreases ds.len(),
{
    let dd = ds.drop_last();
    if i == ds.len() - 1 {
        let k = completed_draws(ds).len() - 1;
        assert(completed_draws(ds)[k] == completed_draws(ds).last());
        assert(0 <= k < completed_draws(ds).len() && completed_draws(ds)[k].start == ds[i].start
            && completed_draws(ds)[k].end == closed_end(ds[i]) && completed_draws(ds)[k].depth
            == ds[i].depth);
    } else {
        assert(dd[i] == ds[i]);
        lemma_completed_complete(dd, i);
        let k = choose|k: int|
            0 <= k < completed_draws(dd).len() && (#[trigger] completed_draws(dd)[k]).start == dd[i].start
                && completed_draws(dd)[k].end == closed_end(dd[i]) && completed_draws(dd)[k].depth
                == dd[i].depth;
        assert(completed_draws(ds)[k] == completed_draws(dd)[k]);
        assert(0 <= k < completed_draws(ds).len() && completed_draws(ds)[k].start == ds[i].start
            && completed_draws(ds)[k].end == closed_end(ds[i]) && completed_draws(ds)[k].depth
            == ds[i].depth);
    }
}

/// When completed entries of one depth never overlap in the trace, the
/// retained draws of one depth never overlap either.
proof fn lemma_completed_disjoint(ds: Seq<DrawInProgress>)
    requires
        forall|i: int, j: int| #![trigger ds[i], ds[j]]
            0 <= i < j < ds.len() && ds[i].depth == ds[j].depth ==> trace_disjoint(ds[i], ds[j]),
    ensures
        forall|a: int, b: int| #![trigger completed_draws(ds)[a], completed_draws(ds)[b]]
            0 <= a < b < completed_draws(ds).len() && completed_draws(ds)[a].depth == completed_draws(
                ds,
            )[b].depth ==> draws_disjoint(completed_draws(ds)[a], completed_draws(ds)[b]),
    decreases ds.len(),
{
    if ds.len() > 0 {
        let dd = ds.drop_last();
        assert forall|i: int, j: int| #![trigger dd[i], dd[j]]
            0 <= i < j < dd.len() && dd[i].depth == dd[j].depth implies trace_disjoint(dd[i], dd[j]) by {
            assert(ds[i] == dd[i] && ds[j] == dd[j]);
            assert(trace_disjoint(ds[i], ds[j]));
        }
        lemma_completed_disjoint(dd);
        lemma_completed_sources(dd);
        assert forall|a: int, b: int| #![trigger completed_draws(ds)[a], completed_draws(ds)[b]]
            0 <= a < b < completed_draws(ds).len() && completed_draws(ds)[a].depth == completed_draws(
                ds,
            )[b].depth implies draws_disjoint(completed_draws(ds)[a], completed_draws(ds)[b]) by {
            if b < completed_draws(dd).len() {
                assert(completed_draws(ds)[a] == completed_draws(dd)[a]);
                assert(completed_draws(ds)[b] == completed_draws(dd)[b]);
            } else {
                assert(completed_draws(ds)[b] == completed_draws(ds).last());
                assert(completed_draws(ds)[a] == completed_draws(dd)[a]);
                let ia = choose|ia: int|
                    0 <= ia < dd.len() && (#[trigger] dd[ia]).end is Some && closed_end(dd[ia])
                        == completed_draws(dd)[a].end && dd[ia].start == completed_draws(dd)[a].start
                        && dd[ia].depth == completed_draws(dd)[a].depth && dd[ia].start
                        < completed_draws(dd)[a].end;
                assert(ds[ia] == dd[ia]);
                assert(trace_disjoint(ds[ia], ds[ds.len() - 1]));
            }
        }
    }
}

/// When every entry of the trace completed, each retained draw below the
/// top nesting level lies inside a retained draw one level up.
proof fn lemma_completed_nested(ds: Seq<DrawInProgress>)
    requires
        forall|i: int| 0 <= i < ds.len() ==> (#[trigger] ds[i]).end is Some,
        forall|i: int|
            0 <= i < ds.len() && (#[trigger] ds[i]).end is Some && ds[i].depth >= 1 ==> exists|b: int|
                0 <= b < ds.len() && (#[trigger] ds[b]).depth == ds[i].depth - 1 && trace_encloses(
                    ds[b],
                    ds[i],
                ),
    ensures
        forall|a: int|
            0 <= a < completed_draws(ds).len() && (#[trigger] completed_draws(ds)[a]).depth >= 1
                ==> exists|b: int|
                0 <= b < completed_draws(ds).len() && (#[trigger] completed_draws(ds)[b]).depth
                    == completed_draws(ds)[a].depth - 1 && completed_draws(ds)[b].start
                    <= completed_draws(ds)[a].start && completed_draws(ds)[a].end <= completed_draws(
                    ds,
                )[b].end,
{
    lemma_completed_sources(ds);
    assert forall|a: int|
        0 <= a < completed_draws(ds).len() && (#[trigger] completed_draws(ds)[a]).depth >= 1
            implies exists|b: int|
        0 <= b < completed_draws(ds).len() && (#[trigger] completed_draws(ds)[b]).depth
            == completed_draws(ds)[a].depth - 1 && completed_draws(ds)[b].start <= completed_draws(
            ds,
        )[a].start && completed_draws(ds)[a].end <= completed_draws(ds)[b].end by {
        let ia = choose|ia: int|
            0 <= ia < ds.len() && (#[trigger] ds[ia]).end is Some && closed_end(ds[ia])
                == completed_draws(ds)[a].end && ds[ia].start == completed_draws(ds)[a].start
                && ds[ia].depth == completed_draws(ds)[a].depth && ds[ia].start < completed_draws(
                ds,
            )[a].end;
        let bt = choose|bt: int|
            0 <= bt < ds.len() && (#[trigger] ds[bt]).depth == ds[ia].depth - 1 && trace_encloses(
                ds[bt],
                ds[ia],
            );
        assert(ds[bt].end is Some);
        assert(ds[bt].start < closed_end(ds[bt]));
        lemma_completed_complete(ds, bt);
        let k = choose|k: int|
            0 <= k < completed_draws(ds).len() && (#[trigger] completed_draws(ds)[k]).start == ds[bt].start
                && completed_draws(ds)[k].end == closed_end(ds[bt]) && completed_draws(ds)[k].depth
                == ds[bt].depth;
        assert(0 <= k < completed_draws(ds).len() && completed_draws(ds)[k].depth == completed_draws(
            ds,
        )[a].depth - 1 && completed_draws(ds)[k].start <= completed_draws(ds)[a].start
            && completed_draws(ds)[a].end <= completed_draws(ds)[k].end);
    }
}

/// Main entry point for running a test: the test function draws words from a
/// `DataSource`, and the source records everything the test did with it.
#[derive(Debug)]
pub struct DataSource {
    bitgenerator: BitGenerator,
    record: DataStream,
    sizes: Vec<u64>,
    draws: Vec<DrawInProgress>,
    draw_stack: Vec<usize>,
    written_indices: Vec<usize>,
}

impl DataSource {
    /// The words recorded so far.
    pub closed spec fn record_view(self) -> Seq<u64> {
        self.record@
    }

    /// The bit-width recorded for each word.
    pub closed spec fn sizes_view(self) -> Seq<u64> {
        self.sizes@
    }

    /// Every draw started so far, open or completed.
    pub closed spec fn draws_view(self) -> Seq<DrawInProgress> {
        self.draws@
    }

    /// The indices of the draws currently open, innermost last.
    pub closed spec fn stack_view(self) -> Seq<usize> {
        self.draw_stack@
    }

    /// The positions filled by `write` rather than drawn.
    pub closed spec fn written_view(self) -> Seq<usize> {
        self.written_indices@
    }

    /// The source replays a recorded buffer.
    pub closed spec fn is_recorded(self) -> bool {
        self.bitgenerator is Recorded
    }

    /// The buffer a recorded source replays.
    pub closed spec fn buf_view(self) -> Seq<u64> {
        match self.bitgenerator {
            BitGenerator::Recorded(v) => v@,
            BitGenerator::Random(_) => Seq::empty(),
        }
    }

    /// A recorded source with its cursor at or past the end of its buffer:
    /// every further `bits` or `write` call fails.
    pub open spec fn exhausted(self) -> bool {
        self.is_recorded() && self.record_view().len() >= self.buf_view().len()
    }

    /// Some draw has been started but not stopped.
    pub open spec fn has_open_draws(self) -> bool {
        exists|i: int| 0 <= i < self.draws_view().len() && (#[trigger] self.draws_view()[i]).end is None
    }

    /// Internal consistency of a source: one size per word, draws anchored
    /// inside the record, the open-draw stack increasing and pointing at open
    /// draws, written positions exactly the zero-size ones, and the cursor of
    /// a recorded source inside its buffer.
    pub closed spec fn wf(self) -> bool {
        &&& self.record@.len() == self.sizes@.len()
        &&& forall|i: int| 0 <= i < self.draws@.len() ==> (#[trigger] self.draws@[i]).start <= self.record@.len()
        &&& forall|i: int| 0 <= i < self.draws@.len() ==> match (#[trigger] self.draws@[i]).end {
                Some(e) => self.draws@[i].start <= e <= self.record@.len(),
                None => true,
            }
        &&& forall|k: int| 0 <= k < self.draw_stack@.len() ==> #[trigger] self.draw_stack@[k] < self.draws@.len()
        &&& forall|k: int| 0 <= k < self.draw_stack@.len() ==> (#[trigger] self.draws@[self.draw_stack@[k] as int]).end is None
        &&& forall|k: int, l: int| 0 <= k < l < self.draw_stack@.len() ==> self.draw_stack@[k] < self.draw_stack@[l]
        &&& forall|i: int|
            0 <= i < self.draws@.len() && (#[trigger] self.draws@[i]).end is None
                ==> exists|k: int| 0 <= k < self.draw_stack@.len() && self.draw_stack@[k] == i
        &&& forall|k: int|
            0 <= k < self.draw_stack@.len() ==> (#[trigger] self.draws@[self.draw_stack@[k] as int]).depth
                == k
        &&& forall|k: int, l: int| #![trigger self.draw_stack@[k], self.draw_stack@[l]]
            0 <= k < l < self.draw_stack@.len()
                ==> self.draws@[self.draw_stack@[k] as int].start
                <= self.draws@[self.draw_stack@[l] as int].start
        &&& forall|i: int, k: int| #![trigger self.draws@[i], self.draw_stack@[k]]
            0 <= i < self.draws@.len() && 0 <= k < self.draw_stack@.len() && self.draws@[i].depth
                == k && i != self.draw_stack@[k] ==> ends_before(
                self.draws@[i],
                self.draws@[self.draw_stack@[k] as int].start as int,
            )
        &&& forall|i: int, j: int| #![trigger self.draws@[i], self.draws@[j]]
            0 <= i < j < self.draws@.len() && self.draws@[i].depth == self.draws@[j].depth
                ==> trace_disjoint(self.draws@[i], self.draws@[j])
        &&& forall|i: int|
            0 <= i < self.draws@.len() && (#[trigger] self.draws@[i]).end is Some
                && self.draws@[i].depth >= 1 ==> exists|b: int|
                0 <= b < self.draws@.len() && (#[trigger] self.draws@[b]).depth == self.draws@[i].depth
                    - 1 && trace_encloses(self.draws@[b], self.draws@[i])
        &&& forall|i: int| 0 <= i < self.written_indices@.len() ==> #[trigger] self.written_indices@[i] < self.record@.len()
        &&& forall|i: int, j: int| 0 <= i < j < self.written_indices@.len() ==> self.written_indices@[i] < self.written_indices@[j]
        &&& forall|i: int| 0 <= i < self.written_indices@.len() ==> self.sizes@[#[trigger] self.written_indices@[i] as int] == 0
        &&& forall|k: int| 0 <= k < self.sizes@.len() && self.sizes@[k] == 0 ==> self.written_indices@.contains(k as usize)
        &&& (self.is_recorded() ==> self.record@.len() <= self.buf_view().len())
    }

    /// An empty trace over the given generator.
    fn new(generator: BitGenerator) -> (s: DataSource)
        ensures
            s.wf(),
            s.record_view().len() == 0,
            s.sizes_view().len() == 0,
            s.draws_view().len() == 0,
            s.stack_view().len() == 0,
            s.written_view().len() == 0,
            s.is_recorded() == (generator is Recorded),
            s.bitgenerator == generator,
    {
        DataSource {
            bitgenerator: generator,
            record: Vec::new(),
            sizes: Vec::new(),
            draws: Vec::new(),
            draw_stack: Vec::new(),
            written_indices: Vec::new(),
        }
    }

    /// A fresh source drawing from a seeded generator.
    pub fn from_random(random: rand::ChaChaRng) -> (s: DataSource)
        ensures
            s.wf(),
            !s.is_recorded(),
            s.record_view().len() == 0,
            s.sizes_view().len() == 0,
            s.draws_view().len() == 0,
            s.stack_view().len() == 0,
            s.written_view().len() == 0,
    {
        DataSource::new(BitGenerator::Random(random))
    }

    /// A fresh source replaying the given buffer.
    pub fn from_vec(record: DataStream) -> (s: DataSource)
        ensures
            s.wf(),
            s.is_recorded(),
            s.buf_view() == record@,
            s.record_view().len() == 0,
            s.sizes_view().len() == 0,
            s.draws_view().len() == 0,
            s.stack_view().len() == 0,
            s.written_view().len() == 0,
    {
        DataSource::new(BitGenerator::Recorded(record))
    }

    /// Opens a draw at the current position, one level deeper than the
    /// innermost open draw.
    pub fn start_draw(&mut self)
        requires
            old(self).wf(),
        ensures
            final(self).wf(),
            final(self).record_view() == old(self).record_view(),
            final(self).sizes_view() == old(self).sizes_view(),
            final(self).written_view() == old(self).written_view(),
            final(self).is_recorded() == old(self).is_recorded(),
            final(self).buf_view() == old(self).buf_view(),
            final(self).draws_view() == old(self).draws_view().push(
                DrawInProgress {
                    depth: old(self).stack_view().len() as usize,
                    start: old(self).record_view().len() as usize,
                    end: None,
                },
            ),
            final(self).stack_view() == old(self).stack_view().push(old(self).draws_view().len() as usize),
    {
        let i = self.draws.len();
        let depth = self.draw_stack.len();
        let start = self.record.len();

        self.draw_stack.push(i);
        self.draws.push(DrawInProgress { depth, start, end: None });
        proof {
            let nd = self.draws@.len() - 1;
            assert forall|ii: int, k: int| #![trigger self.draws@[ii], self.draw_stack@[k]]
                0 <= ii < self.draws@.len() && 0 <= k < self.draw_stack@.len() && self.draws@[ii].depth
                    == k && ii != self.draw_stack@[k] implies ends_before(
                self.draws@[ii],
                self.draws@[self.draw_stack@[k] as int].start as int,
            ) by {
                if k == self.draw_stack@.len() - 1 {
                    assert(ii < nd);
                    assert(self.draws@[ii] == old(self).draws@[ii]);
                    if old(self).draws@[ii].end is None {
                        let kk = choose|kk: int|
                            0 <= kk < old(self).draw_stack@.len() && old(self).draw_stack@[kk] == ii;
                        assert(old(self).draws@[old(self).draw_stack@[kk] as int].depth == kk);
                        assert(old(self).draws@[ii].depth == kk);
                        assert(false);
                    }
                    assert(self.draws@[self.draw_stack@[k] as int].start == old(self).record@.len());
                } else {
                    if ii == nd {
                        assert(self.draws@[ii].depth == self.draw_stack@.len() - 1);
                        assert(false);
                    }
                    assert(self.draws@[ii] == old(self).draws@[ii]);
                    assert(self.draw_stack@[k] == old(self).draw_stack@[k]);
                    assert(ends_before(
                        old(self).draws@[ii],
                        old(self).draws@[old(self).draw_stack@[k] as int].start as int,
                    ));
                }
            }
            assert forall|ii: int, jj: int| #![trigger self.draws@[ii], self.draws@[jj]]
                0 <= ii < jj < self.draws@.len() && self.draws@[ii].depth == self.draws@[jj].depth
                    implies trace_disjoint(self.draws@[ii], self.draws@[jj]) by {
                if jj == nd {
                    assert(self.draws@[jj].end is None);
                } else {
                    assert(self.draws@[ii] == old(self).draws@[ii]);
                    assert(self.draws@[jj] == old(self).draws@[jj]);
                }
            }
            assert forall|ii: int|
                0 <= ii < self.draws@.len() && (#[trigger] self.draws@[ii]).end is Some
                    && self.draws@[ii].depth >= 1 implies exists|b: int|
                0 <= b < self.draws@.len() && (#[trigger] self.draws@[b]).depth == self.draws@[ii].depth
                    - 1 && trace_encloses(self.draws@[b], self.draws@[ii]) by {
                assert(ii < nd);
                assert(self.draws@[ii] == old(self).draws@[ii]);
                let b = choose|b: int|
                    0 <= b < old(self).draws@.len() && (#[trigger] old(self).draws@[b]).depth == old(
                        self,
                    ).draws@[ii].depth - 1 && trace_encloses(old(self).draws@[b], old(self).draws@[ii]);
                assert(self.draws@[b] == old(self).draws@[b]);
                assert(0 <= b < self.draws@.len() && self.draws@[b].depth == self.draws@[ii].depth - 1
                    && trace_encloses(self.draws@[b], self.draws@[ii]));
            }
            assert forall|a: int|
                0 <= a < self.draws@.len() && (#[trigger] self.draws@[a]).end is None implies exists|k: int|
                0 <= k < self.draw_stack@.len() && self.draw_stack@[k] == a by {
                if a < self.draws@.len() - 1 {
                    assert(old(self).draws@[a].end is None);
                    let k = choose|k: int|
                        0 <= k < old(self).draw_stack@.len() && old(self).draw_stack@[k] == a;
                    assert(self.draw_stack@[k] == a);
                } else {
                    let k = self.draw_stack@.len() - 1;
                    assert(self.draw_stack@[k] == a);
                }
            }
        }
    }

    /// Closes the innermost open draw at the current position.
    pub fn stop_draw(&mut self)
        requires
            old(self).wf(),
            old(self).stack_view().len() > 0,
        ensures
            final(self).wf(),
            final(self).record_view() == old(self).record_view(),
            final(self).sizes_view() == old(self).sizes_view(),
            final(self).is_recorded() == old(self).is_recorded(),
            final(self).buf_view() == old(self).buf_view(),
            final(self).written_view() == old(self).written_view(),
            final(self).stack_view() == old(self).stack_view().drop_last(),
            final(self).draws_view() == old(self).draws_view().update(
                old(self).stack_view().last() as int,
                DrawInProgress {
                    depth: old(self).draws_view()[old(self).stack_view().last() as int].depth,
                    start: old(self).draws_view()[old(self).stack_view().last() as int].start,
                    end: Some(old(self).record_view().len() as usize),
                },
            ),
    {
        let i = self.draw_stack.pop().unwrap();
        let end = self.record.len();
        let d = self.draws[i];
        self.draws.set(i, DrawInProgress { depth: d.depth, start: d.start, end: Some(end) });
        proof {
            let t = old(self).stack_view().last();
            assert(t == i);
            assert(self.draws@[t as int].end is Some);
            assert(self.draw_stack@ == old(self).draw_stack@.drop_last());
            let td = old(self).draw_stack@.len() - 1;
            assert(old(self).draws@[t as int].depth == td);
            assert forall|ii: int, jj: int| #![trigger self.draws@[ii], self.draws@[jj]]
                0 <= ii < jj < self.draws@.len() && self.draws@[ii].depth == self.draws@[jj].depth
                    implies trace_disjoint(self.draws@[ii], self.draws@[jj]) by {
                if ii != t as int && jj != t as int {
                    assert(self.draws@[ii] == old(self).draws@[ii]);
                    assert(self.draws@[jj] == old(self).draws@[jj]);
                } else {
                    let other: int = if ii == t as int {
                        jj
                    } else {
                        ii
                    };
                    assert(self.draws@[other] == old(self).draws@[other]);
                    assert(old(self).draws@[other].depth == td);
                    if old(self).draws@[other].end is None {
                        let kk = choose|kk: int|
                            0 <= kk < old(self).draw_stack@.len() && old(self).draw_stack@[kk] == other;
                        assert(old(self).draws@[old(self).draw_stack@[kk] as int].depth == kk);
                        assert(kk == td);
                        assert(false);
                    }
                    assert(ends_before(old(self).draws@[other], old(self).draws@[t as int].start as int));
                }
            }
            assert forall|ii: int|
                0 <= ii < self.draws@.len() && (#[trigger] self.draws@[ii]).end is Some
                    && self.draws@[ii].depth >= 1 implies exists|b: int|
                0 <= b < self.draws@.len() && (#[trigger] self.draws@[b]).depth == self.draws@[ii].depth
                    - 1 && trace_encloses(self.draws@[b], self.draws@[ii]) by {
                if ii == t as int {
                    let b = old(self).draw_stack@[td - 1];
                    assert(old(self).draws@[b as int].depth == td - 1);
                    assert(b != t);
                    assert(self.draws@[b as int] == old(self).draws@[b as int]);
                    assert(old(self).draws@[b as int].end is None);
                    assert(old(self).draws@[b as int].start <= old(self).draws@[t as int].start);
                    let bi = b as int;
                    assert(0 <= bi < self.draws@.len() && self.draws@[bi].depth
                        == self.draws@[ii].depth - 1 && trace_encloses(self.draws@[bi], self.draws@[ii]));
                } else {
                    assert(self.draws@[ii] == old(self).draws@[ii]);
                    let b0 = choose|b0: int|
                        0 <= b0 < old(self).draws@.len() && (#[trigger] old(self).draws@[b0]).depth == old(
                            self,
                        ).draws@[ii].depth - 1 && trace_encloses(old(self).draws@[b0], old(self).draws@[ii]);
                    if b0 == t as int {
                        assert(self.draws@[b0].start == old(self).draws@[b0].start);
                        assert(match old(self).draws@[ii].end {
                            Some(e) => e <= old(self).record@.len(),
                            None => true,
                        });
                        assert(trace_encloses(self.draws@[b0], self.draws@[ii]));
                    } else {
                        assert(self.draws@[b0] == old(self).draws@[b0]);
                    }
                    assert(0 <= b0 < self.draws@.len() && self.draws@[b0].depth == self.draws@[ii].depth - 1
                        && trace_encloses(self.draws@[b0], self.draws@[ii]));
                }
            }
            assert forall|a: int|
                0 <= a < self.draws@.len() && (#[trigger] self.draws@[a]).end is None implies exists|k: int|
                0 <= k < self.draw_stack@.len() && self.draw_stack@[k] == a by {
                assert(a != t as int);
                assert(self.draws@[a] == old(self).draws@[a]);
                assert(old(self).draws@[a].end is None);
                let k = choose|k: int|
                    0 <= k < old(self).draw_stack@.len() && old(self).draw_stack@[k] == a;
                if k == old(self).draw_stack@.len() - 1 {
                    assert(old(self).draw_stack@[k] == t);
                    assert(false);
                }
                assert(k < self.draw_stack@.len());
                assert(self.draw_stack@[k] == old(self).draw_stack@[k]);
                assert(self.draw_stack@[k] == a);
            }
        }
    }

    /// Appends a value the generator synthesized itself; the position is
    /// remembered so that the shrinker never minimizes it independently.
    pub fn write(&mut self, value: u64) -> (r: Result<(), FailedDraw>)
        requires
            old(self).wf(),
        ensures
            final(self).wf(),
            final(self).is_recorded() == old(self).is_recorded(),
            final(self).buf_view() == old(self).buf_view(),
            final(self).draws_view() == old(self).draws_view(),
            final(self).stack_view() == old(self).stack_view(),
            old(self).exhausted() ==> r is Err && *final(self) == *old(self),
            !old(self).exhausted() ==> {
                &&& r is Ok
                &&& final(self).record_view() == old(self).record_view().push(value)
                &&& final(self).sizes_view() == old(self).sizes_view().push(0u64)
                &&& final(self).written_view() == old(self).written_view().push(old(self).record_view().len() as usize)
            },
    {
        let failed = match self.bitgenerator {
            BitGenerator::Recorded(ref v) => self.record.len() >= v.len(),
            BitGenerator::Random(_) => false,
        };
        if failed {
            return Err(FailedDraw);
        }
        self.written_indices.push(self.record.len());
        self.sizes.push(0);
        self.record.push(value);
        proof {
            let ow = old(self).written_indices@;
            let nw = self.written_indices@;
            assert forall|k: int| 0 <= k < self.sizes@.len() && self.sizes@[k] == 0 implies nw.contains(
                k as usize,
            ) by {
                if k < old(self).sizes@.len() {
                    assert(old(self).sizes@[k] == 0);
                    assert(ow.contains(k as usize));
                    let j = choose|j: int| 0 <= j < ow.len() && ow[j] == k as usize;
                    assert(nw[j] == k as usize);
                } else {
                    assert(nw[nw.len() - 1] == k as usize);
                }
            };
        }
        Ok(())
    }

    /// Draws one word masked to `n_bits` low bits and records it together
    /// with its width. A full-width draw is returned unmasked; a narrower one
    /// is strictly below `2^n_bits`.
    pub fn bits(&mut self, n_bits: u64) -> (r: Result<u64, FailedDraw>)
        requires
            old(self).wf(),
            1 <= n_bits <= 64,
        ensures
            final(self).wf(),
            final(self).is_recorded() == old(self).is_recorded(),
            final(self).buf_view() == old(self).buf_view(),
            final(self).draws_view() == old(self).draws_view(),
            final(self).stack_view() == old(self).stack_view(),
            final(self).written_view() == old(self).written_view(),
            old(self).exhausted() ==> r is Err && *final(self) == *old(self),
            !old(self).exhausted() ==> {
                &&& r is Ok
                &&& final(self).record_view() == old(self).record_view().push(r.unwrap())
                &&& final(self).sizes_view() == old(self).sizes_view().push(n_bits)
                &&& (n_bits < 64 ==> r.unwrap() < (1u64 << n_bits))
                &&& (old(self).is_recorded() ==> r.unwrap() == mask_spec(
                    old(self).buf_view()[old(self).record_view().len() as int],
                    n_bits,
                ))
            },
    {
        let mut result: u64 = match self.bitgenerator {
            BitGenerator::Random(ref mut random) => crate::random::next_word(random),
            BitGenerator::Recorded(ref v) => {
                if self.record.len() >= v.len() {
                    return Err(FailedDraw);
                } else {
                    v[self.record.len()]
                }
            },
        };

        if n_bits < 64 {
            proof {
                let n = n_bits;
                let w = result;
                assert(1u64 <= (1u64 << n)) by (bit_vector)
                    requires n < 64u64;
                assert(w & (((1u64 << n) - 1) as u64) < (1u64 << n)) by (bit_vector)
                    requires n < 64u64;
            }
            let mask = (1u64 << n_bits) - 1;
            result = result & mask;
        }

        self.sizes.push(n_bits);
        self.record.push(result);

        Ok(result)
    }

    /// Seals the source into an immutable result carrying the given status.
    /// A trace with an open draw can only be sealed as `Invalid` or
    /// `Overflow`; the completed draws are kept, the open ones dropped.
    pub fn into_result(self, status: Status) -> (r: TestResult)
        requires
            self.wf(),
            self.has_open_draws() ==> status == Status::Invalid || status == Status::Overflow,
        ensures
            valid_result(r),
            nested_result(r),
            r.record@ == self.record_view(),
            r.sizes@ == self.sizes_view(),
            r.status == status,
            r.written_indices@ == self.written_view(),
            r.draws@ == completed_draws(self.draws_view()),
    {
        let ghost ds = self.draws@;
        let mut kept: Vec<Draw> = Vec::new();
        let mut i: usize = 0;
        proof {
            assert(ds.take(0) =~= Seq::<DrawInProgress>::empty());
        }
        while i < self.draws.len()
            invariant
                self.wf(),
                ds == self.draws@,
                0 <= i <= ds.len(),
                kept@ == completed_draws(ds.take(i as int)),
                forall|k: int| 0 <= k < kept@.len() ==> draw_in_bounds(#[trigger] kept@[k], self.record@.len() as int),
            decreases ds.len() - i,
        {
            let d = self.draws[i];
            proof {
                assert(ds.take(i + 1).drop_last() =~= ds.take(i as int));
                assert(ds.take(i + 1).last() == ds[i as int]);
            }
            match d.end {
                Some(end) => {
                    if d.start < end {
                        kept.push(Draw { depth: d.depth, start: d.start, end });
                    }
                },
                None => {},
            }
            i = i + 1;
        }
        proof {
            assert(ds.take(ds.len() as int) =~= ds);
            lemma_completed_disjoint(ds);
            if status == Status::Valid || status is Interesting {
                assert forall|ii: int| 0 <= ii < ds.len() implies (#[trigger] ds[ii]).end is Some by {
                    if ds[ii].end is None {
                        assert(self.has_open_draws());
                    }
                }
                lemma_completed_nested(ds);
            }
        }
        TestResult {
            record: self.record,
            status,
            written_indices: self.written_indices,
            sizes: self.sizes,
            draws: kept,
        }
    }
}

impl DataSource {
    /// How many draws are currently open.
    pub fn open_draw_count(&self) -> (n: usize)
        ensures
            n == self.stack_view().len(),
    {
        self.draw_stack.len()
    }
}

/// In a consistent source the open draws are exactly the stacked ones, so a
/// host can decide "are any draws still open" by looking at the stack.
pub proof fn lemma_open_draws_iff_stack(s: DataSource)
    requires
        s.wf(),
    ensures
        s.has_open_draws() <==> s.stack_view().len() > 0,
{
    if s.stack_view().len() > 0 {
        let i = s.stack_view()[0];
        assert(s.draws_view()[i as int].end is None);
    }
}

/// A source built over an empty buffer is exhausted from the start, so by the
/// contracts of `bits` and `write` every draw on it fails.
pub proof fn lemma_empty_buffer_always_fails(s: DataSource)
    requires
        s.is_recorded(),
        s.buf_view().len() == 0,
    ensures
        s.exhausted(),
{
}

/// One unfolding step of the lexicographic order: if the first `i` positions
/// agree, comparison of the tails at `i` and `i + 1` gives the same answer.
proof fn lemma_lex_unfold(a: Seq<u64>, b: Seq<u64>, i: int)
    requires
        a.len() == b.len(),
        0 <= i < a.len(),
        forall|k: int| 0 <= k < i ==> a[k] == b[k],
    ensures
        lex_lt(a.skip(i), b.skip(i)) == (a[i] < b[i] || (a[i] == b[i] && lex_lt(a.skip(i + 1), b.skip(i + 1)))),
{
    assert(a.skip(i).len() == a.len() - i);
    assert(a.skip(i)[0] == a[i]);
    assert(b.skip(i)[0] == b[i]);
    assert(a.skip(i).skip(1) =~= a.skip(i + 1));
    assert(b.skip(i).skip(1) =~= b.skip(i + 1));
}

} // verus!
