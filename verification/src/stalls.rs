//! The stall-watching burner: counts like the plain burner and records the
//! longest time a batch took, freezes by the scheduler included.
use vstd::prelude::*;
use crate::burn::{burn_batch, clock_now, nanos_between, nanos_since, run_of_checks, within, BATCH, NANOS_PER_SEC};

verus! {

/// The longest of the gaps, 0 when there are none.
pub open spec fn longest(gaps: Seq<u128>) -> u128
    decreases gaps.len(),
{
    if gaps.len() == 0 {
        0
    } else {
        let m = longest(gaps.drop_last());
        if gaps.last() > m {
            gaps.last()
        } else {
            m
        }
    }
}

/// The longest batch so far, after one more batch took `gap`.
pub fn note_gap(longest_so_far: u128, gap: u128) -> (r: u128)
    ensures
        r == if gap > longest_so_far {
            gap
        } else {
            longest_so_far
        },
{
    if gap > longest_so_far {
        gap
    } else {
        longest_so_far
    }
}

/// What a stall-watching run of `secs` seconds gives: its clock checks as
/// in `run_of_checks`, one gap measured after each batch, `count` the
/// batches counted and `longest_gap` the longest of the gaps.
pub open spec fn stall_run(readings: Seq<u128>, gaps: Seq<u128>, secs: u64, count: u64, longest_gap: u128) -> bool {
    &&& run_of_checks(readings, secs, BATCH, count)
    &&& gaps.len() + 1 == readings.len()
    &&& longest_gap == longest(gaps)
}

/// The time from clock mark `a` to a later mark `b`, 0 if `b` reads
/// earlier (as `Instant::duration_since` saturates).
pub open spec fn between(a: u128, b: u128) -> u128 {
    if b >= a {
        (b - a) as u128
    } else {
        0
    }
}

/// `longest_gap` is the longest time between two consecutive clock marks,
/// 0 when there is only one mark.
pub open spec fn stall_gaps(marks: Seq<u128>, longest_gap: u128) -> bool {
    &&& marks.len() >= 1
    &&& forall|i: int| 0 <= i < marks.len() - 1 ==> #[trigger] between(marks[i], marks[i + 1]) <= longest_gap
    &&& marks.len() > 1 ==> exists|i: int|
        0 <= i < marks.len() - 1 && #[trigger] between(marks[i], marks[i + 1]) == longest_gap
    &&& marks.len() == 1 ==> longest_gap == 0
}

/// Counts for `secs` seconds like the plain burner, and also measures each
/// batch from the end of the one before (the first from the start), stalls
/// included: returns the count and the longest batch in nanoseconds. The
/// clock checks run as in `run_of_checks`; the clock is marked once before
/// the first batch and once after each batch, and the longest stall is the
/// longest time between two consecutive marks, 0 when no batch ran.
pub fn burn(secs: u64) -> (r: (u64, u128))
    ensures
        exists|readings: Seq<u128>, gaps: Seq<u128>| stall_run(readings, gaps, secs, r.0, r.1),
        exists|readings: Seq<u128>, marks: Seq<u128>|
            run_of_checks(readings, secs, BATCH, r.0) && marks.len() == readings.len()
                && stall_gaps(marks, r.1),
        r.0 % BATCH == 0,
        r.0 == 0 ==> r.1 == 0,
        secs == 0 ==> r == (0u64, 0u128),
{
    let start = clock_now();
    let mut count: u64 = 0;
    let mut max_stall: u128 = 0;
    let first = clock_now();
    let mut last_mark = nanos_between(&first, &start);
    let ghost mut readings: Seq<u128> = Seq::empty();
    let ghost mut gaps: Seq<u128> = Seq::empty();
    let ghost mut marks: Seq<u128> = seq![last_mark];
    loop
        invariant_except_break
            count == readings.len() * BATCH,
            forall|i: int| 0 <= i < readings.len() ==> #[trigger] readings[i] < secs * NANOS_PER_SEC,
            gaps.len() == readings.len(),
            marks.len() == gaps.len() + 1,
            last_mark == marks.last(),
            forall|i: int| 0 <= i < gaps.len() ==> #[trigger] gaps[i] == between(marks[i], marks[i + 1]),
            max_stall == longest(gaps),
        ensures
            run_of_checks(readings, secs, BATCH, count),
            gaps.len() + 1 == readings.len(),
            marks.len() == readings.len(),
            forall|i: int| 0 <= i < gaps.len() ==> #[trigger] gaps[i] == between(marks[i], marks[i + 1]),
            max_stall == longest(gaps),
        decreases u64::MAX - count,
    {
        let elapsed = nanos_since(&start);
        proof {
            readings = readings.push(elapsed);
        }
        if !(within(elapsed, secs) && count <= u64::MAX - BATCH) {
            break;
        }
        count = burn_batch(count);
        let now = clock_now();
        let mark = nanos_between(&now, &start);
        let gap = if mark >= last_mark {
            mark - last_mark
        } else {
            0
        };
        max_stall = note_gap(max_stall, gap);
        proof {
            let old_gaps = gaps;
            let old_marks = marks;
            gaps = gaps.push(gap);
            marks = marks.push(mark);
            assert(gaps.drop_last() =~= old_gaps);
            assert forall|i: int| 0 <= i < gaps.len() implies #[trigger] gaps[i] == between(
                marks[i],
                marks[i + 1],
            ) by {
                if i < old_gaps.len() {
                    assert(gaps[i] == old_gaps[i]);
                    assert(marks[i] == old_marks[i]);
                    assert(marks[i + 1] == old_marks[i + 1]);
                } else {
                    assert(marks[i] == old_marks.last());
                }
            }
        }
        last_mark = mark;
    }
    proof {
        vstd::arithmetic::div_mod::lemma_mod_multiples_basic(readings.len() - 1, BATCH as int);
        if secs == 0 && readings.len() > 1 {
            assert(readings[0] < secs * NANOS_PER_SEC);
        }
        if count == 0 {
            assert(gaps.len() == 0);
        }
        lemma_longest(gaps);
        assert forall|i: int| 0 <= i < marks.len() - 1 implies #[trigger] between(marks[i], marks[i + 1])
            <= max_stall by {
            assert(gaps[i] == between(marks[i], marks[i + 1]));
        }
        if marks.len() > 1 {
            let j = choose|j: int| 0 <= j < gaps.len() && gaps[j] == longest(gaps);
            assert(gaps[j] == between(marks[j], marks[j + 1]));
        }
    }
    let r = (count, max_stall);
    assert(stall_run(readings, gaps, secs, r.0, r.1));
    assert(stall_gaps(marks, r.1));
    assert(run_of_checks(readings, secs, BATCH, r.0) && marks.len() == readings.len() && stall_gaps(marks, r.1));
    r
}

/// The sum of the times between consecutive clock marks.
pub open spec fn gap_sum(marks: Seq<u128>) -> nat
    decreases marks.len(),
{
    if marks.len() <= 1 {
        0
    } else {
        gap_sum(marks.drop_last()) + between(marks[marks.len() - 2], marks.last()) as nat
    }
}

/// On a clock that never runs backwards, the times between consecutive
/// marks add up to the time from the first mark to the last, so no single
/// gap is longer than that time less all the other gaps, and the longest
/// stall is never more than the whole run.
pub proof fn lemma_gaps_add_up(marks: Seq<u128>)
    requires
        marks.len() >= 1,
        forall|i: int, j: int| 0 <= i <= j < marks.len() ==> marks[i] <= marks[j],
    ensures
        gap_sum(marks) == marks.last() - marks[0],
        forall|i: int|
            0 <= i < marks.len() - 1 ==> #[trigger] between(marks[i], marks[i + 1]) <= marks.last()
                - marks[0],
    decreases marks.len(),
{
    if marks.len() > 1 {
        let init = marks.drop_last();
        lemma_gaps_add_up(init);
        assert(init.last() == marks[marks.len() - 2]);
        assert forall|i: int| 0 <= i < marks.len() - 1 implies #[trigger] between(marks[i], marks[i + 1])
            <= marks.last() - marks[0] by {
            assert(marks[0] <= marks[i]);
            assert(marks[i + 1] <= marks.last());
        }
    }
}

/// The longest of the threads' longest stalls, 0 when there are none.
pub fn worst_stall(stalls: &[u128]) -> (r: u128)
    ensures
        r == longest(stalls@),
{
    let mut worst: u128 = 0;
    let mut i: usize = 0;
    while i < stalls.len()
        invariant
            0 <= i <= stalls.len(),
            worst == longest(stalls@.subrange(0, i as int)),
        decreases stalls.len() - i,
    {
        assert(stalls@.subrange(0, i as int + 1).drop_last() =~= stalls@.subrange(0, i as int));
        if stalls[i] > worst {
            worst = stalls[i];
        }
        i = i + 1;
    }
    assert(stalls@.subrange(0, stalls@.len() as int) =~= stalls@);
    worst
}

/// The longest stall is at least as long as every one of the gaps,
/// and is one of them when there are any.
pub proof fn lemma_longest(gaps: Seq<u128>)
    ensures
        forall|i: int| 0 <= i < gaps.len() ==> #[trigger] gaps[i] <= longest(gaps),
        gaps.len() > 0 ==> exists|i: int| 0 <= i < gaps.len() && gaps[i] == longest(gaps),
    decreases gaps.len(),
{
    if gaps.len() > 0 {
        let init = gaps.drop_last();
        lemma_longest(init);
        assert forall|i: int| 0 <= i < gaps.len() implies #[trigger] gaps[i] <= longest(gaps) by {
            if i < gaps.len() - 1 {
                assert(gaps[i] == init[i]);
            }
        }
        if gaps.last() > longest(init) || init.len() == 0 {
            assert(gaps[gaps.len() - 1] == gaps.last());
            if gaps.last() <= longest(init) {
                assert(longest(init) == 0);
            }
        } else {
            let i = choose|i: int| 0 <= i < init.len() && init[i] == longest(init);
            assert(gaps[i] == init[i]);
        }
    }
}

} // verus!
