//! CPU burners: count as fast as possible for a fixed time, in batches,
//! looking at the clock between batches.
use vstd::prelude::*;
use std::time::Instant;

verus! {

#[verifier::external_type_specification]
#[verifier::external_body]
pub struct ExInstant(Instant);

/// Reads the monotonic clock with `Instant::now`. Nothing is stated of the
/// reading: it is the time.
#[verifier::external_body]
pub(crate) fn clock_now() -> Instant {
    Instant::now()
}

/// The time since `start` in nanoseconds: `Instant::elapsed`, converted by
/// `Duration::as_nanos`. Nothing is stated of the result: it is the time.
#[verifier::external_body]
pub(crate) fn nanos_since(start: &Instant) -> u128 {
    start.elapsed().as_nanos()
}

/// The time from `earlier` to `later` in nanoseconds:
/// `Instant::duration_since`, converted by `Duration::as_nanos`. Nothing is
/// stated of the result: it is the time.
#[verifier::external_body]
pub(crate) fn nanos_between(later: &Instant, earlier: &Instant) -> u128 {
    later.duration_since(*earlier).as_nanos()
}

/// `std::hint::black_box`, which keeps the optimizer from folding the
/// counting away; its documentation calls it an identity function, and the
/// contract states that it returns its argument.
#[verifier::external_body]
fn opaque(x: u64) -> (r: u64)
    ensures
        r == x,
{
    std::hint::black_box(x)
}

/// Counts per batch, between two looks at the clock.
pub const BATCH: u64 = 1_000_000;

/// Nanoseconds in a second.
pub const NANOS_PER_SEC: u128 = 1_000_000_000;

/// Whether a run of `secs` seconds goes on after `elapsed` nanoseconds.
pub fn within(elapsed: u128, secs: u64) -> (r: bool)
    ensures
        r == (elapsed < secs * NANOS_PER_SEC),
{
    elapsed < (secs as u128) * NANOS_PER_SEC
}

/// One batch of counting: adds one, `BATCH` times, each step through
/// `black_box`.
pub fn burn_batch(count: u64) -> (r: u64)
    requires
        count <= u64::MAX - BATCH,
    ensures
        r == count + BATCH,
{
    let mut c = count;
    let mut k: u64 = 0;
    while k < BATCH
        invariant
            0 <= k <= BATCH,
            count <= u64::MAX - BATCH,
            c == count + k,
        decreases BATCH - k,
    {
        c = opaque(c + 1);
        k = k + 1;
    }
    c
}

/// What the clock checks of a run of `secs` seconds give, with `step`
/// counted after each check that lets the run go on: `readings` are the
/// elapsed nanoseconds seen at the checks, in order. Every check but the
/// last found time left and was followed by one step, so the count is
/// `step` times the checks that found time left; the last check found the
/// time up, or the count could take no further step.
pub open spec fn run_of_checks(readings: Seq<u128>, secs: u64, step: u64, count: u64) -> bool {
    &&& readings.len() >= 1
    &&& count == (readings.len() - 1) * step
    &&& forall|i: int| 0 <= i < readings.len() - 1 ==> #[trigger] readings[i] < secs * NANOS_PER_SEC
    &&& (readings.last() >= secs * NANOS_PER_SEC || count > u64::MAX - step)
}

/// Counts for `secs` seconds, one batch at a time, and returns the count.
/// Before each batch it looks at the clock; the first look that finds the
/// time up ends the run. The count stops growing when another batch would
/// overflow it, far beyond what any run of seconds reaches. What the clock
/// reads is the clock's to say; a run of no time counts nothing.
pub fn burn(secs: u64) -> (r: u64)
    ensures
        exists|readings: Seq<u128>| run_of_checks(readings, secs, BATCH, r),
        r % BATCH == 0,
        secs == 0 ==> r == 0,
{
    let start = clock_now();
    let mut count: u64 = 0;
    let ghost mut readings: Seq<u128> = Seq::empty();
    loop
        invariant_except_break
            count == readings.len() * BATCH,
            forall|i: int| 0 <= i < readings.len() ==> #[trigger] readings[i] < secs * NANOS_PER_SEC,
        ensures
            run_of_checks(readings, secs, BATCH, count),
        decreases u64::MAX - count,
    {
        let elapsed = nanos_since(&start);
        proof {
            readings = readings.push(elapsed);
        }
        if !(within(elapsed, secs) && count <= u64::MAX - BATCH) {
            break;
        }
        count = burn_batch(count);
    }
    proof {
        vstd::arithmetic::div_mod::lemma_mod_multiples_basic(readings.len() - 1, BATCH as int);
        if secs == 0 && readings.len() > 1 {
            assert(readings[0] < secs * NANOS_PER_SEC);
        }
    }
    count
}

/// Counts, one at a time, for `secs` seconds, looking at the clock before
/// every step; the first look that finds the time up ends the run. The
/// count stops growing at `u64::MAX`. What the clock reads is the clock's
/// to say; a run of no time counts nothing.
pub fn spin(secs: u64) -> (r: u64)
    ensures
        exists|readings: Seq<u128>| run_of_checks(readings, secs, 1, r),
        secs == 0 ==> r == 0,
{
    let start = clock_now();
    let mut count: u64 = 0;
    let ghost mut readings: Seq<u128> = Seq::empty();
    loop
        invariant_except_break
            count == readings.len(),
            forall|i: int| 0 <= i < readings.len() ==> #[trigger] readings[i] < secs * NANOS_PER_SEC,
        ensures
            run_of_checks(readings, secs, 1, count),
        decreases u64::MAX - count,
    {
        let elapsed = nanos_since(&start);
        proof {
            readings = readings.push(elapsed);
        }
        if !(within(elapsed, secs) && count < u64::MAX) {
            break;
        }
        count = count + 1;
    }
    proof {
        if secs == 0 && readings.len() > 1 {
            assert(readings[0] < secs * NANOS_PER_SEC);
        }
    }
    count
}

/// The sum of the counts.
pub open spec fn sum_of(counts: Seq<u64>) -> nat
    decreases counts.len(),
{
    if counts.len() == 0 {
        0
    } else {
        sum_of(counts.drop_last()) + counts.last() as nat
    }
}

/// The sum of the threads' counts, wrapping on overflow.
pub fn total_count(counts: &[u64]) -> (r: u64)
    ensures
        r == sum_of(counts@) % 0x1_0000_0000_0000_0000,
{
    let mut acc: u64 = 0;
    let mut i: usize = 0;
    while i < counts.len()
        invariant
            0 <= i <= counts.len(),
            acc == sum_of(counts@.subrange(0, i as int)) % 0x1_0000_0000_0000_0000,
        decreases counts.len() - i,
    {
        let ghost pre = counts@.subrange(0, i as int);
        let ghost next = counts@.subrange(0, i as int + 1);
        assert(next.drop_last() =~= pre);
        let c = counts[i];
        let ghost t = sum_of(pre);
        acc = acc.wrapping_add(c);
        assert(acc == (t + c) % 0x1_0000_0000_0000_0000) by {
            vstd::arithmetic::div_mod::lemma_add_mod_noop(t as int, c as int, 0x1_0000_0000_0000_0000);
            vstd::arithmetic::div_mod::lemma_small_mod(c as nat, 0x1_0000_0000_0000_0000);
            vstd::arithmetic::div_mod::lemma_mod_bound(t as int, 0x1_0000_0000_0000_0000);
            let a = t % 0x1_0000_0000_0000_0000;
            if a + c >= 0x1_0000_0000_0000_0000 {
                vstd::arithmetic::div_mod::lemma_fundamental_div_mod_converse(
                    a + c,
                    0x1_0000_0000_0000_0000,
                    1,
                    a + c - 0x1_0000_0000_0000_0000,
                );
            } else {
                vstd::arithmetic::div_mod::lemma_small_mod((a + c) as nat, 0x1_0000_0000_0000_0000);
            }
        }
        i = i + 1;
    }
    assert(counts@.subrange(0, counts@.len() as int) =~= counts@);
    acc
}

} // verus!
