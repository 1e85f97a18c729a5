//! One run of the load generator: the batch of requests sent each round, the
//! number of rounds, and the reading of a round's replies out of the bytes
//! received so far.
use vstd::prelude::*;
use crate::resp::{parse_one, reply, lemma_reply_bounds};

verus! {

/// `count` frames back to back, `first` at even positions and `second` at
/// odd ones.
pub open spec fn alternating(first: Seq<u8>, second: Seq<u8>, count: nat) -> Seq<u8>
    decreases count,
{
    if count == 0 {
        Seq::empty()
    } else {
        alternating(first, second, (count - 1) as nat) + if (count - 1) % 2 == 0 {
            first
        } else {
            second
        }
    }
}

/// A batch of `count` requests is a 50/50 mix: `(count + 1) / 2`
/// copies of the first request and `count / 2` of the second.
pub proof fn lemma_batch_mix(first: Seq<u8>, second: Seq<u8>, count: nat)
    ensures
        alternating(first, second, count).len() == ((count + 1) / 2) * first.len() + (count / 2)
            * second.len(),
    decreases count,
{
    let a = first.len() as int;
    let b = second.len() as int;
    if count == 0 {
        assert(((count + 1) / 2) * a + (count / 2) * b == 0) by (nonlinear_arith)
            requires
                count == 0,
        ;
    } else {
        let k = (count - 1) as nat;
        lemma_batch_mix(first, second, k);
        let prev = alternating(first, second, k).len() as int;
        assert(prev == ((k + 1) / 2) * a + (k / 2) * b);
        let step = if k % 2 == 0 {
            a
        } else {
            b
        };
        assert(alternating(first, second, count).len() == prev + step);
        let h = k / 2;
        if k % 2 == 0 {
            assert((k + 1) / 2 == h && (k + 2) / 2 == h + 1);
            assert(h * a + h * b + a == (h + 1) * a + h * b) by (nonlinear_arith);
        } else {
            assert((k + 1) / 2 == h + 1 && (k + 2) / 2 == h + 1);
            assert((h + 1) * a + h * b + b == (h + 1) * a + (h + 1) * b) by (nonlinear_arith);
        }
        assert(prev + step == ((k + 2) / 2) * a + ((k + 1) / 2) * b);
        assert(((k + 2) / 2) * a + ((k + 1) / 2) * b == ((count + 1) / 2) * a + (count / 2) * b)
            by (nonlinear_arith)
            requires
                count == k + 1,
        ;
    }
}

/// A batch starts with the first request, and every two more requests
/// add the first request and then the second: the requests alternate.
pub proof fn lemma_batch_alternates(first: Seq<u8>, second: Seq<u8>, count: nat)
    ensures
        count >= 1 ==> alternating(first, second, count).len() >= first.len(),
        count >= 1 ==> alternating(first, second, count).subrange(0, first.len() as int) == first,
        count % 2 == 0 ==> alternating(first, second, count + 2) == alternating(first, second, count)
            + first + second,
    decreases count,
{
    if count == 1 {
        assert(alternating(first, second, 0) =~= Seq::<u8>::empty());
        assert(alternating(first, second, 1) =~= first);
    } else if count > 1 {
        lemma_batch_alternates(first, second, (count - 1) as nat);
        let prev = alternating(first, second, (count - 1) as nat);
        let cur = alternating(first, second, count);
        assert(cur.subrange(0, first.len() as int) =~= prev.subrange(0, first.len() as int));
    }
    if count % 2 == 0 {
        let one = alternating(first, second, count + 1);
        assert(one == alternating(first, second, count) + first);
        assert(alternating(first, second, count + 2) == one + second);
        assert(alternating(first, second, count + 2) =~= alternating(first, second, count) + first
            + second);
    }
}

/// The bytes of one round: `count` requests, alternating `first` and
/// `second`, starting with `first`.
pub fn build_batch(first: &[u8], second: &[u8], count: usize) -> (r: Vec<u8>)
    ensures
        r@ == alternating(first@, second@, count as nat),
{
    let mut out: Vec<u8> = Vec::new();
    let mut i: usize = 0;
    while i < count
        invariant
            0 <= i <= count,
            out@ == alternating(first@, second@, i as nat),
        decreases count - i,
    {
        if i % 2 == 0 {
            out.extend_from_slice(first);
        } else {
            out.extend_from_slice(second);
        }
        i = i + 1;
    }
    out
}

/// How many whole rounds of `batch` requests fit in `n` requests, and how
/// many requests those rounds send.
pub fn plan_rounds(n: usize, batch: usize) -> (r: (usize, usize))
    requires
        batch > 0,
    ensures
        r.0 == n / batch,
        r.1 == r.0 * batch,
        r.1 <= n,
        n - r.1 < batch,
{
    let rounds = n / batch;
    proof {
        assert(rounds * batch <= n) by (nonlinear_arith)
            requires
                rounds == n / batch,
                batch > 0,
        ;
        assert(n - rounds * batch < batch) by (nonlinear_arith)
            requires
                rounds == n / batch,
                batch > 0,
        ;
    }
    (rounds, rounds * batch)
}

/// Replies counted so far: answers, and errors.
#[derive(Debug, Clone, Copy, PartialEq, Eq)]
pub struct Tally {
    pub oks: u64,
    pub errors: u64,
}

/// One more, modulo 2^64.
pub open spec fn wrap_inc(x: u64) -> u64 {
    if x == u64::MAX {
        0
    } else {
        (x + 1) as u64
    }
}

impl Tally {
    /// No replies yet.
    pub fn new() -> (r: Tally)
        ensures
            r.oks == 0 && r.errors == 0,
    {
        Tally { oks: 0, errors: 0 }
    }

    /// Counts one reply, as an error or as an answer.
    pub fn record(&mut self, is_err: bool)
        ensures
            is_err ==> final(self).errors == wrap_inc(old(self).errors) && final(self).oks
                == old(self).oks,
            !is_err ==> final(self).oks == wrap_inc(old(self).oks) && final(self).errors
                == old(self).errors,
    {
        if is_err {
            self.errors = self.errors.wrapping_add(1);
        } else {
            self.oks = self.oks.wrapping_add(1);
        }
    }
}

/// Bytes of an error reply kept to show it.
pub const EXCERPT: usize = 64;

/// What the round asks for next.
#[derive(Debug, Clone, Copy, PartialEq, Eq)]
pub enum Step {
    /// A complete reply, at `start..end` of the received bytes; its first
    /// bytes, up to `excerpt_end`, describe it when it is an error.
    Reply { is_err: bool, start: usize, end: usize, excerpt_end: usize },
    /// The next reply is not complete yet: more bytes must be read.
    NeedBytes,
    /// Every reply of the round has been read.
    Complete,
}

/// The reading of one round's replies: how many the round expects, how
/// many were read, and where the next one starts in the received bytes.
#[derive(Debug, Clone, Copy, PartialEq, Eq)]
pub struct Round {
    pub batch: usize,
    pub replies: usize,
    pub pos: usize,
}

impl Round {
    /// A round that expects `batch` replies and has read none.
    pub fn new(batch: usize) -> (r: Round)
        ensures
            r == (Round { batch, replies: 0, pos: 0 }),
    {
        Round { batch, replies: 0, pos: 0 }
    }

    /// Reads the next reply of the round from `acc`, the bytes received
    /// since the round began (and any left over before it).
    pub fn step(&mut self, acc: &[u8]) -> (s: Step)
        requires
            old(self).pos <= acc.len(),
            old(self).replies <= old(self).batch,
        ensures
            final(self).batch == old(self).batch,
            final(self).replies <= final(self).batch,
            final(self).pos <= acc.len(),
            old(self).replies == old(self).batch ==> s == Step::Complete && *final(self) == *old(
                self,
            ),
            old(self).replies < old(self).batch ==> match reply(
                acc@.subrange(old(self).pos as int, acc@.len() as int),
            ) {
                Some((e, used)) => {
                    &&& s == (Step::Reply {
                        is_err: e,
                        start: old(self).pos,
                        end: (old(self).pos + used) as usize,
                        excerpt_end: (old(self).pos + if used < EXCERPT {
                            used
                        } else {
                            EXCERPT as nat
                        }) as usize,
                    })
                    &&& final(self).pos == old(self).pos + used
                    &&& final(self).replies == old(self).replies + 1
                },
                None => s == Step::NeedBytes && *final(self) == *old(self),
            },
    {
        if self.replies == self.batch {
            return Step::Complete;
        }
        let rest = &acc[self.pos..acc.len()];
        match parse_one(rest) {
            Some((e, used)) => {
                proof {
                    lemma_reply_bounds(rest@);
                }
                let start = self.pos;
                let end = start + used;
                let shown = if used < EXCERPT {
                    used
                } else {
                    EXCERPT
                };
                self.pos = end;
                self.replies = self.replies + 1;
                Step::Reply { is_err: e, start, end, excerpt_end: start + shown }
            },
            None => Step::NeedBytes,
        }
    }
}

/// A byte that a stream of `+OK` replies holds: `+`, `O`, `K`, CR, LF.
pub open spec fn ok_stream_byte(b: u8) -> bool {
    b == 43 || b == 79 || b == 75 || b == 13 || b == 10
}

/// The first byte of `buf` that no `+OK` reply holds, if any.
pub fn first_foreign_byte(buf: &[u8]) -> (r: Option<usize>)
    ensures
        match r {
            Some(i) => i < buf@.len() && !ok_stream_byte(buf@[i as int]) && forall|j: int|
                0 <= j < i ==> ok_stream_byte(#[trigger] buf@[j]),
            None => forall|j: int| 0 <= j < buf@.len() ==> ok_stream_byte(#[trigger] buf@[j]),
        },
{
    let mut i: usize = 0;
    while i < buf.len()
        invariant
            0 <= i <= buf@.len(),
            forall|j: int| 0 <= j < i ==> ok_stream_byte(#[trigger] buf@[j]),
        decreases buf.len() - i,
    {
        let b = buf[i];
        if !(b == 43 || b == 79 || b == 75 || b == 13 || b == 10) {
            return Some(i);
        }
        i = i + 1;
    }
    None
}

/// Drops the first `n` received bytes, the replies already read.
pub fn discard_front(acc: &mut Vec<u8>, n: usize)
    requires
        n <= old(acc).len(),
    ensures
        final(acc)@ == old(acc)@.subrange(n as int, old(acc)@.len() as int),
{
    let mut kept: Vec<u8> = Vec::new();
    let mut i = n;
    while i < acc.len()
        invariant
            n <= i <= acc.len(),
            kept@ == acc@.subrange(n as int, i as int),
        decreases acc.len() - i,
    {
        kept.push(acc[i]);
        assert(acc@.subrange(n as int, i as int + 1) =~= acc@.subrange(n as int, i as int).push(
            acc@[i as int],
        ));
        i = i + 1;
    }
    *acc = kept;
}

} // verus!
