//! Decimal text: the digits that the wire protocol and the command line use
//! for numbers, written and read back.
use vstd::prelude::*;

verus! {

/// An ASCII digit `0`..`9`.
pub open spec fn is_digit(b: u8) -> bool {
    48 <= b <= 57
}

/// Every byte of `s` is an ASCII digit.
pub open spec fn all_digits(s: Seq<u8>) -> bool {
    forall|i: int| 0 <= i < s.len() ==> is_digit(#[trigger] s[i])
}

/// The number that the digits `s` spell, most significant first.
pub open spec fn digits_value(s: Seq<u8>) -> nat
    decreases s.len(),
{
    if s.len() == 0 {
        0
    } else {
        digits_value(s.drop_last()) * 10 + (s.last() - 48) as nat
    }
}

/// The decimal text of `n`: no sign, no leading zero.
pub open spec fn decimal(n: nat) -> Seq<u8>
    decreases n,
{
    if n < 10 {
        seq![(n + 48) as u8]
    } else {
        decimal(n / 10).push((n % 10 + 48) as u8)
    }
}

/// The unsigned number text that `str::parse` accepts: an optional `+`,
/// then one or more ASCII digits, nothing else.
pub open spec fn unsigned_text(s: Seq<u8>) -> Option<nat> {
    let body = if s.len() > 0 && s[0] == 43 {
        s.drop_first()
    } else {
        s
    };
    if body.len() > 0 && all_digits(body) {
        Some(digits_value(body))
    } else {
        None
    }
}

/// The signed number text that `str::parse` accepts: an optional `+` or
/// `-`, then one or more ASCII digits, nothing else.
pub open spec fn signed_text(s: Seq<u8>) -> Option<int> {
    if s.len() > 0 && s[0] == 45 {
        let body = s.drop_first();
        if body.len() > 0 && all_digits(body) {
            Some(-(digits_value(body) as int))
        } else {
            None
        }
    } else {
        match unsigned_text(s) {
            Some(v) => Some(v as int),
            None => None,
        }
    }
}

/// What parsing `s` as a `u64` gives.
pub open spec fn u64_text(s: Seq<u8>) -> Option<u64> {
    match unsigned_text(s) {
        Some(v) => if v <= u64::MAX {
            Some(v as u64)
        } else {
            None
        },
        None => None,
    }
}

/// What parsing `s` as a `usize` gives.
pub open spec fn usize_text(s: Seq<u8>) -> Option<usize> {
    match unsigned_text(s) {
        Some(v) => if v <= usize::MAX {
            Some(v as usize)
        } else {
            None
        },
        None => None,
    }
}

/// What parsing `s` as an `i64` gives.
pub open spec fn i64_text(s: Seq<u8>) -> Option<i64> {
    match signed_text(s) {
        Some(v) => if i64::MIN <= v <= i64::MAX {
            Some(v as i64)
        } else {
            None
        },
        None => None,
    }
}

pub proof fn lemma_decimal_digits(n: nat)
    ensures
        decimal(n).len() > 0,
        all_digits(decimal(n)),
        digits_value(decimal(n)) == n,
        decimal(n)[0] != 43,
        decimal(n)[0] != 45,
    decreases n,
{
    if n < 10 {
        let e = decimal(n);
        assert(e.drop_last() =~= Seq::<u8>::empty());
        assert(e.last() == (n + 48) as u8);
        assert(digits_value(e.drop_last()) == 0);
        assert(digits_value(e) == n);
    } else {
        lemma_decimal_digits(n / 10);
        let d = decimal(n / 10);
        let e = d.push((n % 10 + 48) as u8);
        assert(e.drop_last() =~= d);
        assert(e.last() == (n % 10 + 48) as u8);
        assert(digits_value(e) == digits_value(d) * 10 + n % 10);
        assert((n / 10) * 10 + n % 10 == n);
        assert forall|i: int| 0 <= i < e.len() implies is_digit(#[trigger] e[i]) by {
            if i < d.len() {
                assert(e[i] == d[i]);
            }
        }
        assert(e[0] == d[0]);
    }
}

/// Reading back the decimal text of a number gives the number, as an
/// unsigned and as a signed number.
pub proof fn lemma_decimal_round_trip(n: nat)
    ensures
        unsigned_text(decimal(n)) == Some(n),
        signed_text(decimal(n)) == Some(n as int),
{
    lemma_decimal_digits(n);
}

proof fn lemma_digits_value_prefix(s: Seq<u8>, k: int)
    requires
        0 <= k <= s.len(),
        all_digits(s),
    ensures
        digits_value(s.subrange(0, k)) <= digits_value(s),
    decreases s.len() - k,
{
    if k < s.len() {
        lemma_digits_value_prefix(s, k + 1);
        let t = s.subrange(0, k + 1);
        assert(t.drop_last() =~= s.subrange(0, k));
        assert(is_digit(s[k]));
        assert(t.last() == s[k]);
    } else {
        assert(s.subrange(0, k) =~= s);
    }
}

/// The value of the digits `s`, when they are all digits and the value
/// does not exceed `bound`.
fn digits_within(s: &[u8], bound: u128) -> (r: Option<u128>)
    requires
        bound <= u64::MAX + 1,
    ensures
        match r {
            Some(v) => all_digits(s@) && v == digits_value(s@) && v <= bound,
            None => !all_digits(s@) || digits_value(s@) > bound,
        },
{
    let mut acc: u128 = 0;
    let mut i: usize = 0;
    while i < s.len()
        invariant
            0 <= i <= s.len(),
            bound <= u64::MAX + 1,
            all_digits(s@.subrange(0, i as int)),
            acc == digits_value(s@.subrange(0, i as int)),
            acc <= bound,
        decreases s.len() - i,
    {
        let b = s[i];
        let ghost pre = s@.subrange(0, i as int);
        let ghost next = s@.subrange(0, i as int + 1);
        assert(next.drop_last() =~= pre);
        if b < 48 || b > 57 {
            assert(!is_digit(s@[i as int]));
            return None;
        }
        let v = acc * 10 + (b - 48) as u128;
        assert(v == digits_value(next));
        assert(all_digits(next)) by {
            assert forall|j: int| 0 <= j < next.len() implies is_digit(#[trigger] next[j]) by {
                if j < i {
                    assert(next[j] == pre[j]);
                }
            }
        }
        if v > bound {
            proof {
                if all_digits(s@) {
                    lemma_digits_value_prefix(s@, i as int + 1);
                }
            }
            return None;
        }
        acc = v;
        i = i + 1;
    }
    assert(s@.subrange(0, s@.len() as int) =~= s@);
    Some(acc)
}

/// The unsigned value of `s` when it is unsigned number text whose value
/// is at most `bound`.
fn unsigned_within(s: &[u8], bound: u128) -> (r: Option<u128>)
    requires
        bound <= u64::MAX + 1,
    ensures
        match r {
            Some(v) => unsigned_text(s@) == Some(v as nat) && v <= bound,
            None => match unsigned_text(s@) {
                Some(v) => v > bound,
                None => true,
            },
        },
{
    let body: &[u8] = if s.len() > 0 && s[0] == 43 {
        &s[1..s.len()]
    } else {
        s
    };
    proof {
        if s@.len() > 0 && s@[0] == 43 {
            assert(body@ =~= s@.drop_first());
        }
    }
    if body.len() == 0 {
        return None;
    }
    digits_within(body, bound)
}

/// Reads `s` as a `u64`, as `str::parse::<u64>` does.
pub fn parse_u64(s: &[u8]) -> (r: Option<u64>)
    ensures
        r == u64_text(s@),
{
    match unsigned_within(s, u64::MAX as u128) {
        Some(v) => Some(v as u64),
        None => None,
    }
}

/// Reads `s` as a `usize`, as `str::parse::<usize>` does.
pub fn parse_usize(s: &[u8]) -> (r: Option<usize>)
    ensures
        r == usize_text(s@),
{
    match unsigned_within(s, usize::MAX as u128) {
        Some(v) => Some(v as usize),
        None => None,
    }
}

/// Reads `s` as an `i64`, as `str::parse::<i64>` does.
pub fn parse_i64(s: &[u8]) -> (r: Option<i64>)
    ensures
        r == i64_text(s@),
{
    if s.len() > 0 && s[0] == 45 {
        let body = &s[1..s.len()];
        assert(body@ =~= s@.drop_first());
        if body.len() == 0 {
            return None;
        }
        match digits_within(body, 0x8000_0000_0000_0000u128) {
            Some(v) => {
                if v == 0x8000_0000_0000_0000u128 {
                    Some(i64::MIN)
                } else {
                    let m = v as i64;
                    Some(-m)
                }
            },
            None => None,
        }
    } else {
        match unsigned_within(s, i64::MAX as u128) {
            Some(v) => Some(v as i64),
            None => None,
        }
    }
}

/// The decimal text of `n`.
pub fn decimal_text(n: u64) -> (r: Vec<u8>)
    ensures
        r@ == decimal(n as nat),
    decreases n,
{
    if n < 10 {
        let d: u8 = n as u8 + 48;
        let mut v: Vec<u8> = Vec::new();
        v.push(d);
        assert(v@ =~= seq![(n as nat + 48) as u8]);
        v
    } else {
        let mut v = decimal_text(n / 10);
        let d: u8 = (n % 10) as u8 + 48;
        v.push(d);
        v
    }
}

} // verus!
