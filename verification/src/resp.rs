//! The RESP wire format: command frames written by the client, replies read
//! back from the byte stream one at a time.
use vstd::prelude::*;
use vstd::string::StringSliceAdditionalSpecFns;
use crate::decimal::{
    decimal, decimal_text, i64_text, is_digit, lemma_decimal_digits, lemma_decimal_round_trip,
    parse_i64,
};

verus! {

/// Carriage return, line feed.
pub open spec fn crlf() -> Seq<u8> {
    seq![13u8, 10u8]
}

/// A line ends at `i`: `s[i]` is a carriage return and `s[i + 1]` a line feed.
pub open spec fn crlf_at(s: Seq<u8>, i: int) -> bool {
    0 <= i && i + 1 < s.len() && s[i] == 13 && s[i + 1] == 10
}

/// The first line end in `s` at or after `from`.
pub open spec fn first_crlf(s: Seq<u8>, from: int) -> Option<int>
    decreases s.len() - from,
{
    if from < 0 || from + 1 >= s.len() {
        None
    } else if s[from] == 13 && s[from + 1] == 10 {
        Some(from)
    } else {
        first_crlf(s, from + 1)
    }
}

/// The number in a reply header `s[0] s[1..h] CR LF`, read as an `i64`.
pub open spec fn header_number(s: Seq<u8>, h: int) -> Option<int> {
    match i64_text(s.subrange(1, h)) {
        Some(v) => Some(v as int),
        None => None,
    }
}

/// One complete reply at the start of `s`: whether it is (or holds) an
/// error, and how many bytes it takes. `None` only while the bytes do not
/// yet hold a whole reply: more bytes complete it.
///
/// `+` simple string, `:` integer and `-` error run to the first line end;
/// `$` bulk string carries its length (negative: the null reply); `*` array
/// carries the number of replies that follow (negative: none); a length
/// header that is not a number is an error reply of the header's line; any
/// other first byte is one byte of noise, counted as an error.
pub open spec fn reply(s: Seq<u8>) -> Option<(bool, nat)>
    decreases s.len(), 1nat, 0nat,
{
    if s.len() == 0 {
        None
    } else if s[0] == 43 || s[0] == 58 || s[0] == 45 {
        match first_crlf(s, 1) {
            Some(e) => Some((s[0] == 45, (e + 2) as nat)),
            None => None,
        }
    } else if s[0] == 36 {
        match first_crlf(s, 1) {
            Some(h) => match header_number(s, h) {
                Some(len) => if len < 0 {
                    Some((false, (h + 2) as nat))
                } else if h + 4 + len <= s.len() {
                    Some((false, (h + 4 + len) as nat))
                } else {
                    None
                },
                None => Some((true, (h + 2) as nat)),
            },
            None => None,
        }
    } else if s[0] == 42 {
        match first_crlf(s, 1) {
            Some(h) => match header_number(s, h) {
                Some(count) => replies(
                    s,
                    h + 2,
                    if count < 0 {
                        0nat
                    } else {
                        count as nat
                    },
                ),
                None => Some((true, (h + 2) as nat)),
            },
            None => None,
        }
    } else {
        Some((true, 1nat))
    }
}

/// `count` replies, one after the other, from position `pos` of `s`:
/// whether any is an error, and the position after the last.
pub open spec fn replies(s: Seq<u8>, pos: int, count: nat) -> Option<(bool, nat)>
    decreases s.len(), 0nat, count,
{
    if pos < 1 || pos > s.len() {
        None
    } else if count == 0 {
        Some((false, pos as nat))
    } else {
        match reply(s.subrange(pos, s.len() as int)) {
            Some((e, used)) => match replies(s, pos + used, (count - 1) as nat) {
                Some((e2, end)) => Some((e || e2, end)),
                None => None,
            },
            None => None,
        }
    }
}

proof fn lemma_first_crlf(s: Seq<u8>, from: int)
    requires
        0 <= from,
    ensures
        match first_crlf(s, from) {
            Some(i) => from <= i && crlf_at(s, i) && forall|j: int|
                from <= j < i ==> !crlf_at(s, j),
            None => forall|j: int| from <= j ==> !crlf_at(s, j),
        },
    decreases s.len() - from,
{
    if from + 1 < s.len() && !(s[from] == 13 && s[from + 1] == 10) {
        lemma_first_crlf(s, from + 1);
    }
}

proof fn lemma_first_crlf_extend(s: Seq<u8>, t: Seq<u8>, from: int)
    requires
        0 <= from,
        first_crlf(s, from) is Some,
    ensures
        first_crlf(s + t, from) == first_crlf(s, from),
    decreases s.len() - from,
{
    let u = s + t;
    assert(u[from] == s[from]);
    assert(u[from + 1] == s[from + 1]);
    if !(s[from] == 13 && s[from + 1] == 10) {
        lemma_first_crlf_extend(s, t, from + 1);
    }
}

/// A reply never takes more bytes than there are, and at least one.
pub proof fn lemma_reply_bounds(s: Seq<u8>)
    ensures
        reply(s) matches Some((e, used)) ==> 1 <= used <= s.len(),
    decreases s.len(), 1nat, 0nat,
{
    if s.len() > 0 && (s[0] == 36 || s[0] == 42 || s[0] == 43 || s[0] == 58 || s[0] == 45) {
        lemma_first_crlf(s, 1);
        if s[0] == 42 {
            if let Some(h) = first_crlf(s, 1) {
                if let Some(count) = header_number(s, h) {
                    lemma_replies_bounds(
                        s,
                        h + 2,
                        if count < 0 {
                            0nat
                        } else {
                            count as nat
                        },
                    );
                }
            }
        }
    }
}

/// A run of replies ends between its start and the end of the bytes.
pub proof fn lemma_replies_bounds(s: Seq<u8>, pos: int, count: nat)
    ensures
        replies(s, pos, count) matches Some((e, end)) ==> pos <= end <= s.len(),
    decreases s.len(), 0nat, count,
{
    if 1 <= pos <= s.len() && count > 0 {
        let sub = s.subrange(pos, s.len() as int);
        lemma_reply_bounds(sub);
        if let Some((e, used)) = reply(sub) {
            lemma_replies_bounds(s, pos + used, (count - 1) as nat);
        }
    }
}

/// A reply that is complete stays the same reply, of the same length,
/// whatever bytes arrive after it.
pub proof fn lemma_reply_extend(s: Seq<u8>, t: Seq<u8>)
    requires
        reply(s) is Some,
    ensures
        reply(s + t) == reply(s),
    decreases s.len(), 1nat, 0nat,
{
    let u = s + t;
    assert(u[0] == s[0]);
    if s[0] == 43 || s[0] == 58 || s[0] == 45 || s[0] == 36 || s[0] == 42 {
        lemma_first_crlf_extend(s, t, 1);
        let h = first_crlf(s, 1).unwrap();
        lemma_first_crlf(s, 1);
        assert(u.subrange(1, h) =~= s.subrange(1, h));
        if s[0] == 42 && header_number(s, h) is Some {
            let count = header_number(s, h).unwrap();
            lemma_replies_extend(
                s,
                t,
                h + 2,
                if count < 0 {
                    0nat
                } else {
                    count as nat
                },
            );
        }
    }
}

/// A run of replies that is complete stays the same whatever bytes arrive
/// after it.
pub proof fn lemma_replies_extend(s: Seq<u8>, t: Seq<u8>, pos: int, count: nat)
    requires
        replies(s, pos, count) is Some,
    ensures
        replies(s + t, pos, count) == replies(s, pos, count),
    decreases s.len(), 0nat, count,
{
    if count > 0 {
        let u = s + t;
        let sub = s.subrange(pos, s.len() as int);
        assert(u.subrange(pos, u.len() as int) =~= sub + t);
        lemma_reply_extend(sub, t);
        let (e, used) = reply(sub).unwrap();
        lemma_replies_extend(s, t, pos + used, (count - 1) as nat);
    }
}

proof fn lemma_reply_truncate(s: Seq<u8>, m: int)
    requires
        reply(s) is Some,
        reply(s).unwrap().1 <= m <= s.len(),
    ensures
        reply(s.subrange(0, m)) == reply(s),
    decreases s.len(), 1nat, 0nat,
{
    let w = s.subrange(0, m);
    lemma_reply_bounds(s);
    assert(w[0] == s[0]);
    if s[0] == 43 || s[0] == 58 || s[0] == 45 || s[0] == 36 || s[0] == 42 {
        let h = first_crlf(s, 1).unwrap();
        lemma_first_crlf(s, 1);
        if s[0] == 42 && header_number(s, h) is Some {
            let c = header_number(s, h).unwrap();
            let k: nat = if c < 0 {
                0
            } else {
                c as nat
            };
            lemma_replies_bounds(s, h + 2, k);
        }
        assert(h + 2 <= m);
        assert forall|j: int| 1 <= j < h implies !crlf_at(w, j) by {
            if crlf_at(w, j) {
                assert(w[j] == s[j] && w[j + 1] == s[j + 1]);
                assert(crlf_at(s, j));
            }
        }
        assert(w[h] == s[h] && w[h + 1] == s[h + 1]);
        lemma_first_crlf_is(w, 1, h);
        assert(w.subrange(1, h) =~= s.subrange(1, h));
        if s[0] == 42 && header_number(s, h) is Some {
            let c = header_number(s, h).unwrap();
            let k: nat = if c < 0 {
                0
            } else {
                c as nat
            };
            lemma_replies_truncate(s, h + 2, k, m);
        }
    }
}

proof fn lemma_replies_truncate(s: Seq<u8>, pos: int, count: nat, m: int)
    requires
        replies(s, pos, count) is Some,
        replies(s, pos, count).unwrap().1 <= m <= s.len(),
    ensures
        replies(s.subrange(0, m), pos, count) == replies(s, pos, count),
    decreases s.len(), 0nat, count,
{
    lemma_replies_bounds(s, pos, count);
    if count > 0 {
        let w = s.subrange(0, m);
        let sub = s.subrange(pos, s.len() as int);
        let (e1, u1) = reply(sub).unwrap();
        lemma_replies_bounds(s, pos + u1, (count - 1) as nat);
        assert(w.subrange(pos, w.len() as int) =~= sub.subrange(0, m - pos));
        lemma_reply_truncate(sub, m - pos);
        lemma_replies_truncate(s, pos + u1, (count - 1) as nat, m);
    }
}

/// A reply depends only on its own bytes: whatever follows them, the
/// same reply of the same length is read.
pub proof fn lemma_reply_own_bytes(s: Seq<u8>, t: Seq<u8>)
    requires
        reply(s) is Some,
    ensures
        reply(s.subrange(0, reply(s).unwrap().1 as int) + t) == reply(s),
{
    lemma_reply_bounds(s);
    let u = reply(s).unwrap().1 as int;
    lemma_reply_truncate(s, u);
    lemma_reply_extend(s.subrange(0, u), t);
}

/// No reply is read before all of its bytes are there: every shorter
/// prefix of a reply is still incomplete.
pub proof fn lemma_reply_shortest(s: Seq<u8>)
    requires
        reply(s) is Some,
    ensures
        forall|k: int| 0 <= k < reply(s).unwrap().1 ==> #[trigger] reply(s.subrange(0, k)) is None,
{
    lemma_reply_bounds(s);
    let u = reply(s).unwrap().1;
    assert forall|k: int| 0 <= k < u implies #[trigger] reply(s.subrange(0, k)) is None by {
        let p = s.subrange(0, k);
        if reply(p) is Some {
            lemma_reply_bounds(p);
            lemma_reply_extend(p, s.subrange(k, s.len() as int));
            assert(p + s.subrange(k, s.len() as int) =~= s);
        }
    }
}

proof fn lemma_header_line(mark: u8, n: nat, t: Seq<u8>)
    ensures
        first_crlf(seq![mark] + decimal(n) + crlf() + t, 1) == Some(1 + decimal(n).len() as int),
{
    let d = decimal(n);
    let s = seq![mark] + d + crlf() + t;
    let h = 1 + d.len() as int;
    lemma_decimal_digits(n);
    assert forall|j: int| 1 <= j < h implies !crlf_at(s, j) by {
        assert(s[j] == d[j - 1]);
        assert(is_digit(d[j - 1]));
    }
    assert(s[h] == 13);
    assert(s[h + 1] == 10);
    lemma_first_crlf_is(s, 1, h);
}

proof fn lemma_header_injective(mark: u8, a: nat, t1: Seq<u8>, b: nat, t2: Seq<u8>)
    requires
        seq![mark] + decimal(a) + crlf() + t1 == seq![mark] + decimal(b) + crlf() + t2,
    ensures
        a == b,
        t1 == t2,
{
    let s = seq![mark] + decimal(a) + crlf() + t1;
    lemma_header_line(mark, a, t1);
    lemma_header_line(mark, b, t2);
    let h = 1 + decimal(a).len() as int;
    assert(decimal(a) =~= s.subrange(1, h));
    assert(decimal(b) =~= s.subrange(1, h));
    lemma_decimal_digits(a);
    lemma_decimal_digits(b);
    assert(t1 =~= s.subrange(h + 2, s.len() as int));
    assert(t2 =~= s.subrange(h + 2, s.len() as int));
}

proof fn lemma_bulks_injective(p: Seq<Seq<u8>>, q: Seq<Seq<u8>>)
    requires
        p.len() == q.len(),
        bulks(p) == bulks(q),
    ensures
        p == q,
    decreases p.len(),
{
    if p.len() > 0 {
        lemma_bulks_front(p);
        lemma_bulks_front(q);
        let (x, y) = (p[0], q[0]);
        let (pr, qr) = (p.drop_first(), q.drop_first());
        assert(bulks(p) =~= seq![36u8] + decimal(x.len()) + crlf() + (x + crlf() + bulks(pr)));
        assert(bulks(q) =~= seq![36u8] + decimal(y.len()) + crlf() + (y + crlf() + bulks(qr)));
        lemma_header_injective(36, x.len(), x + crlf() + bulks(pr), y.len(), y + crlf() + bulks(qr));
        let m = x + crlf() + bulks(pr);
        assert(x =~= m.subrange(0, x.len() as int));
        assert(y =~= m.subrange(0, x.len() as int));
        assert(bulks(pr) =~= m.subrange(x.len() as int + 2, m.len() as int));
        assert(bulks(qr) =~= m.subrange(x.len() as int + 2, m.len() as int));
        lemma_bulks_injective(pr, qr);
        assert(p =~= seq![x] + pr);
        assert(q =~= seq![y] + qr);
    } else {
        assert(p =~= q);
    }
}

/// Two commands with different words never give the same frame.
pub proof fn lemma_frame_injective(p: Seq<Seq<u8>>, q: Seq<Seq<u8>>)
    requires
        frame(p) == frame(q),
    ensures
        p == q,
{
    lemma_header_injective(42, p.len(), bulks(p), q.len(), bulks(q));
    lemma_bulks_injective(p, q);
}

/// `k` noise bytes (`x`), each a reply of its own.
pub open spec fn noise(k: nat) -> Seq<u8> {
    Seq::new(k, |i: int| 120u8)
}

/// `k` zero bytes.
pub open spec fn zeros(k: nat) -> Seq<u8> {
    Seq::new(k, |i: int| 0u8)
}

proof fn lemma_crlf_appended(s: Seq<u8>)
    requires
        s.len() >= 1,
        first_crlf(s, 1) is None,
    ensures
        first_crlf(s + crlf(), 1) == Some(s.len() as int),
{
    lemma_first_crlf(s, 1);
    let u = s + crlf();
    assert forall|j: int| 1 <= j < s.len() implies !crlf_at(u, j) by {
        if j + 1 < s.len() {
            assert(u[j] == s[j] && u[j + 1] == s[j + 1]);
            assert(!crlf_at(s, j));
        } else {
            assert(u[j + 1] == 13);
        }
    }
    assert(u[s.len() as int] == 13 && u[s.len() as int + 1] == 10);
    lemma_first_crlf_is(u, 1, s.len() as int);
}

proof fn lemma_noise_replies(p: Seq<u8>, k: nat)
    requires
        p.len() >= 1,
    ensures
        replies(p + noise(k), p.len() as int, k) == Some((k > 0, (p.len() + k) as nat)),
    decreases k,
{
    if k > 0 {
        let q = p.push(120u8);
        assert(p + noise(k) =~= q + noise((k - 1) as nat));
        lemma_noise_replies(q, (k - 1) as nat);
        let u = p + noise(k);
        let sub = u.subrange(p.len() as int, u.len() as int);
        assert(sub[0] == 120u8);
        assert(reply(sub) == Some((true, 1nat)));
    }
}

/// Bytes that complete an incomplete reply exactly: the completed reply
/// takes all of `s` and of the bytes returned.
pub proof fn lemma_reply_completion(s: Seq<u8>) -> (t: Seq<u8>)
    requires
        reply(s) is None,
    ensures
        reply(s + t) is Some,
        reply(s + t).unwrap().1 == s.len() + t.len(),
    decreases s.len(), 1nat, 0nat,
{
    if s.len() == 0 {
        let t = seq![120u8];
        assert(s + t =~= t);
        t
    } else if first_crlf(s, 1) is None {
        lemma_crlf_appended(s);
        let u = s + crlf();
        let h = s.len() as int;
        assert(u[0] == s[0]);
        assert(u.subrange(1, h) =~= s.subrange(1, h));
        if s[0] == 36 {
            match header_number(u, h) {
                Some(len) => if len >= 0 {
                    let t = crlf() + zeros((len + 2) as nat);
                    assert(s + t =~= u + zeros((len + 2) as nat));
                    lemma_first_crlf_extend(u, zeros((len + 2) as nat), 1);
                    assert((s + t).subrange(1, h) =~= u.subrange(1, h));
                    assert((s + t)[0] == s[0]);
                    t
                } else {
                    crlf()
                },
                None => crlf(),
            }
        } else if s[0] == 42 {
            match header_number(u, h) {
                Some(c) => {
                    let k: nat = if c < 0 {
                        0
                    } else {
                        c as nat
                    };
                    let t = crlf() + noise(k);
                    assert(s + t =~= u + noise(k));
                    lemma_first_crlf_extend(u, noise(k), 1);
                    assert((s + t).subrange(1, h) =~= u.subrange(1, h));
                    assert((s + t)[0] == s[0]);
                    lemma_noise_replies(u, k);
                    t
                },
                None => crlf(),
            }
        } else {
            crlf()
        }
    } else {
        let h = first_crlf(s, 1).unwrap();
        lemma_first_crlf(s, 1);
        if s[0] == 36 {
            let len = header_number(s, h).unwrap();
            let t = zeros((h + 4 + len - s.len()) as nat);
            lemma_first_crlf_extend(s, t, 1);
            assert((s + t).subrange(1, h) =~= s.subrange(1, h));
            assert((s + t)[0] == s[0]);
            t
        } else {
            let c = header_number(s, h).unwrap();
            let k: nat = if c < 0 {
                0
            } else {
                c as nat
            };
            let t = lemma_replies_completion(s, h + 2, k);
            lemma_first_crlf_extend(s, t, 1);
            assert((s + t).subrange(1, h) =~= s.subrange(1, h));
            assert((s + t)[0] == s[0]);
            t
        }
    }
}

/// Bytes that complete an incomplete run of replies exactly.
pub proof fn lemma_replies_completion(s: Seq<u8>, pos: int, count: nat) -> (t: Seq<u8>)
    requires
        1 <= pos <= s.len(),
        replies(s, pos, count) is None,
    ensures
        replies(s + t, pos, count) is Some,
        replies(s + t, pos, count).unwrap().1 == s.len() + t.len(),
    decreases s.len(), 0nat, count,
{
    let sub = s.subrange(pos, s.len() as int);
    match reply(sub) {
        None => {
            let t1 = lemma_reply_completion(sub);
            let rest = noise((count - 1) as nat);
            let t = t1 + rest;
            let v = s + t;
            assert(v.subrange(pos, v.len() as int) =~= (sub + t1) + rest);
            lemma_reply_extend(sub + t1, rest);
            assert(v =~= (s + t1) + rest);
            lemma_noise_replies(s + t1, (count - 1) as nat);
            t
        },
        Some((e, u)) => {
            lemma_reply_bounds(sub);
            let t = lemma_replies_completion(s, pos + u, (count - 1) as nat);
            let v = s + t;
            assert(v.subrange(pos, v.len() as int) =~= sub + t);
            lemma_reply_extend(sub, t);
            t
        },
    }
}

/// `None` only means that the reply is not complete yet: some further
/// bytes always complete it.
pub proof fn lemma_none_means_incomplete(s: Seq<u8>)
    requires
        reply(s) is None,
    ensures
        exists|t: Seq<u8>| #[trigger] reply(s + t) is Some,
{
    let t = lemma_reply_completion(s);
    assert(reply(s + t) is Some);
}

/// Finds the first line end at or after `from`.
pub fn find_crlf(buf: &[u8], from: usize) -> (r: Option<usize>)
    requires
        from <= buf.len(),
    ensures
        match r {
            Some(i) => from <= i && crlf_at(buf@, i as int) && forall|j: int|
                from <= j < i ==> !crlf_at(buf@, j),
            None => forall|j: int| from <= j ==> !crlf_at(buf@, j),
        },
        match r {
            Some(i) => first_crlf(buf@, from as int) == Some(i as int),
            None => first_crlf(buf@, from as int) is None,
        },
{
    let mut i = from;
    while i < buf.len() && buf.len() - i >= 2
        invariant
            from <= i <= buf.len(),
            first_crlf(buf@, from as int) == first_crlf(buf@, i as int),
        decreases buf.len() - i,
    {
        if buf[i] == 13 && buf[i + 1] == 10 {
            assert(first_crlf(buf@, i as int) == Some(i as int));
            proof {
                lemma_first_crlf(buf@, from as int);
            }
            return Some(i);
        }
        i = i + 1;
    }
    assert(first_crlf(buf@, i as int) is None);
    proof {
        lemma_first_crlf(buf@, from as int);
    }
    None
}

/// Reads one complete reply from the start of `buf`: whether it is (or
/// holds) an error, and how many bytes it takes; `None` while the reply is
/// incomplete, and more bytes must be read.
pub fn parse_one(buf: &[u8]) -> (r: Option<(bool, usize)>)
    ensures
        match r {
            Some((e, used)) => reply(buf@) == Some((e, used as nat)),
            None => reply(buf@) is None,
        },
    decreases buf@.len(),
{
    if buf.len() == 0 {
        return None;
    }
    let t = buf[0];
    if t == 43 || t == 58 || t == 45 {
        match find_crlf(buf, 1) {
            Some(end) => Some((t == 45, end + 2)),
            None => None,
        }
    } else if t == 36 {
        let hdr_end = match find_crlf(buf, 1) {
            Some(h) => h,
            None => return None,
        };
        let len = match parse_i64(&buf[1..hdr_end]) {
            Some(v) => v,
            None => return Some((true, hdr_end + 2)),
        };
        if len < 0 {
            return Some((false, hdr_end + 2));
        }
        if (hdr_end as u128) + 4 + (len as u128) <= buf.len() as u128 {
            Some((false, hdr_end + 4 + len as usize))
        } else {
            None
        }
    } else if t == 42 {
        let hdr_end = match find_crlf(buf, 1) {
            Some(h) => h,
            None => return None,
        };
        let count = match parse_i64(&buf[1..hdr_end]) {
            Some(v) => v,
            None => return Some((true, hdr_end + 2)),
        };
        let n: i64 = if count < 0 {
            0
        } else {
            count
        };
        let ghost start = hdr_end + 2;
        let mut pos: usize = hdr_end + 2;
        let mut any_err = false;
        let mut k: i64 = 0;
        while k < n
            invariant
                3 <= pos <= buf.len(),
                0 <= k <= n,
                reply(buf@) == replies(buf@, start as int, n as nat),
                replies(buf@, start as int, n as nat) == match replies(
                    buf@,
                    pos as int,
                    (n - k) as nat,
                ) {
                    Some((e2, end)) => Some((any_err || e2, end)),
                    None => None,
                },
            decreases n - k,
        {
            let sub = &buf[pos..buf.len()];
            let ghost rest = (n - k - 1) as nat;
            assert(replies(buf@, pos as int, (n - k) as nat) == match reply(sub@) {
                Some((e, used)) => match replies(buf@, pos + used, rest) {
                    Some((e2, end)) => Some((e || e2, end)),
                    None => None,
                },
                None => None,
            });
            match parse_one(sub) {
                Some((e, used)) => {
                    proof {
                        lemma_reply_bounds(sub@);
                    }
                    any_err = any_err || e;
                    pos = pos + used;
                    k = k + 1;
                },
                None => {
                    return None;
                },
            }
        }
        Some((any_err, pos))
    } else {
        Some((true, 1))
    }
}

/// The bulk string that carries one command word: `$`, its length, line
/// end, the bytes, line end.
pub open spec fn bulk(part: Seq<u8>) -> Seq<u8> {
    seq![36u8] + decimal(part.len()) + crlf() + part + crlf()
}

/// The bulk strings of all the words, in order.
pub open spec fn bulks(parts: Seq<Seq<u8>>) -> Seq<u8>
    decreases parts.len(),
{
    if parts.len() == 0 {
        Seq::empty()
    } else {
        bulks(parts.drop_last()) + bulk(parts.last())
    }
}

/// The frame of a command: `*`, the number of words, line end, then one
/// bulk string per word.
pub open spec fn frame(parts: Seq<Seq<u8>>) -> Seq<u8> {
    seq![42u8] + decimal(parts.len()) + crlf() + bulks(parts)
}

/// The bytes of each word of a command.
pub open spec fn words(cmd: Seq<&str>) -> Seq<Seq<u8>> {
    cmd.map_values(|w: &str| w.spec_bytes())
}

/// `*`, the decimal text of `n`, a line end.
fn header(mark: u8, n: usize) -> (r: Vec<u8>)
    ensures
        r@ == seq![mark] + decimal(n as nat) + crlf(),
{
    let mut out: Vec<u8> = Vec::new();
    out.push(mark);
    let digits = decimal_text(n as u64);
    out.extend_from_slice(digits.as_slice());
    out.push(13);
    out.push(10);
    assert(out@ =~= seq![mark] + decimal(n as nat) + crlf());
    out
}

/// Encodes a command as a RESP array of bulk strings.
pub fn encode(cmd: &[&str]) -> (r: Vec<u8>)
    ensures
        r@ == frame(words(cmd@)),
{
    let ghost ws = words(cmd@);
    let mut out = header(42, cmd.len());
    let ghost head = out@;
    let mut i: usize = 0;
    while i < cmd.len()
        invariant
            0 <= i <= cmd.len(),
            ws == words(cmd@),
            head == seq![42u8] + decimal(cmd@.len()) + crlf(),
            out@ == head + bulks(ws.subrange(0, i as int)),
        decreases cmd.len() - i,
    {
        let part: &str = cmd[i];
        let bytes = part.as_bytes();
        let h = header(36, bytes.len());
        out.extend_from_slice(h.as_slice());
        out.extend_from_slice(bytes);
        out.push(13);
        out.push(10);
        let ghost next = ws.subrange(0, i as int + 1);
        assert(next.drop_last() =~= ws.subrange(0, i as int));
        assert(next.last() == bytes@);
        assert(out@ =~= head + bulks(next));
        i = i + 1;
    }
    assert(ws.subrange(0, cmd@.len() as int) =~= ws);
    out
}

proof fn lemma_first_crlf_is(s: Seq<u8>, from: int, k: int)
    requires
        0 <= from <= k,
        crlf_at(s, k),
        forall|j: int| from <= j < k ==> !crlf_at(s, j),
    ensures
        first_crlf(s, from) == Some(k),
    decreases k - from,
{
    if from < k {
        assert(!crlf_at(s, from));
        lemma_first_crlf_is(s, from + 1, k);
    }
}

/// The header `mark`, digits of `n`, line end, at the front of `s`: its
/// line end is the first one, and the digits read back as `n`.
proof fn lemma_header(mark: u8, n: nat, t: Seq<u8>)
    requires
        n <= i64::MAX,
    ensures
        ({
            let s = seq![mark] + decimal(n) + crlf() + t;
            let h = 1 + decimal(n).len() as int;
            &&& first_crlf(s, 1) == Some(h)
            &&& header_number(s, h) == Some(n as int)
        }),
{
    let d = decimal(n);
    let s = seq![mark] + d + crlf() + t;
    let h = 1 + d.len() as int;
    lemma_decimal_digits(n);
    assert forall|j: int| 1 <= j < h implies !crlf_at(s, j) by {
        assert(s[j] == d[j - 1]);
        assert(is_digit(d[j - 1]));
    }
    assert(s[h] == 13);
    assert(s[h + 1] == 10);
    lemma_first_crlf_is(s, 1, h);
    assert(s.subrange(1, h) =~= d);
    lemma_decimal_round_trip(n);
}

proof fn lemma_bulks_front(parts: Seq<Seq<u8>>)
    requires
        parts.len() > 0,
    ensures
        bulks(parts) == bulk(parts[0]) + bulks(parts.drop_first()),
    decreases parts.len(),
{
    if parts.len() == 1 {
        assert(parts.drop_last() =~= Seq::<Seq<u8>>::empty());
        assert(parts.drop_first() =~= Seq::<Seq<u8>>::empty());
        assert(bulks(parts.drop_first()) == Seq::<u8>::empty());
        assert(bulks(parts.drop_last()) == Seq::<u8>::empty());
        assert(bulks(parts) =~= bulk(parts[0]) + bulks(parts.drop_first()));
    } else {
        let init = parts.drop_last();
        lemma_bulks_front(init);
        assert(init.drop_first() =~= parts.drop_first().drop_last());
        assert(parts.drop_first().last() == parts.last());
        assert(bulks(parts) =~= bulk(parts[0]) + bulks(parts.drop_first()));
    }
}

/// A bulk string is one complete reply and no error, whatever bytes it
/// carries (line ends included), taking exactly its bytes.
pub proof fn lemma_bulk_reply(p: Seq<u8>, t: Seq<u8>)
    requires
        p.len() <= i64::MAX,
    ensures
        reply(bulk(p) + t) == Some((false, bulk(p).len())),
{
    let rest = p + crlf() + t;
    lemma_header(36, p.len(), rest);
    let s = bulk(p) + t;
    assert(s =~= seq![36u8] + decimal(p.len()) + crlf() + rest);
}

/// Words whose lengths a reply header can carry.
pub open spec fn words_fit(parts: Seq<Seq<u8>>) -> bool {
    &&& parts.len() <= i64::MAX
    &&& forall|i: int| 0 <= i < parts.len() ==> #[trigger] parts[i].len() <= i64::MAX
}

proof fn lemma_bulks_replies(s: Seq<u8>, pos: int, parts: Seq<Seq<u8>>)
    requires
        1 <= pos,
        pos + bulks(parts).len() <= s.len(),
        s.subrange(pos, pos + bulks(parts).len()) == bulks(parts),
        words_fit(parts),
    ensures
        replies(s, pos, parts.len()) == Some((false, (pos + bulks(parts).len()) as nat)),
    decreases parts.len(),
{
    if parts.len() > 0 {
        lemma_bulks_front(parts);
        let b = bulk(parts[0]);
        let more = parts.drop_first();
        let sub = s.subrange(pos, s.len() as int);
        let tail = s.subrange(pos + b.len(), s.len() as int);
        assert(sub =~= b + tail) by {
            assert(s.subrange(pos, pos + b.len()) =~= bulks(parts).subrange(0, b.len() as int));
            assert(bulks(parts).subrange(0, b.len() as int) =~= b);
        }
        lemma_bulk_reply(parts[0], tail);
        assert(words_fit(more)) by {
            assert forall|i: int| 0 <= i < more.len() implies #[trigger] more[i].len() <= i64::MAX by {
                assert(more[i] == parts[i + 1]);
            }
        }
        assert(s.subrange(pos + b.len(), pos + b.len() + bulks(more).len()) =~= bulks(more)) by {
            assert(s.subrange(pos + b.len(), pos + b.len() + bulks(more).len()) =~= bulks(
                parts,
            ).subrange(b.len() as int, bulks(parts).len() as int));
        }
        lemma_bulks_replies(s, pos + b.len(), more);
    }
}

/// A command frame, read back as a reply, is one complete reply with no
/// error that takes exactly the frame's bytes, whatever follows it.
pub proof fn lemma_frame_reads_back(parts: Seq<Seq<u8>>, rest: Seq<u8>)
    requires
        words_fit(parts),
    ensures
        reply(frame(parts) + rest) == Some((false, frame(parts).len())),
{
    let body = bulks(parts) + rest;
    lemma_header(42, parts.len(), body);
    let s = frame(parts) + rest;
    assert(s =~= seq![42u8] + decimal(parts.len()) + crlf() + body);
    let h = 1 + decimal(parts.len()).len() as int;
    assert(s.subrange(h + 2, h + 2 + bulks(parts).len()) =~= bulks(parts));
    lemma_bulks_replies(s, h + 2, parts);
}

/// Whether any of the replies `parts` is (or holds) an error.
pub open spec fn any_error(parts: Seq<Seq<u8>>) -> bool {
    exists|i: int| 0 <= i < parts.len() && (#[trigger] reply(parts[i])).unwrap().0
}

/// Each of `parts` is exactly one complete reply.
pub open spec fn whole_replies(parts: Seq<Seq<u8>>) -> bool {
    forall|i: int|
        0 <= i < parts.len() ==> (#[trigger] reply(parts[i])) is Some && reply(parts[i]).unwrap().1
            == parts[i].len()
}

proof fn lemma_replies_parts(prefix: Seq<u8>, parts: Seq<Seq<u8>>, t: Seq<u8>)
    requires
        prefix.len() >= 1,
        whole_replies(parts),
    ensures
        replies(prefix + parts.flatten() + t, prefix.len() as int, parts.len()) == Some(
            (any_error(parts), (prefix.len() + parts.flatten().len()) as nat),
        ),
    decreases parts.len(),
{
    let u = prefix + parts.flatten() + t;
    if parts.len() == 0 {
        assert(!any_error(parts));
    } else {
        let p0 = parts[0];
        let rest = parts.drop_first();
        assert(parts.flatten() == p0 + rest.flatten());
        let pos = prefix.len() as int;
        assert(u.subrange(pos, u.len() as int) =~= p0 + (rest.flatten() + t));
        assert(reply(p0) is Some && reply(p0).unwrap().1 == p0.len());
        lemma_reply_extend(p0, rest.flatten() + t);
        assert(whole_replies(rest)) by {
            assert forall|i: int| 0 <= i < rest.len() implies (#[trigger] reply(rest[i])) is Some
                && reply(rest[i]).unwrap().1 == rest[i].len() by {
                assert(rest[i] == parts[i + 1]);
            }
        }
        let prefix2 = prefix + p0;
        assert(u =~= prefix2 + rest.flatten() + t);
        lemma_replies_parts(prefix2, rest, t);
        if any_error(parts) {
            let i = choose|i: int| 0 <= i < parts.len() && (#[trigger] reply(parts[i])).unwrap().0;
            if i > 0 {
                assert(rest[i - 1] == parts[i]);
                assert(any_error(rest));
            }
        }
        if any_error(rest) {
            let i = choose|i: int| 0 <= i < rest.len() && (#[trigger] reply(rest[i])).unwrap().0;
            assert(rest[i] == parts[i + 1]);
            assert(any_error(parts));
        }
        if reply(p0).unwrap().0 {
            assert(any_error(parts));
        }
    }
}

/// An array reply is (or holds) an error exactly when one of its elements
/// is: `*`, the number of elements, a line end, then the elements, each one
/// complete reply, take exactly their bytes, whatever follows them.
pub proof fn lemma_array_error(parts: Seq<Seq<u8>>, t: Seq<u8>)
    requires
        parts.len() <= i64::MAX,
        whole_replies(parts),
    ensures
        ({
            let s = seq![42u8] + decimal(parts.len()) + crlf() + parts.flatten();
            reply(s + t) == Some((any_error(parts), s.len()))
        }),
{
    let head = seq![42u8] + decimal(parts.len()) + crlf();
    let s = head + parts.flatten();
    lemma_header(42, parts.len(), parts.flatten() + t);
    assert(s + t =~= seq![42u8] + decimal(parts.len()) + crlf() + (parts.flatten() + t));
    assert(s + t =~= head + parts.flatten() + t);
    lemma_replies_parts(head, parts, t);
}

/// A simple string (`+`), an integer (`:`) or an error (`-`) line is one
/// complete reply that takes its line and its line end; it is an error
/// exactly when it is a `-` line.
pub proof fn lemma_line_reply(mark: u8, text: Seq<u8>, t: Seq<u8>)
    requires
        mark == 43 || mark == 58 || mark == 45,
        forall|i: int| 0 <= i < text.len() ==> #[trigger] text[i] != 13,
    ensures
        reply(seq![mark] + text + crlf() + t) == Some((mark == 45, text.len() + 3)),
{
    let s = seq![mark] + text + crlf() + t;
    let h = 1 + text.len() as int;
    assert forall|j: int| 1 <= j < h implies !crlf_at(s, j) by {
        assert(s[j] == text[j - 1]);
    }
    assert(s[h] == 13 && s[h + 1] == 10);
    lemma_first_crlf_is(s, 1, h);
}

} // verus!
