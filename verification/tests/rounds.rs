use resppress::resp::encode;
use resppress::session::{build_batch, discard_front, first_foreign_byte, plan_rounds, Round, Step, Tally};

#[test]
fn batch_alternates_set_and_get() {
    let set = encode(&["SET", "foo", "bar"]);
    let get = encode(&["GET", "foo"]);
    let b = build_batch(&set, &get, 3);
    let mut expected = set.clone();
    expected.extend_from_slice(&get);
    expected.extend_from_slice(&set);
    assert_eq!(b, expected);
    assert!(build_batch(&set, &get, 0).is_empty());
}

#[test]
fn rounds_are_whole_batches() {
    assert_eq!(plan_rounds(10_000, 1), (10_000, 10_000));
    assert_eq!(plan_rounds(1000, 300), (3, 900));
    assert_eq!(plan_rounds(5, 10), (0, 0));
}

#[test]
fn round_reads_replies_then_asks_for_bytes() {
    let mut round = Round::new(3);
    let mut acc: Vec<u8> = b"+OK\r\n$3\r\nbar\r\n-ER".to_vec();
    assert_eq!(round.step(&acc), Step::Reply { is_err: false, start: 0, end: 5, excerpt_end: 5 });
    assert_eq!(round.step(&acc), Step::Reply { is_err: false, start: 5, end: 14, excerpt_end: 14 });
    assert_eq!(round.step(&acc), Step::NeedBytes);
    assert_eq!(round, Round { batch: 3, replies: 2, pos: 14 });
    acc.extend_from_slice(b"R bad\r\n+OK\r\n");
    assert_eq!(round.step(&acc), Step::Reply { is_err: true, start: 14, end: 24, excerpt_end: 24 });
    assert_eq!(round.step(&acc), Step::Complete);
    assert_eq!(round.pos, 24);
    discard_front(&mut acc, round.pos);
    assert_eq!(acc, b"+OK\r\n".to_vec());
}

#[test]
fn long_error_excerpt_is_cut_at_64_bytes() {
    let mut msg = b"-ERR ".to_vec();
    msg.extend(std::iter::repeat(b'x').take(100));
    msg.extend_from_slice(b"\r\n");
    let mut round = Round::new(1);
    assert_eq!(round.step(&msg), Step::Reply { is_err: true, start: 0, end: 107, excerpt_end: 64 });
}

#[test]
fn tally_counts_answers_and_errors() {
    let mut t = Tally::new();
    t.record(false);
    t.record(true);
    t.record(false);
    assert_eq!((t.oks, t.errors), (2, 1));
    let mut full = Tally { oks: u64::MAX, errors: 0 };
    full.record(false);
    assert_eq!(full.oks, 0);
}

#[test]
fn ok_stream_guard_finds_foreign_byte() {
    assert_eq!(first_foreign_byte(b"+OK\r\n+OK\r\n"), None);
    assert_eq!(first_foreign_byte(b"+OK\r\n-ERR"), Some(5));
    assert_eq!(first_foreign_byte(b""), None);
}

#[test]
fn batch_is_a_fifty_fifty_mix() {
    let set = encode(&["SET", "foo", "bar"]);
    let get = encode(&["GET", "foo"]);
    for count in [0usize, 1, 2, 7, 10] {
        let b = build_batch(&set, &get, count);
        assert_eq!(b.len(), (count + 1) / 2 * set.len() + count / 2 * get.len());
    }
}
