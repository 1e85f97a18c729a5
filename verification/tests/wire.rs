use resppress::decimal::{decimal_text, parse_i64, parse_u64, parse_usize};
use resppress::resp::{encode, find_crlf, parse_one};

#[test]
fn encode_set_command() {
    let frame = encode(&["SET", "foo", "bar"]);
    assert_eq!(frame, b"*3\r\n$3\r\nSET\r\n$3\r\nfoo\r\n$3\r\nbar\r\n".to_vec());
}

#[test]
fn encode_get_command() {
    let frame = encode(&["GET", "foo"]);
    assert_eq!(frame, b"*2\r\n$3\r\nGET\r\n$3\r\nfoo\r\n".to_vec());
}

#[test]
fn encode_empty_command_and_multidigit_lengths() {
    assert_eq!(encode(&[]), b"*0\r\n".to_vec());
    let long = "x".repeat(12);
    let frame = encode(&[long.as_str()]);
    assert_eq!(frame, format!("*1\r\n$12\r\n{}\r\n", long).into_bytes());
}

#[test]
fn encode_counts_bytes_not_chars() {
    let frame = encode(&["µ"]);
    assert_eq!(frame, "*1\r\n$2\r\nµ\r\n".as_bytes().to_vec());
}

#[test]
fn find_crlf_finds_first_line_end_from_position() {
    let buf = b"+OK\r\n+OK\r\n";
    assert_eq!(find_crlf(buf, 0), Some(3));
    assert_eq!(find_crlf(buf, 1), Some(3));
    assert_eq!(find_crlf(buf, 4), Some(8));
    assert_eq!(find_crlf(buf, 9), None);
    assert_eq!(find_crlf(buf, 10), None);
    assert_eq!(find_crlf(b"\r", 0), None);
    assert_eq!(find_crlf(b"a\rb\n\r\n", 0), Some(4));
}

#[test]
fn parse_simple_replies() {
    assert_eq!(parse_one(b"+OK\r\n"), Some((false, 5)));
    assert_eq!(parse_one(b":1000\r\n"), Some((false, 7)));
    assert_eq!(parse_one(b"-ERR unknown command\r\n"), Some((true, 22)));
}

#[test]
fn parse_bulk_replies() {
    assert_eq!(parse_one(b"$3\r\nbar\r\n"), Some((false, 9)));
    assert_eq!(parse_one(b"$0\r\n\r\n"), Some((false, 6)));
    assert_eq!(parse_one(b"$-1\r\n"), Some((false, 5)));
    assert_eq!(parse_one(b"$+3\r\nbar\r\n"), Some((false, 10)));
    assert_eq!(parse_one(b"$5\r\na\r\nbc\r\n"), Some((false, 11)));
}

#[test]
fn parse_incomplete_replies_wait_for_more() {
    assert_eq!(parse_one(b""), None);
    assert_eq!(parse_one(b"+OK\r"), None);
    assert_eq!(parse_one(b"$3\r\nba"), None);
    assert_eq!(parse_one(b"$3\r\nbar\r"), None);
    assert_eq!(parse_one(b"*2\r\n+OK\r\n"), None);
    assert_eq!(parse_one(b"$3"), None);
}

#[test]
fn bad_length_header_is_an_error_reply_of_its_line() {
    assert_eq!(parse_one(b"$abc\r\n"), Some((true, 6)));
    assert_eq!(parse_one(b"$abc\r\nbar\r\n"), Some((true, 6)));
    assert_eq!(parse_one(b"$\r\n"), Some((true, 3)));
    assert_eq!(parse_one(b"*x\r\n+OK\r\n"), Some((true, 4)));
    assert_eq!(parse_one(b"$99999999999999999999\r\n"), Some((true, 23)));
    assert_eq!(parse_one(b"$ab"), None);
}

#[test]
fn incomplete_replies_complete_with_more_bytes() {
    let parts: [(&[u8], &[u8]); 5] = [
        (b"+O", b"K\r\n"),
        (b"$3\r\nba", b"r\r\n"),
        (b"$ab", b"\r\n"),
        (b"*2\r\n+OK\r\n", b"$-1\r\n"),
        (b"", b"x"),
    ];
    for (head, tail) in parts {
        assert_eq!(parse_one(head), None);
        let mut whole = head.to_vec();
        whole.extend_from_slice(tail);
        assert_eq!(parse_one(&whole).map(|r| r.1), Some(whole.len()));
    }
}

#[test]
fn reply_depends_only_on_its_own_bytes() {
    let stream = b"*2\r\n$3\r\nbar\r\n:7\r\n+OK\r\n";
    let (e, used) = parse_one(stream).unwrap();
    assert_eq!((e, used), (false, 17));
    assert_eq!(parse_one(&stream[..used]), Some((e, used)));
    for k in 0..used {
        assert_eq!(parse_one(&stream[..k]), None);
    }
}

#[test]
fn parse_arrays() {
    assert_eq!(parse_one(b"*2\r\n+OK\r\n$3\r\nbar\r\n"), Some((false, 18)));
    assert_eq!(parse_one(b"*2\r\n+OK\r\n-ERR no\r\n"), Some((true, 18)));
    assert_eq!(parse_one(b"*0\r\n"), Some((false, 4)));
    assert_eq!(parse_one(b"*-1\r\n"), Some((false, 5)));
    assert_eq!(parse_one(b"*1\r\n*1\r\n:5\r\n"), Some((false, 12)));
}

#[test]
fn parse_noise_is_one_error_byte() {
    assert_eq!(parse_one(b"x"), Some((true, 1)));
    assert_eq!(parse_one(b"\r\n"), Some((true, 1)));
}

#[test]
fn complete_reply_is_unchanged_by_later_bytes() {
    let replies: [&[u8]; 5] = [b"+OK\r\n", b"$3\r\nbar\r\n", b"-ERR x\r\n", b"*1\r\n:1\r\n", b"$-1\r\n"];
    for r in replies {
        let mut longer = r.to_vec();
        longer.extend_from_slice(b"$3\r\nbar\r\n+OK");
        assert_eq!(parse_one(&longer), parse_one(r));
        assert_eq!(parse_one(r).unwrap().1, r.len());
    }
}

#[test]
fn frame_reads_back_as_one_complete_reply() {
    let frame = encode(&["SET", "foo", "bar"]);
    let mut stream = frame.clone();
    stream.extend_from_slice(b"+OK\r\n");
    assert_eq!(parse_one(&stream), Some((false, frame.len())));
}

#[test]
fn decimal_text_round_trips() {
    for n in [0u64, 7, 10, 6379, 10_000, u64::MAX] {
        let text = decimal_text(n);
        assert_eq!(text, n.to_string().into_bytes());
        assert_eq!(parse_u64(&text), Some(n));
    }
}

#[test]
fn number_parsing_follows_str_parse() {
    assert_eq!(parse_u64(b"+12"), Some(12));
    assert_eq!(parse_u64(b"12"), Some(12));
    assert_eq!(parse_u64(b""), None);
    assert_eq!(parse_u64(b"+"), None);
    assert_eq!(parse_u64(b"-1"), None);
    assert_eq!(parse_u64(b"1 "), None);
    assert_eq!(parse_u64(b"18446744073709551615"), Some(u64::MAX));
    assert_eq!(parse_u64(b"18446744073709551616"), None);
    assert_eq!(parse_usize(b"007"), Some(7));
    assert_eq!(parse_i64(b"-1"), Some(-1));
    assert_eq!(parse_i64(b"-9223372036854775808"), Some(i64::MIN));
    assert_eq!(parse_i64(b"9223372036854775807"), Some(i64::MAX));
    assert_eq!(parse_i64(b"9223372036854775808"), None);
    assert_eq!(parse_i64(b"-9223372036854775809"), None);
    assert_eq!(parse_i64(b"-"), None);
    assert_eq!(parse_i64(b"+5"), Some(5));
    assert_eq!(parse_i64(b"--5"), None);
}

#[test]
fn different_commands_give_different_frames() {
    let cmds: [&[&str]; 6] = [&["SET", "foo", "bar"], &["SET", "foo", "ba"], &["SET", "fo", "obar"], &["SETfoo", "bar"], &["GET", "foo"], &[]];
    for (i, a) in cmds.iter().enumerate() {
        for (j, b) in cmds.iter().enumerate() {
            assert_eq!(encode(a) == encode(b), i == j);
        }
    }
}
