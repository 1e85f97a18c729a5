//! The load generator's command line: flags, their values, the defaults, and
//! which knobs the user left at their default.
use vstd::prelude::*;
use crate::decimal::{parse_u64, parse_usize, u64_text, usize_text};
use crate::text::{chars_of, same_text};

verus! {

/// Requests sent when `-n` is not given.
pub const DEFAULT_REQUESTS: usize = 10_000;

/// Batch size when `-b` is not given (one request at a time).
pub const DEFAULT_BATCH: usize = 1;

/// Rate when `-r` is not given (0: no rate limit).
pub const DEFAULT_RATE: u64 = 0;

/// One of the four settings that the flags set.
#[derive(Debug, Clone, Copy, PartialEq, Eq)]
pub enum Knob {
    Number,
    BatchSize,
    Rate,
    Target,
}

/// Why the command line was refused. Positions are indices into the
/// argument list (the program name not included).
#[derive(Debug, Clone, Copy, PartialEq, Eq)]
pub enum ArgError {
    /// `-h` or `--help` stood where a flag was expected.
    Help,
    /// The flag at this position is the last argument and has no value.
    MissingValue { flag: usize },
    /// The knob was already set by an earlier flag (short or long form).
    Duplicate { knob: Knob },
    /// The value after the flag at this position is not a number.
    NotANumber { flag: usize },
    /// The flag at this position is not one the program knows.
    UnknownFlag { flag: usize },
}

/// The run's settings, and which of them were left at their default.
#[derive(Debug)]
pub struct Config {
    pub n: usize,
    pub batch: usize,
    pub rate: u64,
    pub host: Vec<char>,
    pub port: Vec<char>,
    pub n_def: bool,
    pub batch_def: bool,
    pub rate_def: bool,
    pub target_def: bool,
    pub port_def: bool,
}

/// A `Config` as plain values.
pub struct ConfigView {
    pub n: usize,
    pub batch: usize,
    pub rate: u64,
    pub host: Seq<char>,
    pub port: Seq<char>,
    pub n_def: bool,
    pub batch_def: bool,
    pub rate_def: bool,
    pub target_def: bool,
    pub port_def: bool,
}

impl View for Config {
    type V = ConfigView;

    open spec fn view(&self) -> ConfigView {
        ConfigView {
            n: self.n,
            batch: self.batch,
            rate: self.rate,
            host: self.host@,
            port: self.port@,
            n_def: self.n_def,
            batch_def: self.batch_def,
            rate_def: self.rate_def,
            target_def: self.target_def,
            port_def: self.port_def,
        }
    }
}

/// The knobs set so far while the flags are read.
pub struct Knobs {
    pub n: Option<usize>,
    pub batch: Option<usize>,
    pub rate: Option<u64>,
    pub target: Option<Seq<char>>,
}

/// The target when `-t` is not given.
pub open spec fn default_target() -> Seq<char> {
    "127.0.0.1:6379"@
}

/// The port when the target names none.
pub open spec fn default_port() -> Seq<char> {
    "6379"@
}

/// `-h` or `--help`.
pub open spec fn is_help(f: Seq<char>) -> bool {
    f == "-h"@ || f == "--help"@
}

/// The knob that a flag sets, in its short or its long form.
pub open spec fn knob_of(f: Seq<char>) -> Option<Knob> {
    if f == "-n"@ || f == "--number"@ {
        Some(Knob::Number)
    } else if f == "-b"@ || f == "--batch-size"@ {
        Some(Knob::BatchSize)
    } else if f == "-r"@ || f == "--rate"@ {
        Some(Knob::Rate)
    } else if f == "-t"@ || f == "--target"@ {
        Some(Knob::Target)
    } else {
        None
    }
}

/// The bytes that number parsing sees of a text: ASCII characters as
/// themselves, any other character as a byte that is no digit and no sign.
pub open spec fn ascii_bytes(s: Seq<char>) -> Seq<u8> {
    s.map_values(|c: char| if (c as u32) < 128 { (c as u32) as u8 } else { 255u8 })
}

/// Whether `k` already holds the knob.
pub open spec fn knob_set(k: Knobs, knob: Knob) -> bool {
    match knob {
        Knob::Number => k.n is Some,
        Knob::BatchSize => k.batch is Some,
        Knob::Rate => k.rate is Some,
        Knob::Target => k.target is Some,
    }
}

/// Sets `knob` from the value `v` of the flag at position `at`.
pub open spec fn set_knob(k: Knobs, knob: Knob, v: Seq<char>, at: int) -> Result<Knobs, ArgError> {
    if knob_set(k, knob) {
        Err(ArgError::Duplicate { knob })
    } else {
        match knob {
            Knob::Number => match usize_text(ascii_bytes(v)) {
                Some(x) => Ok(Knobs { n: Some(x), ..k }),
                None => Err(ArgError::NotANumber { flag: at as usize }),
            },
            Knob::BatchSize => match usize_text(ascii_bytes(v)) {
                Some(x) => Ok(Knobs { batch: Some(x), ..k }),
                None => Err(ArgError::NotANumber { flag: at as usize }),
            },
            Knob::Rate => match u64_text(ascii_bytes(v)) {
                Some(x) => Ok(Knobs { rate: Some(x), ..k }),
                None => Err(ArgError::NotANumber { flag: at as usize }),
            },
            Knob::Target => Ok(Knobs { target: Some(v), ..k }),
        }
    }
}

/// Reads the flags from position `i` on, each followed by its value.
pub open spec fn scan(args: Seq<Seq<char>>, i: int, k: Knobs) -> Result<Knobs, ArgError>
    decreases args.len() - i,
{
    if i < 0 || i >= args.len() {
        Ok(k)
    } else if is_help(args[i]) {
        Err(ArgError::Help)
    } else if i + 1 >= args.len() {
        Err(ArgError::MissingValue { flag: i as usize })
    } else {
        match knob_of(args[i]) {
            None => Err(ArgError::UnknownFlag { flag: i as usize }),
            Some(knob) => match set_knob(k, knob, args[i + 1], i) {
                Ok(k2) => scan(args, i + 2, k2),
                Err(e) => Err(e),
            },
        }
    }
}

/// The first position of `c` in `s` at or after `from`.
pub open spec fn find_char(s: Seq<char>, c: char, from: int) -> Option<int>
    decreases s.len() - from,
{
    if from < 0 || from >= s.len() {
        None
    } else if s[from] == c {
        Some(from)
    } else {
        find_char(s, c, from + 1)
    }
}

/// The settings that the knobs give: the target splits at its first `:`
/// into host and port; with no `:` it is all host, and the port is 6379.
pub open spec fn settings(k: Knobs) -> ConfigView {
    let t = match k.target {
        Some(t) => t,
        None => default_target(),
    };
    let (host, port, port_def) = match find_char(t, ':', 0) {
        Some(i) => (t.subrange(0, i), t.subrange(i + 1, t.len() as int), false),
        None => (t, default_port(), true),
    };
    ConfigView {
        n: match k.n {
            Some(v) => v,
            None => DEFAULT_REQUESTS,
        },
        batch: match k.batch {
            Some(v) => v,
            None => DEFAULT_BATCH,
        },
        rate: match k.rate {
            Some(v) => v,
            None => DEFAULT_RATE,
        },
        host,
        port,
        n_def: k.n is None,
        batch_def: k.batch is None,
        rate_def: k.rate is None,
        target_def: k.target is None,
        port_def,
    }
}

/// The text of an optional value.
pub open spec fn opt_text(t: &Option<Vec<char>>) -> Option<Seq<char>> {
    match t {
        Some(v) => Some(v@),
        None => None,
    }
}

/// The texts of the arguments.
pub open spec fn arg_texts(args: Seq<Vec<char>>) -> Seq<Seq<char>> {
    args.map_values(|a: Vec<char>| a@)
}

/// What the command line gives: the settings, or why it was refused.
pub open spec fn command_line(args: Seq<Seq<char>>) -> Result<ConfigView, ArgError> {
    match scan(args, 0, Knobs { n: None, batch: None, rate: None, target: None }) {
        Ok(k) => Ok(settings(k)),
        Err(e) => Err(e),
    }
}

proof fn lemma_refused(args: Seq<Seq<char>>, i: int, k: Knobs, e: ArgError)
    requires
        scan(args, 0, Knobs { n: None, batch: None, rate: None, target: None }) == scan(args, i, k),
        scan(args, i, k) == Err::<Knobs, ArgError>(e),
    ensures
        command_line(args) == Err::<ConfigView, ArgError>(e),
{
}

fn ascii_of(s: &[char]) -> (r: Vec<u8>)
    ensures
        r@ == ascii_bytes(s@),
{
    let mut out: Vec<u8> = Vec::new();
    let mut i: usize = 0;
    while i < s.len()
        invariant
            0 <= i <= s.len(),
            out@ == ascii_bytes(s@.subrange(0, i as int)),
        decreases s.len() - i,
    {
        let c = s[i];
        let code = c as u32;
        let b: u8 = if code < 128 {
            code as u8
        } else {
            255
        };
        assert(b == (if (c as u32) < 128 { (c as u32) as u8 } else { 255u8 }));
        out.push(b);
        assert(ascii_bytes(s@.subrange(0, i as int + 1)) =~= ascii_bytes(s@.subrange(0, i as int)).push(b));
        i = i + 1;
    }
    assert(s@.subrange(0, s@.len() as int) =~= s@);
    out
}

/// Whether `f` is the short or the long form of a flag.
fn is_flag(f: &[char], short: &str, long: &str) -> (r: bool)
    ensures
        r == (f@ == short@ || f@ == long@),
{
    same_text(f, chars_of(short).as_slice()) || same_text(f, chars_of(long).as_slice())
}

fn flag_knob(f: &[char]) -> (r: Option<Knob>)
    ensures
        r == knob_of(f@),
{
    if is_flag(f, "-n", "--number") {
        Some(Knob::Number)
    } else if is_flag(f, "-b", "--batch-size") {
        Some(Knob::BatchSize)
    } else if is_flag(f, "-r", "--rate") {
        Some(Knob::Rate)
    } else if is_flag(f, "-t", "--target") {
        Some(Knob::Target)
    } else {
        None
    }
}

/// The first `:` in `t`.
fn find_colon(t: &[char]) -> (r: Option<usize>)
    ensures
        match r {
            Some(i) => i < t.len() && find_char(t@, ':', 0) == Some(i as int),
            None => find_char(t@, ':', 0) is None,
        },
{
    let mut i: usize = 0;
    while i < t.len()
        invariant
            0 <= i <= t.len(),
            find_char(t@, ':', 0) == find_char(t@, ':', i as int),
        decreases t.len() - i,
    {
        if t[i] == ':' {
            return Some(i);
        }
        i = i + 1;
    }
    None
}

fn copy_range(t: &[char], from: usize, to: usize) -> (r: Vec<char>)
    requires
        from <= to <= t.len(),
    ensures
        r@ == t@.subrange(from as int, to as int),
{
    let mut out: Vec<char> = Vec::new();
    let mut i = from;
    while i < to
        invariant
            from <= i <= to <= t.len(),
            out@ == t@.subrange(from as int, i as int),
        decreases to - i,
    {
        out.push(t[i]);
        assert(t@.subrange(from as int, i as int + 1) =~= t@.subrange(from as int, i as int).push(
            t@[i as int],
        ));
        i = i + 1;
    }
    out
}

/// Reads the load generator's flags, `-n/--number N`, `-b/--batch-size B`,
/// `-r/--rate R`, `-t/--target HOST[:PORT]`, each followed by its value, in
/// any order, each at most once. `-h`/`--help` where a flag stands asks
/// for the usage text.
pub fn parse_args(args: &Vec<Vec<char>>) -> (r: Result<Config, ArgError>)
    ensures
        match r {
            Ok(c) => command_line(arg_texts(args@)) == Ok::<ConfigView, ArgError>(c@),
            Err(e) => command_line(arg_texts(args@)) == Err::<ConfigView, ArgError>(e),
        },
{
    let ghost texts = arg_texts(args@);
    let mut n: Option<usize> = None;
    let mut batch: Option<usize> = None;
    let mut rate: Option<u64> = None;
    let mut target: Option<Vec<char>> = None;
    let ghost start = Knobs { n: None, batch: None, rate: None, target: None };
    let mut i: usize = 0;
    while i < args.len()
        invariant
            texts == arg_texts(args@),
            start == (Knobs { n: None, batch: None, rate: None, target: None }),
            0 <= i <= args.len() + 1,
            scan(texts, 0, start) == scan(
                texts,
                i as int,
                Knobs {
                    n,
                    batch,
                    rate,
                    target: opt_text(&target),
                },
            ),
        decreases args.len() + 1 - i,
    {
        let ghost k = Knobs {
            n,
            batch,
            rate,
            target: opt_text(&target),
        };
        let flag: &Vec<char> = &args[i];
        assert(texts[i as int] == flag@);
        if is_flag(flag.as_slice(), "-h", "--help") {
            proof { lemma_refused(texts, i as int, k, ArgError::Help); }
            return Err(ArgError::Help);
        }
        if i + 1 >= args.len() {
            proof { lemma_refused(texts, i as int, k, ArgError::MissingValue { flag: i }); }
            return Err(ArgError::MissingValue { flag: i });
        }
        let val: &Vec<char> = &args[i + 1];
        assert(texts[i as int + 1] == val@);
        match flag_knob(flag.as_slice()) {
            Some(Knob::Number) => {
                if n.is_some() {
                    proof { lemma_refused(texts, i as int, k, ArgError::Duplicate { knob: Knob::Number }); }
                    return Err(ArgError::Duplicate { knob: Knob::Number });
                }
                let bytes = ascii_of(val.as_slice());
                match parse_usize(bytes.as_slice()) {
                    Some(v) => {
                        n = Some(v);
                    },
                    None => {
                        proof { lemma_refused(texts, i as int, k, ArgError::NotANumber { flag: i }); }
                        return Err(ArgError::NotANumber { flag: i });
                    },
                }
            },
            Some(Knob::BatchSize) => {
                if batch.is_some() {
                    proof { lemma_refused(texts, i as int, k, ArgError::Duplicate { knob: Knob::BatchSize }); }
                    return Err(ArgError::Duplicate { knob: Knob::BatchSize });
                }
                let bytes = ascii_of(val.as_slice());
                match parse_usize(bytes.as_slice()) {
                    Some(v) => {
                        batch = Some(v);
                    },
                    None => {
                        proof { lemma_refused(texts, i as int, k, ArgError::NotANumber { flag: i }); }
                        return Err(ArgError::NotANumber { flag: i });
                    },
                }
            },
            Some(Knob::Rate) => {
                if rate.is_some() {
                    proof { lemma_refused(texts, i as int, k, ArgError::Duplicate { knob: Knob::Rate }); }
                    return Err(ArgError::Duplicate { knob: Knob::Rate });
                }
                let bytes = ascii_of(val.as_slice());
                match parse_u64(bytes.as_slice()) {
                    Some(v) => {
                        rate = Some(v);
                    },
                    None => {
                        proof { lemma_refused(texts, i as int, k, ArgError::NotANumber { flag: i }); }
                        return Err(ArgError::NotANumber { flag: i });
                    },
                }
            },
            Some(Knob::Target) => {
                if target.is_some() {
                    proof { lemma_refused(texts, i as int, k, ArgError::Duplicate { knob: Knob::Target }); }
                    return Err(ArgError::Duplicate { knob: Knob::Target });
                }
                target = Some(val.clone());
            },
            None => {
                proof { lemma_refused(texts, i as int, k, ArgError::UnknownFlag { flag: i }); }
                return Err(ArgError::UnknownFlag { flag: i });
            },
        }
        i = i + 2;
    }
    let target_def = target.is_none();
    let t: Vec<char> = match target {
        Some(t) => t,
        None => {
            chars_of("127.0.0.1:6379")
        },
    };
    let (host, port, port_def) = match find_colon(t.as_slice()) {
        Some(c) => (copy_range(t.as_slice(), 0, c), copy_range(t.as_slice(), c + 1, t.len()), false),
        None => {
            (t, chars_of("6379"), true)
        },
    };
    Ok(
        Config {
            n_def: n.is_none(),
            batch_def: batch.is_none(),
            rate_def: rate.is_none(),
            target_def,
            port_def,
            n: match n {
                Some(v) => v,
                None => DEFAULT_REQUESTS,
            },
            batch: match batch {
                Some(v) => v,
                None => DEFAULT_BATCH,
            },
            rate: match rate {
                Some(v) => v,
                None => DEFAULT_RATE,
            },
            host,
            port,
        },
    )
}


/// The value of `knob` as the flags give it: parsed for the numbers, as it
/// stands for the target.
pub open spec fn knob_value_ok(knob: Knob, v: Seq<char>) -> bool {
    match knob {
        Knob::Number => usize_text(ascii_bytes(v)) is Some,
        Knob::BatchSize => usize_text(ascii_bytes(v)) is Some,
        Knob::Rate => u64_text(ascii_bytes(v)) is Some,
        Knob::Target => true,
    }
}

/// From position `j` on, the arguments are flag and value pairs, each flag
/// one the program knows and each value one its knob takes.
pub open spec fn pairs_ok(args: Seq<Seq<char>>, j: int) -> bool
    decreases args.len() - j,
{
    if j < 0 || j >= args.len() {
        true
    } else if j + 1 >= args.len() {
        false
    } else {
        match knob_of(args[j]) {
            Some(knob) => knob_value_ok(knob, args[j + 1]) && pairs_ok(args, j + 2),
            None => false,
        }
    }
}

/// How many of the pairs from position `j` on set `knob`.
pub open spec fn knob_count(args: Seq<Seq<char>>, knob: Knob, j: int) -> nat
    decreases args.len() - j,
{
    if j < 0 || j + 1 >= args.len() {
        0
    } else {
        (if knob_of(args[j]) == Some(knob) {
            1nat
        } else {
            0nat
        }) + knob_count(args, knob, j + 2)
    }
}

/// The value of the first pair from position `j` on that sets `knob`.
pub open spec fn given(args: Seq<Seq<char>>, knob: Knob, j: int) -> Option<Seq<char>>
    decreases args.len() - j,
{
    if j < 0 || j + 1 >= args.len() {
        None
    } else if knob_of(args[j]) == Some(knob) {
        Some(args[j + 1])
    } else {
        given(args, knob, j + 2)
    }
}

/// 1 when `k` already holds the knob.
pub open spec fn set_count(k: Knobs, knob: Knob) -> nat {
    if knob_set(k, knob) {
        1
    } else {
        0
    }
}

/// No knob is set twice, counting those `k` already holds.
pub open spec fn at_most_once(args: Seq<Seq<char>>, k: Knobs, j: int) -> bool {
    &&& knob_count(args, Knob::Number, j) + set_count(k, Knob::Number) <= 1
    &&& knob_count(args, Knob::BatchSize, j) + set_count(k, Knob::BatchSize) <= 1
    &&& knob_count(args, Knob::Rate, j) + set_count(k, Knob::Rate) <= 1
    &&& knob_count(args, Knob::Target, j) + set_count(k, Knob::Target) <= 1
}

/// The knobs that the pairs from position `j` on set, on top of `k`.
pub open spec fn filled(k: Knobs, args: Seq<Seq<char>>, j: int) -> Knobs {
    Knobs {
        n: match k.n {
            Some(x) => Some(x),
            None => match given(args, Knob::Number, j) {
                Some(v) => usize_text(ascii_bytes(v)),
                None => None,
            },
        },
        batch: match k.batch {
            Some(x) => Some(x),
            None => match given(args, Knob::BatchSize, j) {
                Some(v) => usize_text(ascii_bytes(v)),
                None => None,
            },
        },
        rate: match k.rate {
            Some(x) => Some(x),
            None => match given(args, Knob::Rate, j) {
                Some(v) => u64_text(ascii_bytes(v)),
                None => None,
            },
        },
        target: match k.target {
            Some(x) => Some(x),
            None => given(args, Knob::Target, j),
        },
    }
}

/// No knob is set yet.
pub open spec fn no_knobs() -> Knobs {
    Knobs { n: None, batch: None, rate: None, target: None }
}

proof fn lemma_help_is_no_knob(f: Seq<char>)
    requires
        is_help(f),
    ensures
        knob_of(f) is None,
{
    reveal_strlit("-h");
    reveal_strlit("--help");
    reveal_strlit("-n");
    reveal_strlit("--number");
    reveal_strlit("-b");
    reveal_strlit("--batch-size");
    reveal_strlit("-r");
    reveal_strlit("--rate");
    reveal_strlit("-t");
    reveal_strlit("--target");
    if f == "-h"@ {
        assert(f[1] == 'h');
        assert(f != "-n"@ && f != "-b"@ && f != "-r"@ && f != "-t"@);
        assert(f.len() == 2);
    } else {
        assert(f.len() == 6);
        assert(f[2] == 'h');
    }
}

proof fn lemma_scan(args: Seq<Seq<char>>, j: int, k: Knobs)
    requires
        0 <= j,
    ensures
        scan(args, j, k) is Ok <==> pairs_ok(args, j) && at_most_once(args, k, j),
        scan(args, j, k) is Ok ==> scan(args, j, k) == Ok::<Knobs, ArgError>(filled(k, args, j)),
    decreases args.len() - j,
{
    if j >= args.len() {
        assert(filled(k, args, j) == k);
    } else if j + 1 >= args.len() {
        if is_help(args[j]) {
            lemma_help_is_no_knob(args[j]);
        }
    } else {
        let f = args[j];
        let v = args[j + 1];
        if is_help(f) {
            lemma_help_is_no_knob(f);
        } else {
            match knob_of(f) {
                None => {},
                Some(knob) => {
                    if knob_set(k, knob) {
                        assert(knob_count(args, knob, j) >= 1);
                    } else {
                        match set_knob(k, knob, v, j) {
                            Err(e) => {},
                            Ok(k2) => {
                                lemma_scan(args, j + 2, k2);
                                assert(filled(k2, args, j + 2) == filled(k, args, j));
                            },
                        }
                    }
                },
            }
        }
    }
}

/// The command line is accepted exactly when it is flag and value
/// pairs, each flag known and each value one its knob takes, and no knob is
/// set twice (short and long forms of a flag set the same knob). Then each
/// setting is the value given for it, or its default when none was; the
/// target splits at its first `:`, and with none the port is 6379.
pub proof fn lemma_command_line_accepts(args: Seq<Seq<char>>)
    ensures
        command_line(args) is Ok <==> pairs_ok(args, 0) && at_most_once(args, no_knobs(), 0),
        command_line(args) is Ok ==> command_line(args) == Ok::<ConfigView, ArgError>(
            settings(filled(no_knobs(), args, 0)),
        ),
{
    lemma_scan(args, 0, no_knobs());
}

/// The settings depend only on the value each knob was given, not on
/// the order of the pairs or on which form of a flag set it: two accepted
/// command lines that give every knob the same value (or none) give the
/// same settings.
pub proof fn lemma_command_line_order_free(a: Seq<Seq<char>>, b: Seq<Seq<char>>)
    requires
        command_line(a) is Ok,
        command_line(b) is Ok,
        given(a, Knob::Number, 0) == given(b, Knob::Number, 0),
        given(a, Knob::BatchSize, 0) == given(b, Knob::BatchSize, 0),
        given(a, Knob::Rate, 0) == given(b, Knob::Rate, 0),
        given(a, Knob::Target, 0) == given(b, Knob::Target, 0),
    ensures
        command_line(a) == command_line(b),
{
    lemma_command_line_accepts(a);
    lemma_command_line_accepts(b);
    assert(filled(no_knobs(), a, 0) == filled(no_knobs(), b, 0));
}

proof fn lemma_pairs_ok_at(args: Seq<Seq<char>>, j: int)
    requires
        0 <= j <= args.len(),
    ensures
        pairs_ok(args, j) <==> (args.len() - j) % 2 == 0 && forall|i: int|
            j <= i < args.len() && (i - j) % 2 == 0 ==> (#[trigger] knob_of(args[i]) matches Some(
                knob,
            ) && knob_value_ok(knob, args[i + 1])),
    decreases args.len() - j,
{
    if j + 1 < args.len() {
        lemma_pairs_ok_at(args, j + 2);
        if pairs_ok(args, j) {
            assert forall|i: int|
                j <= i < args.len() && (i - j) % 2 == 0 implies (#[trigger] knob_of(args[i]) matches Some(
                knob,
            ) && knob_value_ok(knob, args[i + 1])) by {
                if i > j {
                    assert((i - (j + 2)) % 2 == 0);
                }
            }
        } else if (args.len() - j) % 2 == 0 {
            if knob_of(args[j]) matches Some(knob) && knob_value_ok(knob, args[j + 1]) {
                let i = choose|i: int|
                    j + 2 <= i < args.len() && (i - (j + 2)) % 2 == 0 && !(#[trigger] knob_of(
                        args[i],
                    ) matches Some(knob) && knob_value_ok(knob, args[i + 1]));
                assert((i - j) % 2 == 0);
            }
        }
    }
}

/// The command line is accepted exactly when it has an even number of
/// arguments, the argument at every even position is a flag the program
/// knows and the one after it a value that flag's knob takes, and no knob
/// is named more than once, in either of its forms.
pub proof fn lemma_command_line_positions(args: Seq<Seq<char>>)
    ensures
        command_line(args) is Ok <==> {
            &&& args.len() % 2 == 0
            &&& forall|i: int|
                0 <= i < args.len() && i % 2 == 0 ==> (#[trigger] knob_of(args[i]) matches Some(
                    knob,
                ) && knob_value_ok(knob, args[i + 1]))
            &&& forall|knob: Knob| #[trigger] knob_count(args, knob, 0) <= 1
        },
{
    lemma_command_line_accepts(args);
    lemma_pairs_ok_at(args, 0);
    if forall|knob: Knob| #[trigger] knob_count(args, knob, 0) <= 1 {
        assert(knob_count(args, Knob::Number, 0) <= 1);
        assert(knob_count(args, Knob::BatchSize, 0) <= 1);
        assert(knob_count(args, Knob::Rate, 0) <= 1);
        assert(knob_count(args, Knob::Target, 0) <= 1);
    }
    if at_most_once(args, no_knobs(), 0) {
        assert forall|knob: Knob| #[trigger] knob_count(args, knob, 0) <= 1 by {
            match knob {
                Knob::Number => {},
                Knob::BatchSize => {},
                Knob::Rate => {},
                Knob::Target => {},
            }
        }
    }
}

proof fn lemma_scan_prefix(args: Seq<Seq<char>>, j: int, i: int, k: Knobs)
    requires
        0 <= i <= j <= args.len(),
        (j - i) % 2 == 0,
    ensures
        scan(args.take(j), i, k) matches Ok(k2) ==> scan(args, i, k) == scan(args, j, k2),
        scan(args.take(j), i, k) is Err ==> scan(args, i, k) == scan(args.take(j), i, k),
    decreases j - i,
{
    let p = args.take(j);
    if i < j {
        assert(p[i] == args[i]);
        assert(p[i + 1] == args[i + 1]);
        lemma_scan_prefix(args, j, i + 2, k);
        if let Some(knob) = knob_of(args[i]) {
            if let Ok(k2) = set_knob(k, knob, args[i + 1], i) {
                lemma_scan_prefix(args, j, i + 2, k2);
            }
        }
    }
}

proof fn lemma_help_found(args: Seq<Seq<char>>, i: int, k: Knobs)
    requires
        0 <= i,
        scan(args, i, k) == Err::<Knobs, ArgError>(ArgError::Help),
    ensures
        exists|j: int|
            i <= j < args.len() && (j - i) % 2 == 0 && is_help(#[trigger] args[j]) && scan(
                args.take(j),
                i,
                k,
            ) is Ok,
    decreases args.len() - i,
{
    if is_help(args[i]) {
        assert(scan(args.take(i), i, k) is Ok);
    } else {
        let knob = knob_of(args[i]).unwrap();
        let k2 = set_knob(k, knob, args[i + 1], i).unwrap();
        lemma_help_found(args, i + 2, k2);
        let j = choose|j: int|
            i + 2 <= j < args.len() && (j - (i + 2)) % 2 == 0 && is_help(#[trigger] args[j])
                && scan(args.take(j), i + 2, k2) is Ok;
        let p = args.take(j);
        assert(p[i] == args[i]);
        assert(p[i + 1] == args[i + 1]);
        assert(scan(p, i, k) == scan(p, i + 2, k2));
        assert((j - i) % 2 == 0);
    }
}

/// The help flag is answered exactly when it stands at an even position
/// and everything before it is an accepted command line: the first flag
/// that cannot be read is `-h` or `--help`.
pub proof fn lemma_command_line_help(args: Seq<Seq<char>>)
    ensures
        command_line(args) == Err::<ConfigView, ArgError>(ArgError::Help) <==> exists|j: int|
            0 <= j < args.len() && j % 2 == 0 && is_help(#[trigger] args[j]) && command_line(
                args.take(j),
            ) is Ok,
{
    if command_line(args) == Err::<ConfigView, ArgError>(ArgError::Help) {
        lemma_help_found(args, 0, no_knobs());
    }
    if exists|j: int|
        0 <= j < args.len() && j % 2 == 0 && is_help(#[trigger] args[j]) && command_line(
            args.take(j),
        ) is Ok {
        let j = choose|j: int|
            0 <= j < args.len() && j % 2 == 0 && is_help(#[trigger] args[j]) && command_line(
                args.take(j),
            ) is Ok;
        lemma_scan_prefix(args, j, 0, no_knobs());
    }
}

/// The values that the pairs from position `j` on give `knob`, in order.
pub open spec fn values_for(args: Seq<Seq<char>>, knob: Knob, j: int) -> Seq<Seq<char>>
    decreases args.len() - j,
{
    if j < 0 || j + 1 >= args.len() {
        Seq::empty()
    } else if knob_of(args[j]) == Some(knob) {
        seq![args[j + 1]] + values_for(args, knob, j + 2)
    } else {
        values_for(args, knob, j + 2)
    }
}

/// How many of the pairs from position `j` on have a flag that names no
/// knob.
pub open spec fn unknown_count(args: Seq<Seq<char>>, j: int) -> nat
    decreases args.len() - j,
{
    if j < 0 || j + 1 >= args.len() {
        0
    } else {
        (if knob_of(args[j]) is None {
            1nat
        } else {
            0nat
        }) + unknown_count(args, j + 2)
    }
}

/// No `-h` or `--help` stands at a flag position from `j` on.
pub open spec fn no_help_flag(args: Seq<Seq<char>>, j: int) -> bool {
    forall|i: int| j <= i < args.len() && (i - j) % 2 == 0 ==> !is_help(#[trigger] args[i])
}

/// Whether every value in `vs` is one that `knob` takes.
pub open spec fn values_ok(knob: Knob, vs: Seq<Seq<char>>) -> bool {
    forall|i: int| 0 <= i < vs.len() ==> knob_value_ok(knob, #[trigger] vs[i])
}

proof fn lemma_pairs_by_knob(args: Seq<Seq<char>>, j: int)
    requires
        0 <= j <= args.len(),
        (args.len() - j) % 2 == 0,
    ensures
        forall|knob: Knob| knob_count(args, knob, j) == (#[trigger] values_for(args, knob, j)).len(),
        forall|knob: Knob|
            given(args, knob, j) == if (#[trigger] values_for(args, knob, j)).len() > 0 {
                Some(values_for(args, knob, j)[0])
            } else {
                None
            },
        pairs_ok(args, j) <==> unknown_count(args, j) == 0 && forall|knob: Knob|
            values_ok(knob, #[trigger] values_for(args, knob, j)),
        args.len() - j == 2 * (unknown_count(args, j) + values_for(args, Knob::Number, j).len()
            + values_for(args, Knob::BatchSize, j).len() + values_for(args, Knob::Rate, j).len()
            + values_for(args, Knob::Target, j).len()),
        no_help_flag(args, j) ==> forall|k: Knobs| scan(args, j, k) != Err::<Knobs, ArgError>(ArgError::Help),
    decreases args.len() - j,
{
    if j + 1 < args.len() {
        lemma_pairs_by_knob(args, j + 2);
        let f = args[j];
        let v = args[j + 1];
        assert forall|knob: Knob|
            values_ok(knob, #[trigger] values_for(args, knob, j)) <==> (knob_of(f) == Some(knob)
                ==> knob_value_ok(knob, v)) && values_ok(knob, values_for(args, knob, j + 2)) by {
            let rest = values_for(args, knob, j + 2);
            if knob_of(f) == Some(knob) {
                let all = seq![v] + rest;
                assert(values_for(args, knob, j) == all);
                if values_ok(knob, all) {
                    assert(knob_value_ok(knob, all[0]));
                    assert forall|i: int| 0 <= i < rest.len() implies knob_value_ok(knob, #[trigger] rest[i]) by {
                        assert(all[i + 1] == rest[i]);
                    }
                }
                if knob_value_ok(knob, v) && values_ok(knob, rest) {
                    assert forall|i: int| 0 <= i < all.len() implies knob_value_ok(knob, #[trigger] all[i]) by {
                        if i > 0 {
                            assert(all[i] == rest[i - 1]);
                        }
                    }
                }
            }
        }
        if pairs_ok(args, j) {
            assert forall|knob: Knob| values_ok(knob, #[trigger] values_for(args, knob, j)) by {
                assert(values_ok(knob, values_for(args, knob, j + 2)));
            }
        }
        if unknown_count(args, j) == 0 && forall|knob: Knob|
            values_ok(knob, #[trigger] values_for(args, knob, j)) {
            let knob = knob_of(f).unwrap();
            assert(values_ok(knob, values_for(args, knob, j)));
            assert forall|kn: Knob| values_ok(kn, #[trigger] values_for(args, kn, j + 2)) by {
                assert(values_ok(kn, values_for(args, kn, j)));
            }
        }
        if no_help_flag(args, j) {
            assert(!is_help(args[j]));
            assert(no_help_flag(args, j + 2)) by {
                assert forall|i: int| j + 2 <= i < args.len() && (i - (j + 2)) % 2 == 0 implies !is_help(
                    #[trigger] args[i],
                ) by {
                    assert((i - j) % 2 == 0);
                }
            }
            assert forall|k: Knobs| scan(args, j, k) != Err::<Knobs, ArgError>(ArgError::Help) by {
                if let Some(knob) = knob_of(f) {
                    if let Ok(k2) = set_knob(k, knob, v, j) {
                        assert(scan(args, j + 2, k2) != Err::<Knobs, ArgError>(ArgError::Help));
                    }
                }
            }
        }
    }
}

proof fn lemma_same_values(knob: Knob, a: Seq<Seq<char>>, b: Seq<Seq<char>>)
    requires
        a.to_multiset() == b.to_multiset(),
    ensures
        a.len() == b.len(),
        values_ok(knob, a) ==> values_ok(knob, b),
        a.len() <= 1 ==> a == b,
{
    a.to_multiset_ensures();
    b.to_multiset_ensures();
    if values_ok(knob, a) {
        assert forall|i: int| 0 <= i < b.len() implies knob_value_ok(knob, #[trigger] b[i]) by {
            assert(b.contains(b[i]));
            assert(b.to_multiset().count(b[i]) > 0);
            assert(a.to_multiset().count(b[i]) > 0);
            assert(a.contains(b[i]));
            let k = choose|k: int| 0 <= k < a.len() && a[k] == b[i];
            assert(knob_value_ok(knob, a[k]));
        }
    }
    if a.len() == 1 {
        assert(a.contains(a[0]));
        assert(a.to_multiset().count(a[0]) > 0);
        assert(b.to_multiset().count(a[0]) > 0);
        assert(b.contains(a[0]));
        assert(a =~= b);
    }
}

/// Reordering the flag and value pairs, or writing a flag in its other
/// form, changes nothing: two command lines of as many pairs, with no help
/// flag, that give each knob the same values (in any order) are both
/// accepted, with the same settings, or both refused, and neither refusal
/// is the help answer.
pub proof fn lemma_command_line_reorder(a: Seq<Seq<char>>, b: Seq<Seq<char>>)
    requires
        a.len() == b.len(),
        a.len() % 2 == 0,
        no_help_flag(a, 0),
        no_help_flag(b, 0),
        forall|knob: Knob|
            (#[trigger] values_for(a, knob, 0)).to_multiset() == values_for(b, knob, 0).to_multiset(),
    ensures
        command_line(a) is Ok <==> command_line(b) is Ok,
        command_line(a) is Ok ==> command_line(a) == command_line(b),
        command_line(a) != Err::<ConfigView, ArgError>(ArgError::Help),
        command_line(b) != Err::<ConfigView, ArgError>(ArgError::Help),
{
    lemma_pairs_by_knob(a, 0);
    lemma_pairs_by_knob(b, 0);
    lemma_command_line_accepts(a);
    lemma_command_line_accepts(b);
    assert(scan(a, 0, no_knobs()) != Err::<Knobs, ArgError>(ArgError::Help));
    assert(scan(b, 0, no_knobs()) != Err::<Knobs, ArgError>(ArgError::Help));
    assert forall|knob: Knob| #[trigger] values_for(a, knob, 0).len() == values_for(b, knob, 0).len()
        && (values_ok(knob, values_for(a, knob, 0)) <==> values_ok(knob, values_for(b, knob, 0)))
        && (values_for(a, knob, 0).len() <= 1 ==> values_for(a, knob, 0) == values_for(b, knob, 0)) by {
        let (va, vb) = (values_for(a, knob, 0), values_for(b, knob, 0));
        assert(va.to_multiset() == vb.to_multiset());
        lemma_same_values(knob, va, vb);
        lemma_same_values(knob, vb, va);
    }
    assert(values_for(a, Knob::Number, 0).len() == values_for(b, Knob::Number, 0).len());
    assert(values_for(a, Knob::BatchSize, 0).len() == values_for(b, Knob::BatchSize, 0).len());
    assert(values_for(a, Knob::Rate, 0).len() == values_for(b, Knob::Rate, 0).len());
    assert(values_for(a, Knob::Target, 0).len() == values_for(b, Knob::Target, 0).len());
    assert(unknown_count(a, 0) == unknown_count(b, 0));
    if pairs_ok(a, 0) {
        assert forall|knob: Knob| values_ok(knob, #[trigger] values_for(b, knob, 0)) by {
            assert(values_ok(knob, values_for(a, knob, 0)));
            assert(values_for(a, knob, 0).len() == values_for(b, knob, 0).len());
        }
    }
    if pairs_ok(b, 0) {
        assert forall|knob: Knob| values_ok(knob, #[trigger] values_for(a, knob, 0)) by {
            assert(values_ok(knob, values_for(b, knob, 0)));
            assert(values_for(a, knob, 0).len() == values_for(b, knob, 0).len());
        }
    }
    if command_line(a) is Ok {
        assert(values_for(a, Knob::Number, 0) == values_for(b, Knob::Number, 0));
        assert(values_for(a, Knob::BatchSize, 0) == values_for(b, Knob::BatchSize, 0));
        assert(values_for(a, Knob::Rate, 0) == values_for(b, Knob::Rate, 0));
        assert(values_for(a, Knob::Target, 0) == values_for(b, Knob::Target, 0));
        lemma_command_line_order_free(a, b);
    }
}

/// The user named a port: a target was given and it holds a `:`.
pub open spec fn port_given(args: Seq<Seq<char>>) -> bool {
    match given(args, Knob::Target, 0) {
        Some(t) => t.contains(':'),
        None => false,
    }
}

proof fn lemma_find_char(s: Seq<char>, c: char, from: int)
    requires
        0 <= from,
    ensures
        find_char(s, c, from) is None <==> forall|j: int| from <= j < s.len() ==> s[j] != c,
    decreases s.len() - from,
{
    if from < s.len() && s[from] != c {
        lemma_find_char(s, c, from + 1);
    }
}

/// On an accepted command line, a setting is marked as left at its default
/// exactly when its flag was not given; the port counts as left at its
/// default unless a target with a `:` was given.
pub proof fn lemma_defaults_follow_flags(args: Seq<Seq<char>>)
    requires
        command_line(args) is Ok,
    ensures
        ({
            let c = command_line(args).unwrap();
            &&& c.n_def <==> given(args, Knob::Number, 0) is None
            &&& c.batch_def <==> given(args, Knob::BatchSize, 0) is None
            &&& c.rate_def <==> given(args, Knob::Rate, 0) is None
            &&& c.target_def <==> given(args, Knob::Target, 0) is None
            &&& (c.target_def || c.port_def) <==> !port_given(args)
        }),
{
    lemma_command_line_accepts(args);
    lemma_pairs_ok_at(args, 0);
    lemma_pairs_by_knob(args, 0);
    let k = filled(no_knobs(), args, 0);
    assert(values_ok(Knob::Number, values_for(args, Knob::Number, 0)));
    assert(values_ok(Knob::BatchSize, values_for(args, Knob::BatchSize, 0)));
    assert(values_ok(Knob::Rate, values_for(args, Knob::Rate, 0)));
    if values_for(args, Knob::Number, 0).len() > 0 {
        assert(knob_value_ok(Knob::Number, values_for(args, Knob::Number, 0)[0]));
    }
    if values_for(args, Knob::BatchSize, 0).len() > 0 {
        assert(knob_value_ok(Knob::BatchSize, values_for(args, Knob::BatchSize, 0)[0]));
    }
    if values_for(args, Knob::Rate, 0).len() > 0 {
        assert(knob_value_ok(Knob::Rate, values_for(args, Knob::Rate, 0)[0]));
    }
    let t = match k.target {
        Some(t) => t,
        None => default_target(),
    };
    lemma_find_char(t, ':', 0);
    if k.target is None {
        reveal_strlit("127.0.0.1:6379");
        assert(t[9] == ':');
        assert(t.contains(':'));
    }
}

} // verus!
